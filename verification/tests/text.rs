use vigenere_cracker::text::{
    alphabet_index, from_chars, letter, lowercase_index, sanitize_input, to_chars,
};

#[test]
fn sanitize_input_strips_and_lowercases() {
    let input = String::from("Hello, World. \u{2018}Quoted\u{2019}");
    assert_eq!(sanitize_input(&input), "helloworldquoted");
}

#[test]
fn sanitize_input_puts_letters_in_lowercase() {
    assert_eq!(sanitize_input(&String::from("ABC")), "abc");
    assert_eq!(sanitize_input(&String::from("LxfOPVefrnhr")), "lxfopvefrnhr");
}

#[test]
fn sanitize_input_keeps_other_characters() {
    assert_eq!(sanitize_input(&String::from("a-b!c")), "a-b!c");
    assert_eq!(sanitize_input(&String::from("It's 9 o'clock")), "it's9o'clock");
    assert_eq!(sanitize_input(&String::from("tab\there")), "tab\there");
}

#[test]
fn sanitize_input_of_nothing_is_nothing() {
    assert_eq!(sanitize_input(&String::new()), "");
    assert_eq!(sanitize_input(&String::from(" ,. \u{2018}\u{2019}")), "");
}

#[test]
fn sanitize_input_lowercases_beyond_ascii() {
    assert_eq!(sanitize_input(&String::from("\u{c9}COLE")), "\u{e9}cole");
}

#[test]
fn lowercase_index_of_characters() {
    assert_eq!(lowercase_index('a'), Some(0));
    assert_eq!(lowercase_index('e'), Some(4));
    assert_eq!(lowercase_index('z'), Some(25));
    assert_eq!(lowercase_index('A'), None);
    assert_eq!(lowercase_index('`'), None);
    assert_eq!(lowercase_index('{'), None);
    assert_eq!(lowercase_index('\u{e9}'), None);
}

#[test]
fn alphabet_index_of_characters() {
    assert_eq!(alphabet_index('a'), Some(0));
    assert_eq!(alphabet_index('A'), Some(0));
    assert_eq!(alphabet_index('z'), Some(25));
    assert_eq!(alphabet_index('Z'), Some(25));
    assert_eq!(alphabet_index('@'), None);
    assert_eq!(alphabet_index('['), None);
    assert_eq!(alphabet_index(' '), None);
    assert_eq!(alphabet_index('\u{10061}'), None);
}

#[test]
fn letter_of_each_index() {
    assert_eq!(letter(0), 'a');
    assert_eq!(letter(25), 'z');
    for index in 0..26u8 {
        assert_eq!(lowercase_index(letter(index)), Some(index));
    }
}

#[test]
fn to_chars_and_back() {
    let s = String::from("na\u{ef}ve text");
    let chars = to_chars(&s);
    assert_eq!(chars, vec!['n', 'a', '\u{ef}', 'v', 'e', ' ', 't', 'e', 'x', 't']);
    assert_eq!(from_chars(&chars, 0, chars.len()), s);
    assert_eq!(from_chars(&chars, 2, 5), "\u{ef}ve");
    assert_eq!(from_chars(&chars, 4, 4), "");
}
