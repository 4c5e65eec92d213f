use vigenere_cracker::frequency::{
    best_shift, caesar_decrypt, fitness_score, frequency_analysis, recover_key,
    ENGLISH_FREQUENCIES,
};

const ENGLISH: &str = "thequickbrownfoxjumpsoverthelazydogandthenthedogchasedthefoxacrossthegreenfielduntiltheeveningsunwentdownbehindthehills";

fn shifted_forward(text: &str, shift: u8) -> String {
    text.chars().map(|c| (((c as u8 - 97 + shift) % 26) + 97) as char).collect()
}

#[test]
fn english_frequencies_table() {
    assert_eq!(ENGLISH_FREQUENCIES.len(), 26);
    assert_eq!(ENGLISH_FREQUENCIES[0], 82);
    assert_eq!(ENGLISH_FREQUENCIES[4], 127);
    assert_eq!(ENGLISH_FREQUENCIES[19], 91);
    assert_eq!(ENGLISH_FREQUENCIES[25], 1);
    assert_eq!(ENGLISH_FREQUENCIES.iter().sum::<u64>(), 1002);
}

#[test]
fn frequency_analysis_counts_letters() {
    let counts = frequency_analysis(&String::from("eeee"));
    for index in 0..26 {
        assert_eq!(counts[index], if index == 4 { 4 } else { 0 });
    }
    let counts = frequency_analysis(&String::from("attackatdawn"));
    assert_eq!(counts[0], 4);
    assert_eq!(counts[19], 3);
    assert_eq!(counts[2], 1);
    assert_eq!(counts[10], 1);
    assert_eq!(counts[3], 1);
    assert_eq!(counts[22], 1);
    assert_eq!(counts[13], 1);
    assert_eq!(counts[4], 0);
}

#[test]
fn frequency_analysis_of_nothing() {
    assert_eq!(frequency_analysis(&String::new()), [0usize; 26]);
}

#[test]
fn counts_of_a_block_of_letters_sum_to_its_length() {
    for block in ["a", "zzz", "attackatdawn", ENGLISH] {
        let counts = frequency_analysis(&String::from(block));
        assert_eq!(counts.iter().sum::<usize>(), block.len());
    }
}

#[test]
fn frequency_analysis_counts_lowercase_letters_only() {
    let counts = frequency_analysis(&String::from("aA1 \u{e9}z{`"));
    assert_eq!(counts[0], 1);
    assert_eq!(counts[25], 1);
    assert_eq!(counts.iter().sum::<usize>(), 2);
}

#[test]
fn caesar_decrypt_shifts_back() {
    assert_eq!(caesar_decrypt(&String::from("khoor"), 3), "hello");
    assert_eq!(caesar_decrypt(&String::from("hello"), 0), "hello");
    assert_eq!(caesar_decrypt(&String::from("abc"), 25), "bcd");
    assert_eq!(caesar_decrypt(&String::from("abc"), 1), "zab");
}

#[test]
fn caesar_decrypt_keeps_other_characters() {
    assert_eq!(caesar_decrypt(&String::from("abc xyz!"), 1), "zab wxy!");
    assert_eq!(caesar_decrypt(&String::from("Ab\u{e9}"), 1), "Aa\u{e9}");
}

#[test]
fn fitness_score_of_a_block_of_one_letter() {
    let counts = frequency_analysis(&String::from("eeee"));
    assert_eq!(fitness_score(&counts, 4), 6992);
    let counts = frequency_analysis(&String::from("e"));
    assert_eq!(fitness_score(&counts, 1), 1748);
    let counts = frequency_analysis(&String::from("z"));
    assert_eq!(fitness_score(&counts, 1), 2000);
}

#[test]
fn fitness_score_of_nothing_is_zero() {
    assert_eq!(fitness_score(&[0usize; 26], 0), 0);
}

#[test]
fn fitness_score_without_letters() {
    assert_eq!(fitness_score(&[0usize; 26], 3), 3006);
}

#[test]
fn fitness_score_of_english() {
    let counts = frequency_analysis(&String::from(ENGLISH));
    assert_eq!(fitness_score(&counts, ENGLISH.len()), 38140);
}

#[test]
fn fitness_score_of_the_largest_counts() {
    let mut counts = [0usize; 26];
    counts[25] = usize::MAX;
    let length = usize::MAX as u128;
    assert_eq!(fitness_score(&counts, usize::MAX), 999 * length + 1001 * length);
}

#[test]
fn best_shift_finds_the_shift_of_english() {
    for shift in [0u8, 3, 11, 25] {
        assert_eq!(best_shift(&shifted_forward(ENGLISH, shift)), shift);
    }
}

#[test]
fn best_shift_of_one_letter() {
    assert_eq!(best_shift(&String::from("e")), 0);
    assert_eq!(best_shift(&String::from("a")), 22);
    assert_eq!(best_shift(&String::from("z")), 21);
}

#[test]
fn best_shift_takes_the_smallest_among_equals() {
    assert_eq!(best_shift(&String::new()), 0);
    assert_eq!(best_shift(&String::from("123")), 0);
}

#[test]
fn recover_key_takes_a_letter_for_each_block() {
    let blocks = vec![
        shifted_forward(ENGLISH, 11),
        shifted_forward(ENGLISH, 4),
        shifted_forward(ENGLISH, 12),
        shifted_forward(ENGLISH, 14),
        shifted_forward(ENGLISH, 13),
    ];
    assert_eq!(recover_key(&blocks), "lemon");
    assert_eq!(recover_key(&Vec::new()), "");
    assert_eq!(recover_key(&vec![String::new()]), "a");
}
