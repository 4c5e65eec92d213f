use vigenere_cracker::cipher::vigenere_decrypt;

fn decrypt(ciphertext: &str, key: &str) -> String {
    vigenere_decrypt(&String::from(ciphertext), &String::from(key))
}

#[test]
fn attack_at_dawn_under_lemon() {
    assert_eq!(decrypt("Lxfopvefrnhr", "lemon"), "attackatdawn");
}

#[test]
fn decryption_is_case_insensitive() {
    assert_eq!(decrypt("LXFOPVEFRNHR", "lemon"), "attackatdawn");
    assert_eq!(decrypt("lxfopvefrnhr", "lemon"), "attackatdawn");
}

#[test]
fn decryption_keeps_punctuation_in_place() {
    assert_eq!(decrypt("Lxf opv, efr-nhr!", "lemon"), "att ack, atd-awn!");
}

#[test]
fn decryption_uses_no_key_letter_on_other_characters() {
    let with = decrypt("1L2x3f4o5p6v7e8f9r0n.h;r", "lemon");
    assert_eq!(with, "1a2t3t4a5c6k7a8t9d0a.w;n");
    let letters: String = with.chars().filter(|c| c.is_ascii_alphabetic()).collect();
    assert_eq!(letters, "attackatdawn");
}

#[test]
fn decryption_leaves_characters_beyond_ascii() {
    assert_eq!(decrypt("\u{e9}L\u{2018}x\u{10061}f", "lemon"), "\u{e9}a\u{2018}t\u{10061}t");
}

#[test]
fn decryption_under_a_is_lowercasing() {
    assert_eq!(decrypt("Hello, World", "a"), "hello, world");
}

#[test]
fn decryption_wraps_around_the_alphabet() {
    assert_eq!(decrypt("abc", "z"), "bcd");
    assert_eq!(decrypt("zab", "b"), "yza");
}

#[test]
fn decryption_of_nothing() {
    assert_eq!(decrypt("", "key"), "");
    assert_eq!(decrypt("123 ,.", "key"), "123 ,.");
}

#[test]
fn decryption_with_a_key_longer_than_the_text() {
    assert_eq!(decrypt("Lxf", "lemonlemon"), "att");
}

#[test]
fn decryption_keeps_length_and_other_characters() {
    let ciphertext = "Tx ug, vxtafglrf! (og) elug";
    let plaintext = decrypt(ciphertext, "lemon");
    assert_eq!(plaintext, "it is, important! (at) this");
    let before: Vec<char> = ciphertext.chars().collect();
    let after: Vec<char> = plaintext.chars().collect();
    assert_eq!(before.len(), after.len());
    for at in 0..before.len() {
        if before[at].is_ascii_alphabetic() {
            assert!(after[at].is_ascii_lowercase());
        } else {
            assert_eq!(before[at], after[at]);
        }
    }
}
