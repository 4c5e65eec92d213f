use vigenere_cracker::columns::group_ciphertext_into_blocks;

fn group(text: &str, key_length: usize) -> Vec<String> {
    group_ciphertext_into_blocks(&String::from(text), key_length)
}

#[test]
fn blocks_take_characters_in_turn() {
    assert_eq!(group("abcdefg", 3), vec!["adg", "be", "cf"]);
}

#[test]
fn one_block_is_the_text() {
    assert_eq!(group("abcdefg", 1), vec!["abcdefg"]);
}

#[test]
fn more_blocks_than_characters() {
    assert_eq!(group("ab", 4), vec!["a", "b", "", ""]);
}

#[test]
fn blocks_of_nothing() {
    assert_eq!(group("", 3), vec!["", "", ""]);
}

#[test]
fn blocks_count_characters_not_bytes() {
    assert_eq!(group("a\u{e9}b\u{2018}c", 2), vec!["abc", "\u{e9}\u{2018}"]);
}

#[test]
fn interleaving_the_blocks_restores_the_text() {
    let text = "thequickbrownfoxjumpsoverthelazydog";
    let length = text.chars().count();
    for key_length in 1..=40usize {
        let blocks: Vec<Vec<char>> =
            group(text, key_length).iter().map(|block| block.chars().collect()).collect();
        assert_eq!(blocks.len(), key_length);
        let total: usize = blocks.iter().map(|block| block.len()).sum();
        assert_eq!(total, length);
        let mut again = String::new();
        for at in 0..length {
            again.push(blocks[at % key_length][at / key_length]);
        }
        assert_eq!(again, text);
    }
}
