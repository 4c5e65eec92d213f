use vigenere_cracker::divisors::gcd;
use vigenere_cracker::error::CrackError;
use vigenere_cracker::repeats::{estimate_key_length, find_differences, find_repeated_sequences};

fn entries(list: &[(&str, &[usize])]) -> Vec<(String, Vec<usize>)> {
    list.iter().map(|(sequence, numbers)| (String::from(*sequence), numbers.to_vec())).collect()
}

#[test]
fn abc_is_found_with_its_positions_and_gaps() {
    let found = find_repeated_sequences(&String::from("abcabcabcxyzabcabc"));
    let abc: Vec<&(String, Vec<usize>)> =
        found.iter().filter(|(sequence, _)| sequence == "abc").collect();
    assert_eq!(abc.len(), 1);
    assert_eq!(abc[0].1, vec![0, 3, 6, 12, 15]);
    let differences = find_differences(vec![abc[0].clone()]);
    assert_eq!(differences, entries(&[("abc", &[3, 3, 6, 3])]));
    let gaps: Vec<u64> = differences[0].1.iter().map(|gap| *gap as u64).collect();
    assert_eq!(gcd(gaps), 3);
}

#[test]
fn repeated_sequences_of_all_lengths() {
    let found = find_repeated_sequences(&String::from("abcabcabcxyzabcabc"));
    assert_eq!(
        found,
        entries(&[
            ("abc", &[0, 3, 6, 12, 15]),
            ("bca", &[1, 4, 13]),
            ("cab", &[2, 5, 14]),
            ("abca", &[0, 3, 12]),
            ("bcab", &[1, 4, 13]),
            ("cabc", &[2, 5, 14]),
            ("abcab", &[0, 3, 12]),
            ("bcabc", &[1, 4, 13]),
            ("abcabc", &[0, 3, 12]),
        ])
    );
}

#[test]
fn a_sequence_that_stands_twice_is_left_out() {
    assert_eq!(find_repeated_sequences(&String::from("abcxabcy")), Vec::new());
    assert_eq!(find_repeated_sequences(&String::from("abcdefghijklmnop")), Vec::new());
}

#[test]
fn a_text_too_short_has_no_repeated_sequences() {
    assert_eq!(find_repeated_sequences(&String::new()), Vec::new());
    assert_eq!(find_repeated_sequences(&String::from("ab")), Vec::new());
    assert_eq!(find_repeated_sequences(&String::from("aaaa")), Vec::new());
}

#[test]
fn overlapping_occurrences_count() {
    assert_eq!(
        find_repeated_sequences(&String::from("aaaaa")),
        entries(&[("aaa", &[0, 1, 2])])
    );
}

#[test]
fn positions_count_characters() {
    let found = find_repeated_sequences(&String::from("\u{e9}t\u{e9}x\u{e9}t\u{e9}y\u{e9}t\u{e9}"));
    assert_eq!(found, entries(&[("\u{e9}t\u{e9}", &[0, 4, 8])]));
}

#[test]
fn find_differences_between_positions() {
    assert_eq!(
        find_differences(entries(&[("aa", &[1, 4, 10])])),
        entries(&[("aa", &[3, 6])])
    );
}

#[test]
fn find_differences_keeps_each_sequence() {
    assert_eq!(
        find_differences(entries(&[("abc", &[0, 3, 6, 12, 15]), ("bca", &[1, 4, 13])])),
        entries(&[("abc", &[3, 3, 6, 3]), ("bca", &[3, 9])])
    );
    assert_eq!(find_differences(Vec::new()), Vec::new());
}

#[test]
fn find_differences_of_one_position_or_none() {
    assert_eq!(
        find_differences(entries(&[("abc", &[7]), ("xyz", &[])])),
        entries(&[("abc", &[]), ("xyz", &[])])
    );
}

#[test]
fn find_differences_of_equal_positions() {
    assert_eq!(find_differences(entries(&[("abc", &[2, 2, 5])])), entries(&[("abc", &[0, 3])]));
}

#[test]
fn estimate_key_length_is_the_divisor_of_all_gaps() {
    let differences = entries(&[("abc", &[3, 3, 6, 3]), ("bca", &[3, 9])]);
    assert_eq!(estimate_key_length(&differences, 18), Ok(3));
    let differences = entries(&[("abc", &[10, 20]), ("bca", &[15])]);
    assert_eq!(estimate_key_length(&differences, 100), Ok(5));
    assert_eq!(estimate_key_length(&differences, 5), Ok(5));
}

#[test]
fn estimate_key_length_without_gaps() {
    assert_eq!(estimate_key_length(&Vec::new(), 18), Err(CrackError::NoRepeatsFound));
    assert_eq!(
        estimate_key_length(&entries(&[("abc", &[]), ("bca", &[])]), 18),
        Err(CrackError::NoRepeatsFound)
    );
}

#[test]
fn estimate_key_length_beyond_the_text() {
    assert_eq!(
        estimate_key_length(&entries(&[("abc", &[10, 20])]), 9),
        Err(CrackError::DegenerateKeyLength)
    );
}

#[test]
fn estimate_key_length_of_zero() {
    assert_eq!(
        estimate_key_length(&entries(&[("abc", &[0, 0])]), 9),
        Err(CrackError::DegenerateKeyLength)
    );
}
