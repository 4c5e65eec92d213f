use vigenere_cracker::engine::{crack, crack_normalized};
use vigenere_cracker::error::CrackError;
use vigenere_cracker::text::sanitize_input;

const PLAINTEXT: &str = "It is important at this stage to introduce the notion of summative and formative assessments. The former is an \u{2018}assessment of learning\u{2019} and the latter is \u{2018}assessment for learning\u{2019}, which capture the vital difference in function. The former usually takes place at the end of a course of study and it is mainly concerned with \u{2018}summing up\u{2019} what has been learned facts, principles and generalisations, applications and skills";

fn encrypt(plaintext: &str, key: &str) -> String {
    let key: Vec<u8> = key.bytes().map(|k| k - 97).collect();
    let mut used = 0;
    let mut ciphertext = String::new();
    for c in plaintext.chars() {
        if c.is_ascii_alphabetic() {
            let base = if c.is_ascii_uppercase() { 65 } else { 97 };
            let shifted = (c as u8 - base + key[used % key.len()]) % 26;
            ciphertext.push((shifted + base) as char);
            used += 1;
        } else {
            ciphertext.push(c);
        }
    }
    ciphertext
}

#[test]
fn crack_recovers_a_plaintext_encrypted_under_a_key() {
    for key in ["lemon", "key", "fdn"] {
        let ciphertext = encrypt(PLAINTEXT, key);
        assert_eq!(crack(ciphertext), Ok(PLAINTEXT.to_ascii_lowercase()));
    }
}

#[test]
fn crack_of_a_ciphertext_under_lemon() {
    let ciphertext = String::from("Tx ug vxtafglrf og elug feess gz mzhezhgqr elq bbemab bq wgazlxujr lrp tbcqmhvgi mgfpwearyxe. Hup jafzpv ug ny \u{2018}eegrdwysae sr zrlvzwar\u{2019} ezr gsi xogeid wf \u{2018}lwesfdqqbg qsd zrlvzwar\u{2019}, atwps gmdgfvq hup zuhnw hutspvqbpp mz thygfwby. Xts szvyse fwgoywc foxpw bznni mh gsi qbq zj m qbfves bq wfiqj ezr ve me antrxm pzroseyip kvel \u{2018}eizxmzu ha\u{2019} atog see prpr xsncrqr slgfg, ccmzqvapqg nyh ssapvmzvdefwbyw, mdcwmoogtszg nyh eyvwpe");
    assert_eq!(crack(ciphertext), Ok(PLAINTEXT.to_ascii_lowercase()));
}

#[test]
fn crack_of_a_ciphertext_under_a_key_of_three_letters() {
    let ciphertext = String::from("Nw vx lzureyday dg ykvx vgfjr yr vswetghhh gmh atwvtq bk vhrpnylij dai ibwpnylij dfxhfxprswf. Ykr krerhe nv ns \u{2018}dfxhfxprsw bk orfuanqt\u{2019} fqq ykr qdgyhe nv \u{2018}nxvrxvzjqg kre qhnwqvsj\u{2019}, jmlpm fnuwhwh gmh inwnq gvkirwhahh vs ihsfgnra. Ykr krerhe zvhfoyd wnphf uonhh ny wuj hai rs f fbzufj rs xwhib nsg vy lf rdvsol hrahheshq blgm \u{2018}vhrpvsj hu\u{2019} zufw ufv ojha qhnwqri inhwf, uuvsfvuorx dai jrshefovxdgnrax, dcuovhdgnrax dai vxnoyx");
    assert_eq!(crack(ciphertext), Ok(PLAINTEXT.to_ascii_lowercase()));
}

#[test]
fn crack_of_an_empty_ciphertext_fails() {
    assert_eq!(crack(String::new()), Err(CrackError::EmptyInput));
}

#[test]
fn crack_of_a_ciphertext_that_normalises_to_nothing_fails() {
    assert_eq!(crack(String::from(" ,. \u{2018}\u{2019} ")), Err(CrackError::EmptyInput));
}

#[test]
fn crack_of_a_ciphertext_too_short_fails() {
    assert_eq!(crack(String::from("ab")), Err(CrackError::EmptyInput));
    assert_eq!(crack(String::from("a, b.")), Err(CrackError::EmptyInput));
}

#[test]
fn crack_without_repeats_fails() {
    assert_eq!(crack(String::from("Ab, C.")), Err(CrackError::NoRepeatsFound));
    assert_eq!(
        crack(String::from("abcdefghijklmnopqrstuvwxyz")),
        Err(CrackError::NoRepeatsFound)
    );
    assert_eq!(crack(String::from("aaaa")), Err(CrackError::NoRepeatsFound));
}

#[test]
fn crack_with_a_wrong_key_length_still_gives_a_text() {
    assert_eq!(crack(String::from("abcabcabcxyzabcabc")), Ok(String::from("hhhhhhhhheeehhhhhh")));
    assert_eq!(crack(String::from("aaaaa")), Ok(String::from("eeeee")));
}

#[test]
fn crack_keeps_punctuation_and_lowercases() {
    assert_eq!(
        crack(String::from("ABC, abc. Abc-xyz! aBc (abC)")),
        Ok(String::from("def, def. def-abc! def (def)"))
    );
}

#[test]
fn crack_normalized_takes_the_key_from_the_normalised_text() {
    let ciphertext = String::from("Lxfopv efrnhr");
    let normalized = String::from("abcabcabcxyzabcabc");
    assert_eq!(crack_normalized(&ciphertext, &normalized), Ok(String::from("sdkvva llwunw")));
}

#[test]
fn crack_normalized_fails_as_crack_does() {
    let ciphertext = String::from("Lxfopvefrnhr");
    assert_eq!(crack_normalized(&ciphertext, &String::new()), Err(CrackError::EmptyInput));
    assert_eq!(crack_normalized(&ciphertext, &String::from("ab")), Err(CrackError::EmptyInput));
    assert_eq!(
        crack_normalized(&ciphertext, &String::from("abc")),
        Err(CrackError::NoRepeatsFound)
    );
}

#[test]
fn crack_is_crack_normalized_of_the_sanitized_text() {
    let ciphertext = encrypt(PLAINTEXT, "lemon");
    let normalized = sanitize_input(&ciphertext);
    assert_eq!(crack_normalized(&ciphertext, &normalized), crack(ciphertext));
}
