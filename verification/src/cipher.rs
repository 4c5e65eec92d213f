//! The Vigenere cipher itself: decryption under a known key, and what ties
//! a ciphertext to its plaintext.

use crate::text::{
    alphabet_index, ascii_lowercase, is_letter, is_lowercase_letter, letter, letter_at,
    letter_index, lowercase_index, to_chars,
};
use vstd::arithmetic::div_mod::{
    lemma_fundamental_div_mod, lemma_fundamental_div_mod_converse, lemma_small_mod,
};
use vstd::prelude::*;

verus! {

/// A key: at least one character, each a lowercase letter.
pub open spec fn is_key(key: Seq<char>) -> bool {
    &&& key.len() > 0
    &&& forall|i: int| 0 <= i < key.len() ==> is_lowercase_letter(#[trigger] key[i])
}

/// The test for letters, as a function.
pub open spec fn letters() -> spec_fn(char) -> bool {
    |c: char| is_letter(c)
}

/// The number of letters in a text.
pub open spec fn letter_count(text: Seq<char>) -> nat {
    text.filter(letters()).len()
}

/// The number of key letters used up before position `at` of a text. The
/// key stream moves on by one at each letter of the text and stands still
/// at every other character.
pub open spec fn key_cursor(text: Seq<char>, at: int) -> nat
    decreases at,
{
    if at <= 0 {
        0
    } else if is_letter(text[at - 1]) {
        key_cursor(text, at - 1) + 1
    } else {
        key_cursor(text, at - 1)
    }
}

/// The letter of the key stream after `used` letters: the key is repeated
/// without end.
pub open spec fn stream_letter(key: Seq<char>, used: int) -> char {
    key[used % (key.len() as int)]
}

/// The key letter that applies at position `at` of a text: the key is
/// repeated along the letters of the text.
pub open spec fn key_letter(text: Seq<char>, key: Seq<char>, at: int) -> char {
    stream_letter(key, key_cursor(text, at) as int)
}

/// The place of the plaintext letter, from the places of the ciphertext
/// letter and of the key letter.
pub open spec fn unshifted(cipher_index: int, key_index: int) -> int {
    (cipher_index - key_index + 26) % 26
}

/// The place of the ciphertext letter, from the places of the plaintext
/// letter and of the key letter.
pub open spec fn shifted(plain_index: int, key_index: int) -> int {
    (plain_index + key_index) % 26
}

/// The character that decryption puts at position `at`: a letter becomes
/// the lowercase letter that the key letter shifts onto it; any other
/// character stays.
pub open spec fn decrypted_char(text: Seq<char>, key: Seq<char>, at: int) -> char {
    if is_letter(text[at]) {
        letter_at(unshifted(letter_index(text[at]), letter_index(key_letter(text, key, at))))
    } else {
        text[at]
    }
}

/// The decryption of a text under a key.
pub open spec fn decrypted(text: Seq<char>, key: Seq<char>) -> Seq<char> {
    Seq::new(text.len(), |at: int| decrypted_char(text, key, at))
}

/// `cipher` is an encryption of `plain` under `key`: the two have the same
/// length; where `plain` has a letter, `cipher` has the letter, in either
/// case, that the key letter shifts it to; every other character is the
/// same in both.
pub open spec fn is_encryption_of(cipher: Seq<char>, plain: Seq<char>, key: Seq<char>) -> bool {
    &&& cipher.len() == plain.len()
    &&& forall|at: int|
        0 <= at < plain.len() ==> if is_letter(#[trigger] plain[at]) {
            &&& is_letter(cipher[at])
            &&& letter_index(cipher[at]) == shifted(
                letter_index(plain[at]),
                letter_index(key_letter(plain, key, at)),
            )
        } else {
            cipher[at] == plain[at]
        }
}

/// The successor modulo `n`.
proof fn lemma_mod_successor(x: nat, n: nat)
    requires
        n > 0,
    ensures
        (x + 1) % n == if x % n + 1 == n {
            0
        } else {
            x % n + 1
        },
{
    let q = x as int / n as int;
    let r = x as int % n as int;
    lemma_fundamental_div_mod(x as int, n as int);
    if r + 1 == n {
        assert(n * (q + 1) == n * q + n) by (nonlinear_arith);
        lemma_fundamental_div_mod_converse(x as int + 1, n as int, q + 1, 0);
    } else {
        lemma_fundamental_div_mod_converse(x as int + 1, n as int, q, r + 1);
    }
}

/// Decrypts a ciphertext under a key. The key is repeated along the letters
/// of the text: a character that is no letter is copied as it is and uses
/// up no key letter. Letters come out in lowercase.
pub fn vigenere_decrypt(ciphertext: &String, key: &String) -> (plaintext: String)
    requires
        is_key(key@),
    ensures
        plaintext@ == decrypted(ciphertext@, key@),
        plaintext@.len() == ciphertext@.len(),
        forall|at: int|
            0 <= at < ciphertext@.len() ==> #[trigger] plaintext@[at] == if is_letter(
                ciphertext@[at],
            ) {
                letter_at(
                    unshifted(
                        letter_index(ciphertext@[at]),
                        letter_index(key_letter(ciphertext@, key@, at)),
                    ),
                )
            } else {
                ciphertext@[at]
            },
{
    let text = to_chars(ciphertext);
    let key_chars = to_chars(key);
    let mut plaintext = String::new();
    let mut cursor: usize = 0;
    let mut i: usize = 0;
    proof {
        lemma_small_mod(0, key_chars@.len());
    }
    while i < text.len()
        invariant
            i <= text.len(),
            is_key(key_chars@),
            cursor < key_chars.len(),
            cursor == key_cursor(text@, i as int) % key_chars@.len(),
            plaintext@ == decrypted(text@, key_chars@).take(i as int),
        decreases text.len() - i,
    {
        let c = text[i];
        proof {
            assert(decrypted(text@, key_chars@).take(i + 1) == decrypted(text@, key_chars@).take(
                i as int,
            ).push(decrypted_char(text@, key_chars@, i as int)));
            lemma_mod_successor(key_cursor(text@, i as int), key_chars@.len());
        }
        match alphabet_index(c) {
            Some(cipher_index) => {
                let key_index = lowercase_index(key_chars[cursor]).unwrap();
                let plain_index: u8 = (cipher_index + 26 - key_index) % 26;
                plaintext.push(letter(plain_index));
                cursor += 1;
                if cursor == key_chars.len() {
                    cursor = 0;
                }
            },
            None => {
                plaintext.push(c);
            },
        }
        i += 1;
    }
    proof {
        assert(decrypted(text@, key_chars@).take(i as int) == decrypted(text@, key_chars@));
    }
    plaintext
}

/// Decryption leaves every character that is not a letter in its place and
/// form, and puts a lowercase letter where a letter stood.
pub proof fn decryption_keeps_other_characters(text: Seq<char>, key: Seq<char>, at: int)
    requires
        is_key(key),
        0 <= at < text.len(),
    ensures
        decrypted(text, key).len() == text.len(),
        !is_letter(text[at]) ==> decrypted(text, key)[at] == text[at],
        is_letter(text[at]) ==> is_lowercase_letter(decrypted(text, key)[at]),
{
    if is_letter(text[at]) {
        let k = key_letter(text, key, at);
        assert(is_lowercase_letter(k)) by {
            lemma_key_letter(text, key, at);
        }
    }
}

/// The key letter at a position is a letter of the key.
proof fn lemma_key_letter(text: Seq<char>, key: Seq<char>, at: int)
    requires
        is_key(key),
    ensures
        is_lowercase_letter(key_letter(text, key, at)),
        0 <= letter_index(key_letter(text, key, at)) < 26,
{
    let n = key.len() as int;
    let x = key_cursor(text, at) as int;
    assert(0 <= x % n < n) by (nonlinear_arith)
        requires
            n > 0,
            x >= 0,
    ;
}

/// The number of key letters used up before a position is the number of
/// letters before it.
proof fn lemma_key_cursor_counts_letters(text: Seq<char>, at: int)
    requires
        0 <= at <= text.len(),
    ensures
        key_cursor(text, at) == letter_count(text.take(at)),
    decreases at,
{
    if at > 0 {
        lemma_key_cursor_counts_letters(text, at - 1);
        assert(text.take(at) == text.take(at - 1).push(text[at - 1]));
        text.take(at - 1).lemma_filter_push(text[at - 1], letters());
    } else {
        text.take(0).lemma_filter_len(letters());
    }
}

/// The key stream gives out one letter for each letter of the text, and
/// none for any other character: the number of key letters used up before a
/// position is the number of letters before it, and over the whole text it
/// is the number of letters in the text.
pub proof fn key_letters_used_equal_letters(text: Seq<char>, at: int)
    requires
        0 <= at <= text.len(),
    ensures
        key_cursor(text, at) == letter_count(text.take(at)),
        key_cursor(text, text.len() as int) == letter_count(text),
{
    lemma_key_cursor_counts_letters(text, at);
    lemma_key_cursor_counts_letters(text, text.len() as int);
    assert(text.take(text.len() as int) == text);
}

/// The key stream moves over a ciphertext as it moved over the plaintext.
proof fn lemma_same_cursor(cipher: Seq<char>, plain: Seq<char>, key: Seq<char>, at: int)
    requires
        is_encryption_of(cipher, plain, key),
        0 <= at <= plain.len(),
    ensures
        key_cursor(cipher, at) == key_cursor(plain, at),
    decreases at,
{
    if at > 0 {
        lemma_same_cursor(cipher, plain, key, at - 1);
        assert(is_letter(plain[at - 1]) <==> is_letter(cipher[at - 1]));
    }
}

/// Shifting back undoes shifting.
proof fn lemma_unshift_shift(plain_index: int, key_index: int)
    requires
        0 <= plain_index < 26,
        0 <= key_index < 26,
    ensures
        unshifted(shifted(plain_index, key_index), key_index) == plain_index,
{
}

/// Decryption undoes encryption: a ciphertext decrypted under the key that
/// it was encrypted with gives the plaintext again, its letters in
/// lowercase and every other character as it was.
pub proof fn decryption_inverts_encryption(cipher: Seq<char>, plain: Seq<char>, key: Seq<char>)
    requires
        is_key(key),
        is_encryption_of(cipher, plain, key),
    ensures
        decrypted(cipher, key) == ascii_lowercase(plain),
{
    let result = decrypted(cipher, key);
    let expected = ascii_lowercase(plain);
    assert forall|at: int| 0 <= at < plain.len() implies result[at] == expected[at] by {
        lemma_same_cursor(cipher, plain, key, at);
        lemma_key_letter(plain, key, at);
        if is_letter(plain[at]) {
            let p = letter_index(plain[at]);
            let k = letter_index(key_letter(plain, key, at));
            lemma_unshift_shift(p, k);
            assert(key_letter(cipher, key, at) == key_letter(plain, key, at));
            assert(result[at] == letter_at(p));
        }
    }
    assert(result =~= expected);
}

/// Two keys give the same key stream over the first `count` letters of a
/// text: the same key letter applies to each of them.
pub open spec fn same_key_stream(first: Seq<char>, second: Seq<char>, count: nat) -> bool {
    forall|used: int|
        0 <= used < count ==> #[trigger] stream_letter(first, used) == stream_letter(second, used)
}

/// The key stream never moves back.
proof fn lemma_key_cursor_grows(text: Seq<char>, from: int, to: int)
    requires
        0 <= from <= to,
    ensures
        key_cursor(text, from) <= key_cursor(text, to),
    decreases to,
{
    if from < to {
        lemma_key_cursor_grows(text, from, to - 1);
    }
}

/// Keys that give the same key stream over the letters of a text decrypt it
/// to the same plaintext.
pub proof fn same_key_stream_same_plaintext(text: Seq<char>, first: Seq<char>, second: Seq<char>)
    requires
        same_key_stream(first, second, letter_count(text)),
    ensures
        decrypted(text, first) == decrypted(text, second),
{
    let a = decrypted(text, first);
    let b = decrypted(text, second);
    assert forall|at: int| 0 <= at < text.len() implies a[at] == b[at] by {
        if is_letter(text[at]) {
            let used = key_cursor(text, at) as int;
            lemma_key_cursor_grows(text, at + 1, text.len() as int);
            key_letters_used_equal_letters(text, at);
            assert(key_cursor(text, at + 1) == used + 1);
            assert(0 <= used < letter_count(text));
            assert(stream_letter(first, used) == stream_letter(second, used));
        }
    }
    assert(a =~= b);
}

} // verus!
