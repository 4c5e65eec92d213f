//! The cracking of a ciphertext, from the text alone to the plaintext.

use crate::cipher::{
    decrypted, decryption_inverts_encryption, is_encryption_of, is_key, letter_count,
    same_key_stream, same_key_stream_same_plaintext, vigenere_decrypt,
};
use crate::columns::{block_of, group_ciphertext_into_blocks};
use crate::error::CrackError;
use crate::frequency::{best_shift_of, recover_key};
use crate::repeat_lemmas::{lemma_all_gaps, lemma_key_length_in_range, lemma_repeated_sequences};
use crate::repeats::{
    all_gaps, differences_of, estimate_key_length, find_differences, find_repeated_sequences,
    has_repeated_sequence, key_length_of, repeated_sequences,
};
use crate::text::{ascii_lowercase, letter_at, sanitize_input, sanitized, to_chars};
use vstd::prelude::*;

verus! {

/// The key length that the repeated sequences of a normalised text point
/// to: the greatest common divisor of the gaps between their occurrences.
pub open spec fn estimated_key_length(normalized: Seq<char>) -> Result<usize, CrackError> {
    key_length_of(
        all_gaps(differences_of(repeated_sequences(normalized))),
        normalized.len() as int,
    )
}

/// The key of `key_length` letters that frequency analysis finds for a
/// normalised text: for each column the letter of its best shift.
pub open spec fn recovered_key(normalized: Seq<char>, key_length: int) -> Seq<char> {
    Seq::new(
        key_length as nat,
        |column: int| letter_at(best_shift_of(block_of(normalized, key_length, column))),
    )
}

/// What cracking a ciphertext gives, from the ciphertext as it is and its
/// normalised form: the ciphertext decrypted under the recovered key, or
/// the reason why no key could be found.
pub open spec fn crack_outcome(ciphertext: Seq<char>, normalized: Seq<char>) -> Result<
    Seq<char>,
    CrackError,
> {
    if normalized.len() < 3 {
        Err(CrackError::EmptyInput)
    } else {
        match estimated_key_length(normalized) {
            Ok(key_length) => Ok(decrypted(ciphertext, recovered_key(normalized, key_length as int))),
            Err(error) => Err(error),
        }
    }
}

/// The outcome of cracking, with the characters of the plaintext in place
/// of the string.
pub open spec fn outcome_view(outcome: Result<String, CrackError>) -> Result<
    Seq<char>,
    CrackError,
> {
    match outcome {
        Ok(plaintext) => Ok(plaintext@),
        Err(error) => Err(error),
    }
}

/// When cracking succeeds and why it fails. It succeeds exactly if some
/// sequence of three to six characters stands more than twice in the
/// normalised text. It fails for an empty input exactly if the normalised
/// text has fewer than three characters, and for want of repeats in every
/// other case. The gaps between repeats are at least 1 and less than the
/// length of the text, and so is their divisor: cracking never fails for a
/// degenerate key length.
pub proof fn cracking_succeeds_exactly_with_repeats(ciphertext: Seq<char>, normalized: Seq<char>)
    requires
        normalized.len() <= usize::MAX,
    ensures
        crack_outcome(ciphertext, normalized) is Ok <==> has_repeated_sequence(normalized),
        crack_outcome(ciphertext, normalized) == Err::<Seq<char>, CrackError>(
            CrackError::EmptyInput,
        ) <==> normalized.len() < 3,
        crack_outcome(ciphertext, normalized) == Err::<Seq<char>, CrackError>(
            CrackError::NoRepeatsFound,
        ) <==> normalized.len() >= 3 && !has_repeated_sequence(normalized),
        crack_outcome(ciphertext, normalized) != Err::<Seq<char>, CrackError>(
            CrackError::DegenerateKeyLength,
        ),
        estimated_key_length(normalized) matches Ok(key_length) ==> 1 <= key_length
            < normalized.len(),
{
    let repeated = repeated_sequences(normalized);
    let gaps = all_gaps(differences_of(repeated));
    lemma_repeated_sequences(normalized);
    lemma_all_gaps(normalized, repeated);
    if gaps.len() > 0 {
        lemma_key_length_in_range(gaps, normalized.len() as int);
    }
    if has_repeated_sequence(normalized) {
        assert(gaps.len() > 0);
        assert(1 <= gaps[0] < normalized.len());
    }
}

/// Cracking undoes encryption wherever it finds the key: if the ciphertext
/// is an encryption of a plaintext under a key, and the recovered key gives
/// the same key stream as that key over the letters of the text, then
/// cracking gives the plaintext, its letters in lowercase and every other
/// character as it was.
pub proof fn cracking_recovers_plaintext(
    ciphertext: Seq<char>,
    plaintext: Seq<char>,
    key: Seq<char>,
    normalized: Seq<char>,
)
    requires
        is_key(key),
        is_encryption_of(ciphertext, plaintext, key),
        normalized.len() >= 3,
        estimated_key_length(normalized) matches Ok(key_length) && same_key_stream(
            recovered_key(normalized, key_length as int),
            key,
            letter_count(ciphertext),
        ),
    ensures
        crack_outcome(ciphertext, normalized) == Ok::<Seq<char>, CrackError>(
            ascii_lowercase(plaintext),
        ),
{
    let key_length = estimated_key_length(normalized)->Ok_0;
    same_key_stream_same_plaintext(ciphertext, recovered_key(normalized, key_length as int), key);
    decryption_inverts_encryption(ciphertext, plaintext, key);
}

/// Cracks a ciphertext whose normalised form is given. The sequences that
/// stand more than twice in the normalised text give the key length, the
/// columns of the normalised text give the key letter by letter, and the
/// ciphertext as it is, with its punctuation, is decrypted under that key.
pub fn crack_normalized(ciphertext: &String, normalized: &String) -> (outcome: Result<
    String,
    CrackError,
>)
    ensures
        outcome_view(outcome) == crack_outcome(ciphertext@, normalized@),
        outcome is Ok <==> has_repeated_sequence(normalized@),
        outcome is Err ==> outcome->Err_0 == if normalized@.len() < 3 {
            CrackError::EmptyInput
        } else {
            CrackError::NoRepeatsFound
        },
{
    let text_length = to_chars(normalized).len();
    proof {
        cracking_succeeds_exactly_with_repeats(ciphertext@, normalized@);
    }
    if text_length < 3 {
        return Err(CrackError::EmptyInput);
    }
    let repeated = find_repeated_sequences(normalized);
    let differences = find_differences(repeated);
    let key_length = match estimate_key_length(&differences, text_length) {
        Ok(key_length) => key_length,
        Err(error) => {
            return Err(error);
        },
    };
    let blocks = group_ciphertext_into_blocks(normalized, key_length);
    let key = recover_key(&blocks);
    proof {
        assert(key@ =~= recovered_key(normalized@, key_length as int));
    }
    Ok(vigenere_decrypt(ciphertext, &key))
}

/// Cracks a ciphertext that a Vigenere cipher has encrypted under an
/// unknown key, and returns the plaintext. Letters come out in lowercase;
/// every other character stays where and as it was.
pub fn crack(ciphertext: String) -> (outcome: Result<String, CrackError>)
    ensures
        outcome_view(outcome) == crack_outcome(ciphertext@, sanitized(ciphertext@)),
        outcome is Ok <==> has_repeated_sequence(sanitized(ciphertext@)),
        outcome is Err ==> outcome->Err_0 == if sanitized(ciphertext@).len() < 3 {
            CrackError::EmptyInput
        } else {
            CrackError::NoRepeatsFound
        },
{
    let normalized = sanitize_input(&ciphertext);
    crack_normalized(&ciphertext, &normalized)
}

} // verus!
