//! Cryptanalysis of the Vigenere cipher: recovery of the plaintext from a
//! ciphertext alone, by Kasiski examination and frequency analysis.

pub mod cipher;
pub mod columns;
pub mod divisors;
pub mod engine;
pub mod error;
pub mod frequency;
pub mod repeat_lemmas;
pub mod repeats;
pub mod text;
