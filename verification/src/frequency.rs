//! Frequency analysis: how often each letter stands in a block, how far
//! that is from English, and the shift that brings a block closest to it.
//!
//! Frequencies are kept exact. The frequency of a letter in a block is its
//! count over the length of the block, and the frequencies of English are
//! given in thousandths, so a difference of two frequencies is a whole
//! number over a thousand times the length of the block.

use crate::cipher::unshifted;
use crate::text::{
    is_lowercase_letter, letter, letter_at, letter_index, lowercase_index, to_chars,
};
use vstd::multiset::Multiset;
use vstd::prelude::*;

verus! {

/// The frequencies of the letters `a` to `z` in English text, in
/// thousandths.
pub const ENGLISH_FREQUENCIES: [u64; 26] = [
    82,
    15,
    28,
    43,
    127,
    22,
    20,
    61,
    70,
    2,
    8,
    40,
    24,
    67,
    75,
    19,
    1,
    60,
    63,
    91,
    28,
    10,
    24,
    2,
    19,
    1,
];

/// For each letter of the alphabet, how often it stands in the block.
/// Characters that are no lowercase letters are counted for no letter.
pub open spec fn letter_counts(block: Seq<char>) -> Seq<nat> {
    Seq::new(26, |index: int| block.to_multiset().count(letter_at(index)))
}

/// The same counts as natural numbers.
pub open spec fn as_naturals(counts: Seq<usize>) -> Seq<nat> {
    Seq::new(counts.len(), |index: int| counts[index] as nat)
}

/// The sum of the first `bound` counts.
pub open spec fn sum_below(counts: Seq<nat>, bound: int) -> nat
    decreases bound,
{
    if bound <= 0 {
        0
    } else {
        sum_below(counts, bound - 1) + counts[bound - 1]
    }
}

/// A lowercase letter shifted back by `shift` places of the alphabet; any
/// other character as it is.
pub open spec fn shifted_back_char(c: char, shift: int) -> char {
    if is_lowercase_letter(c) {
        letter_at(unshifted(letter_index(c), shift))
    } else {
        c
    }
}

/// The block with each lowercase letter shifted back by `shift` places.
pub open spec fn shifted_back(block: Seq<char>, shift: int) -> Seq<char> {
    Seq::new(block.len(), |at: int| shifted_back_char(block[at], shift))
}

/// The distance between the frequency `count / length` of a letter in a
/// block and its English frequency `expected / 1000`, times
/// `1000 * length`.
pub open spec fn deviation(count: int, length: int, expected: int) -> int {
    let difference = 1000 * count - expected * length;
    if difference < 0 {
        -difference
    } else {
        difference
    }
}

/// The deviations of the first `bound` letters, added up.
pub open spec fn score_below(counts: Seq<nat>, length: int, bound: int) -> int
    decreases bound,
{
    if bound <= 0 {
        0
    } else {
        score_below(counts, length, bound - 1) + deviation(
            counts[bound - 1] as int,
            length,
            ENGLISH_FREQUENCIES[bound - 1] as int,
        )
    }
}

/// The fitness score of a block of `length` characters with the given
/// letter counts: the sum over the alphabet of the distances between the
/// block's frequencies and the English ones, times `1000 * length`. The
/// lower, the closer to English.
pub open spec fn score(counts: Seq<nat>, length: int) -> int {
    score_below(counts, length, 26)
}

/// The fitness score of a block after shifting it back by `shift`.
pub open spec fn fitness(block: Seq<char>, shift: int) -> int {
    score(letter_counts(shifted_back(block, shift)), block.len() as int)
}

/// `shift` is the best shift for the block: none gives a lower score, and
/// each smaller shift gives a higher one.
pub open spec fn is_best_shift(block: Seq<char>, shift: int) -> bool {
    &&& 0 <= shift < 26
    &&& forall|other: int| 0 <= other < 26 ==> fitness(block, shift) <= #[trigger] fitness(block, other)
    &&& forall|other: int| 0 <= other < shift ==> fitness(block, shift) < #[trigger] fitness(block, other)
}

/// The best among the shifts below `bound`, tried in ascending order: a
/// later shift replaces an earlier one only with a strictly lower score.
pub open spec fn best_shift_below(block: Seq<char>, bound: int) -> int
    decreases bound,
{
    if bound <= 1 {
        0
    } else {
        let best = best_shift_below(block, bound - 1);
        if fitness(block, bound - 1) < fitness(block, best) {
            bound - 1
        } else {
            best
        }
    }
}

/// The best of the 26 shifts for a block.
pub open spec fn best_shift_of(block: Seq<char>) -> int {
    best_shift_below(block, 26)
}

/// Counts the letters of a block. Entry `i` of the result is the number of
/// times that letter `i` of the alphabet stands in the block; its frequency
/// is that number over the length of the block.
pub fn frequency_analysis(block: &String) -> (counts: [usize; 26])
    ensures
        as_naturals(counts@) == letter_counts(block@),
{
    let text = to_chars(block);
    let mut counts: [usize; 26] = [0;26];
    let mut at: usize = 0;
    assert(text@.take(0).to_multiset() =~= Multiset::<char>::empty()) by {
        text@.take(0).to_multiset_ensures();
    }
    while at < text.len()
        invariant
            at <= text.len(),
            forall|index: int|
                0 <= index < 26 ==> #[trigger] counts@[index] == text@.take(
                    at as int,
                ).to_multiset().count(letter_at(index)),
            forall|index: int| 0 <= index < 26 ==> #[trigger] counts@[index] <= at,
        decreases text.len() - at,
    {
        let c = text[at];
        proof {
            assert(text@.take(at + 1) == text@.take(at as int).push(c));
            text@.take(at as int).to_multiset_ensures();
        }
        match lowercase_index(c) {
            Some(index) => {
                let count: usize = counts[index as usize];
                counts[index as usize] = count + 1;
            },
            None => {},
        }
        at += 1;
    }
    proof {
        assert(text@.take(at as int) == text@);
        assert(as_naturals(counts@) =~= letter_counts(block@));
    }
    counts
}

/// Shifts each lowercase letter of a block back by `shift` places of the
/// alphabet, as a Caesar cipher is undone; other characters stay.
pub fn caesar_decrypt(block: &String, shift: u8) -> (candidate: String)
    requires
        shift < 26,
    ensures
        candidate@ == shifted_back(block@, shift as int),
{
    let text = to_chars(block);
    let mut candidate = String::new();
    let mut at: usize = 0;
    while at < text.len()
        invariant
            at <= text.len(),
            shift < 26,
            candidate@ == shifted_back(text@, shift as int).take(at as int),
        decreases text.len() - at,
    {
        let c = text[at];
        proof {
            assert(shifted_back(text@, shift as int).take(at + 1) == shifted_back(
                text@,
                shift as int,
            ).take(at as int).push(shifted_back_char(c, shift as int)));
        }
        match lowercase_index(c) {
            Some(index) => {
                let back: u8 = (index + 26 - shift) % 26;
                candidate.push(letter(back));
            },
            None => {
                candidate.push(c);
            },
        }
        at += 1;
    }
    proof {
        assert(shifted_back(text@, shift as int).take(at as int) == shifted_back(
            text@,
            shift as int,
        ));
    }
    candidate
}

/// The fitness score of a block of `length` characters with the given
/// letter counts.
pub fn fitness_score(counts: &[usize; 26], length: usize) -> (total: u128)
    ensures
        total == score(as_naturals(counts@), length as int),
{
    let mut total: u128 = 0;
    let mut index: usize = 0;
    while index < 26
        invariant
            index <= 26,
            total == score_below(as_naturals(counts@), length as int, index as int),
            total <= index * 0x1_0000_0000_0000_0000_0000,
        decreases 26 - index,
    {
        let expected_thousandths: u64 = ENGLISH_FREQUENCIES[index];
        assert(expected_thousandths <= 127);
        let count: usize = counts[index];
        assert(1000 * (count as u128) <= 0x1_0000_0000_0000_0000_000) by (nonlinear_arith)
            requires
                count <= 0xffff_ffff_ffff_ffff,
        ;
        assert((expected_thousandths as u128) * (length as u128) <= 0x1_0000_0000_0000_0000_000)
            by (nonlinear_arith)
            requires
                expected_thousandths <= 127,
                length <= 0xffff_ffff_ffff_ffff,
        ;
        let observed: u128 = 1000 * (count as u128);
        let expected: u128 = (expected_thousandths as u128) * (length as u128);
        let difference: u128 = if observed < expected {
            expected - observed
        } else {
            observed - expected
        };
        total = total + difference;
        index += 1;
    }
    total
}

/// The fitness score of a block after shifting it back by `shift`.
fn shift_score(block: &String, shift: u8, length: usize) -> (total: u128)
    requires
        shift < 26,
        length == block@.len(),
    ensures
        total == fitness(block@, shift as int),
{
    let candidate = caesar_decrypt(block, shift);
    let counts = frequency_analysis(&candidate);
    fitness_score(&counts, length)
}

/// Finds the shift that explains a block best: each of the 26 shifts is
/// undone in turn, and the one whose result is closest to English wins.
/// Among shifts with the same score the smallest wins.
pub fn best_shift(block: &String) -> (shift: u8)
    ensures
        shift == best_shift_of(block@),
        is_best_shift(block@, shift as int),
{
    let length = to_chars(block).len();
    let mut best: u8 = 0;
    let mut best_score: u128 = shift_score(block, 0, length);
    let mut shift: u8 = 1;
    while shift < 26
        invariant
            1 <= shift <= 26,
            length == block@.len(),
            best < shift,
            best == best_shift_below(block@, shift as int),
            best_score == fitness(block@, best as int),
            forall|other: int|
                0 <= other < shift ==> best_score <= #[trigger] fitness(block@, other),
            forall|other: int| 0 <= other < best ==> best_score < #[trigger] fitness(block@, other),
        decreases 26 - shift,
    {
        let total = shift_score(block, shift, length);
        if total < best_score {
            best = shift;
            best_score = total;
        }
        shift += 1;
    }
    best
}

/// The key letters of a text laid out in `blocks.len()` columns: for each
/// block the letter that stands for its best shift, `a` for 0 up to `z`
/// for 25.
pub fn recover_key(blocks: &Vec<String>) -> (key: String)
    ensures
        key@.len() == blocks.len(),
        forall|column: int|
            0 <= column < blocks.len() ==> #[trigger] key@[column] == letter_at(
                best_shift_of(blocks[column]@),
            ),
        forall|column: int| 0 <= column < blocks.len() ==> is_lowercase_letter(#[trigger] key@[column]),
{
    let mut key = String::new();
    let mut column: usize = 0;
    while column < blocks.len()
        invariant
            column <= blocks.len(),
            key@.len() == column,
            forall|j: int|
                0 <= j < column ==> #[trigger] key@[j] == letter_at(best_shift_of(blocks[j]@)),
            forall|j: int| 0 <= j < column ==> is_lowercase_letter(#[trigger] key@[j]),
        decreases blocks.len() - column,
    {
        let shift = best_shift(&blocks[column]);
        key.push(letter(shift));
        column += 1;
    }
    key
}

/// Adding one to one count adds one to the sum, if the count is among
/// those added up.
proof fn lemma_sum_below_grows(before: Seq<nat>, after: Seq<nat>, index: int, bound: int)
    requires
        0 <= bound <= before.len(),
        before.len() == after.len(),
        forall|j: int|
            0 <= j < bound ==> #[trigger] after[j] == before[j] + if j == index {
                1nat
            } else {
                0nat
            },
    ensures
        sum_below(after, bound) == sum_below(before, bound) + if 0 <= index < bound {
            1nat
        } else {
            0nat
        },
    decreases bound,
{
    if bound > 0 {
        lemma_sum_below_grows(before, after, index, bound - 1);
    }
}

/// The counts of a block of lowercase letters add up to its length. So the
/// frequencies of the 26 letters, each a count over the length, add up to
/// exactly one in any such block that is not empty.
pub proof fn counts_sum_to_length(block: Seq<char>)
    requires
        forall|at: int| 0 <= at < block.len() ==> is_lowercase_letter(#[trigger] block[at]),
    ensures
        sum_below(letter_counts(block), 26) == block.len(),
    decreases block.len(),
{
    if block.len() == 0 {
        block.to_multiset_ensures();
        assert(block.to_multiset() =~= Multiset::<char>::empty());
        lemma_sum_below_zero(letter_counts(block), 26);
    } else {
        let init = block.drop_last();
        let c = block.last();
        counts_sum_to_length(init);
        init.to_multiset_ensures();
        assert(init.push(c) == block);
        assert(is_lowercase_letter(block[block.len() - 1]));
        let index = letter_index(c);
        lemma_sum_below_grows(letter_counts(init), letter_counts(block), index, 26);
    }
}

/// Counts that are all zero add up to zero.
proof fn lemma_sum_below_zero(counts: Seq<nat>, bound: int)
    requires
        0 <= bound <= counts.len(),
        forall|j: int| 0 <= j < bound ==> #[trigger] counts[j] == 0,
    ensures
        sum_below(counts, bound) == 0,
    decreases bound,
{
    if bound > 0 {
        lemma_sum_below_zero(counts, bound - 1);
    }
}

/// The best of the 26 shifts is a best shift: no shift gives a lower score,
/// and each smaller shift gives a higher one.
pub proof fn best_shift_of_is_best(block: Seq<char>)
    ensures
        is_best_shift(block, best_shift_of(block)),
{
    lemma_best_shift_below(block, 26);
}

/// A block has one best shift only.
pub proof fn best_shift_is_unique(block: Seq<char>, shift: int)
    requires
        is_best_shift(block, shift),
    ensures
        shift == best_shift_of(block),
{
    best_shift_of_is_best(block);
    let best = best_shift_of(block);
    assert(fitness(block, shift) <= fitness(block, best));
    assert(fitness(block, best) <= fitness(block, shift));
}

/// The shift found among those below `bound` is the smallest of the best
/// among them.
proof fn lemma_best_shift_below(block: Seq<char>, bound: int)
    requires
        1 <= bound,
    ensures
        0 <= best_shift_below(block, bound) < bound,
        forall|other: int|
            0 <= other < bound ==> fitness(block, best_shift_below(block, bound))
                <= #[trigger] fitness(block, other),
        forall|other: int|
            0 <= other < best_shift_below(block, bound) ==> fitness(
                block,
                best_shift_below(block, bound),
            ) < #[trigger] fitness(block, other),
    decreases bound,
{
    if bound > 1 {
        lemma_best_shift_below(block, bound - 1);
    }
}

} // verus!
