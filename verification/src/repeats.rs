//! Kasiski examination: the sequences that stand more than twice in a
//! text, the gaps between their occurrences, and the key length that the
//! gaps point to.

use crate::divisors::{gcd, gcd_of};
use crate::error::CrackError;
use crate::repeat_lemmas::{lemma_gaps_of_occurrences, lemma_repeated_sequences};
use crate::text::{from_chars, to_chars};
use std::collections::HashMap;
use vstd::arithmetic::div_mod::lemma_fundamental_div_mod_converse;
use vstd::prelude::*;
use vstd::utf8::{char_is_scalar, char_u32_cast};

verus! {

/// The `width` characters of a text from position `at` on.
pub open spec fn window(text: Seq<char>, at: int, width: int) -> Seq<char> {
    text.subrange(at, at + width)
}

/// The pattern stands in the text at position `at`.
pub open spec fn occurs_at(text: Seq<char>, pattern: Seq<char>, at: int) -> bool {
    &&& 0 <= at
    &&& at + pattern.len() <= text.len()
    &&& window(text, at, pattern.len() as int) == pattern
}

/// The positions below `bound` at which the pattern stands in the text, in
/// ascending order.
pub open spec fn occurrences_below(text: Seq<char>, pattern: Seq<char>, bound: int) -> Seq<usize>
    decreases bound,
{
    if bound <= 0 {
        Seq::empty()
    } else if occurs_at(text, pattern, bound - 1) {
        occurrences_below(text, pattern, bound - 1).push((bound - 1) as usize)
    } else {
        occurrences_below(text, pattern, bound - 1)
    }
}

/// All the positions at which the pattern stands in the text, in ascending
/// order.
pub open spec fn occurrences(text: Seq<char>, pattern: Seq<char>) -> Seq<usize> {
    occurrences_below(text, pattern, text.len() - pattern.len() + 1)
}

/// The window at position `at` stands at no earlier position.
pub open spec fn is_first_occurrence(text: Seq<char>, at: int, width: int) -> bool {
    forall|earlier: int|
        0 <= earlier < at ==> #[trigger] window(text, earlier, width) != window(text, at, width)
}

/// The positions below `bound` whose window of `width` characters stands
/// there for the first time, in ascending order.
pub open spec fn first_occurrences_below(text: Seq<char>, width: int, bound: int) -> Seq<usize>
    decreases bound,
{
    if bound <= 0 {
        Seq::empty()
    } else if is_first_occurrence(text, bound - 1, width) {
        first_occurrences_below(text, width, bound - 1).push((bound - 1) as usize)
    } else {
        first_occurrences_below(text, width, bound - 1)
    }
}

/// Of the windows that start at the given positions, those that stand more
/// than twice in the text, each with all its positions; in the order of the
/// given positions.
pub open spec fn repeats_among(text: Seq<char>, width: int, starts: Seq<usize>) -> Seq<
    (Seq<char>, Seq<usize>),
>
    decreases starts.len(),
{
    if starts.len() == 0 {
        Seq::empty()
    } else {
        let earlier = repeats_among(text, width, starts.drop_last());
        let pattern = window(text, starts.last() as int, width);
        if occurrences(text, pattern).len() > 2 {
            earlier.push((pattern, occurrences(text, pattern)))
        } else {
            earlier
        }
    }
}

/// The sequences of `width` characters that stand more than twice in the
/// text, each once and with all its positions, in the order in which they
/// first stand in the text.
pub open spec fn repeats_of_width(text: Seq<char>, width: int) -> Seq<(Seq<char>, Seq<usize>)> {
    repeats_among(text, width, first_occurrences_below(text, width, text.len() - width + 1))
}

/// The sequences of three to six characters that stand more than twice in
/// the text, each with all its positions: the shorter before the longer,
/// and those of one length in the order in which they first stand.
pub open spec fn repeated_sequences(text: Seq<char>) -> Seq<(Seq<char>, Seq<usize>)> {
    repeats_of_width(text, 3) + repeats_of_width(text, 4) + repeats_of_width(text, 5)
        + repeats_of_width(text, 6)
}

/// Some sequence of three to six characters stands more than twice in the
/// text.
pub open spec fn has_repeated_sequence(text: Seq<char>) -> bool {
    exists|width: int, at: int|
        3 <= width <= 6 && 0 <= at && at + width <= text.len() && (#[trigger] occurrences(
            text,
            window(text, at, width),
        )).len() > 2
}

/// The entry is a sequence of three to six characters with all the
/// positions at which it stands in the text, of which there are more than
/// two.
pub open spec fn is_repeat(text: Seq<char>, entry: (Seq<char>, Seq<usize>)) -> bool {
    &&& 3 <= entry.0.len() <= 6
    &&& entry.1 == occurrences(text, entry.0)
    &&& entry.1.len() > 2
}

/// What a list of sequences with their numbers holds.
pub open spec fn entries_view(entries: Seq<(String, Vec<usize>)>) -> Seq<(Seq<char>, Seq<usize>)> {
    Seq::new(entries.len(), |k: int| (entries[k].0@, entries[k].1@))
}

/// The positions never go down.
pub open spec fn is_ascending(positions: Seq<usize>) -> bool {
    forall|i: int, j: int| 0 <= i <= j < positions.len() ==> positions[i] <= positions[j]
}

/// The differences between each position and the next.
pub open spec fn gaps_of(positions: Seq<usize>) -> Seq<usize> {
    Seq::new(
        if positions.len() > 0 {
            (positions.len() - 1) as nat
        } else {
            0
        },
        |i: int| (positions[i + 1] - positions[i]) as usize,
    )
}

/// Each sequence with the gaps between its positions in place of the
/// positions.
pub open spec fn differences_of(entries: Seq<(Seq<char>, Seq<usize>)>) -> Seq<
    (Seq<char>, Seq<usize>),
> {
    Seq::new(entries.len(), |k: int| (entries[k].0, gaps_of(entries[k].1)))
}

/// The gaps of all the sequences in one collection.
pub open spec fn all_gaps(differences: Seq<(Seq<char>, Seq<usize>)>) -> Seq<u64>
    decreases differences.len(),
{
    if differences.len() == 0 {
        Seq::empty()
    } else {
        all_gaps(differences.drop_last()) + Seq::new(
            differences.last().1.len(),
            |i: int| differences.last().1[i] as u64,
        )
    }
}

/// The key length that a collection of gaps points to in a text of
/// `text_length` characters: their greatest common divisor. There is none
/// without gaps, and none where the divisor is 0 or more than the length of
/// the text.
pub open spec fn key_length_of(gaps: Seq<u64>, text_length: int) -> Result<usize, CrackError> {
    if gaps.len() == 0 {
        Err(CrackError::NoRepeatsFound)
    } else if gcd_of(gaps) == 0 || gcd_of(gaps) > text_length {
        Err(CrackError::DegenerateKeyLength)
    } else {
        Ok(gcd_of(gaps) as usize)
    }
}

/// A window of up to six characters as one number: its characters are the
/// digits, the first the most significant.
spec fn key_of(pattern: Seq<char>) -> nat
    decreases pattern.len(),
{
    if pattern.len() == 0 {
        0
    } else {
        key_of(pattern.drop_last()) * 0x20_0000 + (pattern.last() as u32) as nat
    }
}

/// The number above those of all windows of `width` characters.
spec fn key_limit(width: nat) -> nat
    decreases width,
{
    if width == 0 {
        1
    } else {
        key_limit((width - 1) as nat) * 0x20_0000
    }
}

/// The number of the window at a position.
spec fn window_key(text: Seq<char>, at: int, width: int) -> u128 {
    key_of(window(text, at, width)) as u128
}

proof fn lemma_key_below_limit(pattern: Seq<char>)
    ensures
        key_of(pattern) < key_limit(pattern.len()),
    decreases pattern.len(),
{
    if pattern.len() > 0 {
        lemma_key_below_limit(pattern.drop_last());
        char_is_scalar(pattern.last());
        let k = key_of(pattern.drop_last());
        let l = key_limit((pattern.len() - 1) as nat);
        assert(k * 0x20_0000 + 0x20_0000 <= l * 0x20_0000) by (nonlinear_arith)
            requires
                k < l,
        ;
    }
}

proof fn lemma_key_limit(width: nat)
    requires
        width <= 6,
    ensures
        key_limit(width) <= 0x4000_0000_0000_0000_0000_0000_0000_0000,
{
    reveal_with_fuel(key_limit, 8);
}

/// Windows of one length with the same number are the same.
proof fn lemma_key_injective(a: Seq<char>, b: Seq<char>)
    requires
        a.len() == b.len(),
        key_of(a) == key_of(b),
    ensures
        a == b,
    decreases a.len(),
{
    if a.len() > 0 {
        let ka = key_of(a.drop_last()) as int;
        let kb = key_of(b.drop_last()) as int;
        let ca = a.last() as u32;
        let cb = b.last() as u32;
        char_is_scalar(a.last());
        char_is_scalar(b.last());
        lemma_fundamental_div_mod_converse(key_of(a) as int, 0x20_0000, ka, ca as int);
        lemma_fundamental_div_mod_converse(key_of(b) as int, 0x20_0000, kb, cb as int);
        lemma_key_injective(a.drop_last(), b.drop_last());
        char_u32_cast(a.last(), ca);
        char_u32_cast(b.last(), cb);
        assert(a =~= a.drop_last().push(a.last()));
        assert(b =~= b.drop_last().push(b.last()));
    } else {
        assert(a =~= b);
    }
}

/// Two windows of up to six characters have the same number exactly if
/// they are the same.
proof fn lemma_window_keys(text: Seq<char>, first: int, second: int, width: int)
    requires
        0 <= width <= 6,
        0 <= first,
        first + width <= text.len(),
        0 <= second,
        second + width <= text.len(),
    ensures
        window_key(text, first, width) == window_key(text, second, width) <==> window(
            text,
            first,
            width,
        ) == window(text, second, width),
{
    let a = window(text, first, width);
    let b = window(text, second, width);
    lemma_key_below_limit(a);
    lemma_key_below_limit(b);
    lemma_key_limit(width as nat);
    if key_of(a) == key_of(b) {
        lemma_key_injective(a, b);
    }
}

/// The number of the window of `width` characters at position `at`.
fn key_at(text: &Vec<char>, at: usize, width: usize) -> (key: u128)
    requires
        width <= 6,
        at + width <= text.len(),
    ensures
        key == window_key(text@, at as int, width as int),
{
    let mut key: u128 = 0;
    let mut taken: usize = 0;
    assert(window(text@, at as int, 0) =~= Seq::<char>::empty());
    while taken < width
        invariant
            taken <= width <= 6,
            at + width <= text.len(),
            key == key_of(window(text@, at as int, taken as int)),
        decreases width - taken,
    {
        proof {
            let longer = window(text@, at as int, taken + 1);
            assert(longer.drop_last() =~= window(text@, at as int, taken as int));
            lemma_key_below_limit(longer);
            lemma_key_limit((taken + 1) as nat);
        }
        key = key * 0x20_0000 + (text[at + taken] as u32 as u128);
        taken += 1;
    }
    proof {
        lemma_key_below_limit(window(text@, at as int, width as int));
        lemma_key_limit(width as nat);
    }
    key
}

/// A window that stands nowhere earlier has no occurrence below its own
/// position.
proof fn lemma_no_earlier_occurrence(text: Seq<char>, at: int, width: int, bound: int)
    requires
        0 <= width,
        0 <= at,
        at + width <= text.len(),
        bound <= at,
        is_first_occurrence(text, at, width),
    ensures
        occurrences_below(text, window(text, at, width), bound) == Seq::<usize>::empty(),
    decreases bound,
{
    if bound > 0 {
        lemma_no_earlier_occurrence(text, at, width, bound - 1);
        assert(window(text, bound - 1, width) != window(text, at, width));
    }
}

/// The state of the search after the first `at` positions: `starts` holds
/// the positions of first occurrence, `groups` the occurrences so far of the
/// window at each of them, and `index_of` leads from the number of each
/// window seen so far to its place in `starts`.
spec fn grouped(
    text: Seq<char>,
    width: int,
    at: int,
    starts: Seq<usize>,
    groups: Seq<Vec<usize>>,
    index_of: Map<u128, usize>,
) -> bool {
    &&& starts == first_occurrences_below(text, width, at)
    &&& groups.len() == starts.len()
    &&& forall|e: int| 0 <= e < starts.len() ==> (#[trigger] starts[e]) < at
    &&& forall|e: int|
        0 <= e < starts.len() ==> (#[trigger] groups[e])@ == occurrences_below(
            text,
            window(text, starts[e] as int, width),
            at,
        )
    &&& forall|k: u128| #[trigger]
        index_of.contains_key(k) ==> index_of[k] < starts.len() && window_key(
            text,
            starts[index_of[k] as int] as int,
            width,
        ) == k
    &&& forall|e: int|
        0 <= e < starts.len() ==> index_of.contains_key(
            #[trigger] window_key(text, starts[e] as int, width),
        ) && index_of[window_key(text, starts[e] as int, width)] == e
    &&& forall|p: int| 0 <= p < at ==> index_of.contains_key(#[trigger] window_key(text, p, width))
}

/// The search goes on past a window that was seen before.
proof fn lemma_group_known(
    text: Seq<char>,
    width: int,
    at: int,
    starts: Seq<usize>,
    before: Seq<Vec<usize>>,
    after: Seq<Vec<usize>>,
    index_of: Map<u128, usize>,
    e: int,
)
    requires
        0 < width <= 6,
        0 <= at,
        at + width <= text.len(),
        at <= usize::MAX,
        grouped(text, width, at, starts, before, index_of),
        index_of.contains_key(window_key(text, at, width)),
        e == index_of[window_key(text, at, width)],
        after.len() == before.len(),
        after[e]@ == before[e]@.push(at as usize),
        forall|j: int| 0 <= j < before.len() && j != e ==> after[j] == before[j],
    ensures
        grouped(text, width, at + 1, starts, after, index_of),
{
    let key = window_key(text, at, width);
    lemma_window_keys(text, starts[e] as int, at, width);
    assert(window(text, starts[e] as int, width) == window(text, at, width));
    assert(!is_first_occurrence(text, at, width));
    assert forall|j: int| 0 <= j < starts.len() implies (#[trigger] after[j])@
        == occurrences_below(text, window(text, starts[j] as int, width), at + 1) by {
        let pattern = window(text, starts[j] as int, width);
        assert(pattern.len() == width);
        lemma_window_keys(text, starts[j] as int, at, width);
        assert(before[j]@ == occurrences_below(text, pattern, at));
        if j == e {
            assert(occurs_at(text, pattern, at));
        } else {
            assert(window_key(text, starts[j] as int, width) != key);
            assert(!occurs_at(text, pattern, at));
        }
    }
    assert forall|p: int| 0 <= p < at + 1 implies index_of.contains_key(
        #[trigger] window_key(text, p, width),
    ) by {}
}

/// The search goes on past a window that was not seen before.
proof fn lemma_group_new(
    text: Seq<char>,
    width: int,
    at: int,
    starts: Seq<usize>,
    groups: Seq<Vec<usize>>,
    index_of: Map<u128, usize>,
    group: Vec<usize>,
)
    requires
        0 < width <= 6,
        0 <= at,
        at + width <= text.len(),
        at <= usize::MAX,
        grouped(text, width, at, starts, groups, index_of),
        !index_of.contains_key(window_key(text, at, width)),
        group@ == Seq::<usize>::empty().push(at as usize),
        starts.len() <= usize::MAX,
    ensures
        grouped(
            text,
            width,
            at + 1,
            starts.push(at as usize),
            groups.push(group),
            index_of.insert(window_key(text, at, width), starts.len() as usize),
        ),
{
    let key = window_key(text, at, width);
    let starts_after = starts.push(at as usize);
    let groups_after = groups.push(group);
    let index_after = index_of.insert(key, starts.len() as usize);
    assert(is_first_occurrence(text, at, width)) by {
        assert forall|earlier: int| 0 <= earlier < at implies #[trigger] window(
            text,
            earlier,
            width,
        ) != window(text, at, width) by {
            assert(index_of.contains_key(window_key(text, earlier, width)));
        }
    }
    lemma_no_earlier_occurrence(text, at, width, at);
    assert forall|j: int| 0 <= j < starts_after.len() implies (#[trigger] groups_after[j])@
        == occurrences_below(text, window(text, starts_after[j] as int, width), at + 1) by {
        let pattern = window(text, starts_after[j] as int, width);
        assert(pattern.len() == width);
        if j < starts.len() {
            assert(groups[j]@ == occurrences_below(text, pattern, at));
            assert(index_of.contains_key(window_key(text, starts[j] as int, width)));
            assert(!occurs_at(text, pattern, at));
        } else {
            assert(occurs_at(text, pattern, at));
        }
    }
    assert forall|k: u128| #[trigger] index_after.contains_key(k) implies index_after[k]
        < starts_after.len() && window_key(text, starts_after[index_after[k] as int] as int, width)
        == k by {
        if k != key {
            assert(index_of.contains_key(k));
        }
    }
    assert forall|j: int| 0 <= j < starts_after.len() implies index_after.contains_key(
        #[trigger] window_key(text, starts_after[j] as int, width),
    ) && index_after[window_key(text, starts_after[j] as int, width)] == j by {
        if j < starts.len() {
            assert(index_of.contains_key(window_key(text, starts[j] as int, width)));
        }
    }
    assert forall|p: int| 0 <= p < at + 1 implies index_after.contains_key(
        #[trigger] window_key(text, p, width),
    ) by {
        if p < at {
            assert(index_of.contains_key(window_key(text, p, width)));
        }
    }
}

/// A copy of a list of positions.
fn copy_of(positions: &Vec<usize>) -> (copy: Vec<usize>)
    ensures
        copy@ == positions@,
{
    let mut copy: Vec<usize> = Vec::new();
    let mut i: usize = 0;
    while i < positions.len()
        invariant
            i <= positions.len(),
            copy@ == positions@.take(i as int),
        decreases positions.len() - i,
    {
        copy.push(positions[i]);
        i += 1;
    }
    copy
}

/// Finds the sequences of `width` characters that stand more than twice in
/// the text.
fn find_repeats_of_width(text: &Vec<char>, width: usize) -> (found: Vec<(String, Vec<usize>)>)
    requires
        0 < width <= 6,
    ensures
        entries_view(found@) == repeats_of_width(text@, width as int),
{
    let mut found: Vec<(String, Vec<usize>)> = Vec::new();
    if text.len() < width {
        return found;
    }
    let count: usize = text.len() - width + 1;
    let mut index_of: HashMap<u128, usize> = HashMap::new();
    let mut starts: Vec<usize> = Vec::new();
    let mut groups: Vec<Vec<usize>> = Vec::new();
    let mut at: usize = 0;
    while at < count
        invariant
            0 < width <= 6,
            count == text.len() - width + 1,
            at <= count,
            grouped(text@, width as int, at as int, starts@, groups@, index_of@),
        decreases count - at,
    {
        let key = key_at(text, at, width);
        let ghost before = groups@;
        let known = match index_of.get(&key) {
            Some(e) => Some(*e),
            None => None,
        };
        match known {
            Some(e) => {
                groups[e].push(at);
                proof {
                    lemma_group_known(
                        text@,
                        width as int,
                        at as int,
                        starts@,
                        before,
                        groups@,
                        index_of@,
                        e as int,
                    );
                }
            },
            None => {
                let mut group: Vec<usize> = Vec::new();
                group.push(at);
                let place = starts.len();
                proof {
                    lemma_group_new(
                        text@,
                        width as int,
                        at as int,
                        starts@,
                        groups@,
                        index_of@,
                        group,
                    );
                }
                index_of.insert(key, place);
                starts.push(at);
                groups.push(group);
            },
        }
        at += 1;
    }
    let mut e: usize = 0;
    while e < starts.len()
        invariant
            0 < width <= 6,
            count == text.len() - width + 1,
            e <= starts.len(),
            grouped(text@, width as int, count as int, starts@, groups@, index_of@),
            entries_view(found@) == repeats_among(text@, width as int, starts@.take(e as int)),
        decreases starts.len() - e,
    {
        proof {
            assert(starts@.take(e + 1).drop_last() == starts@.take(e as int));
            assert(window(text@, starts[e as int] as int, width as int).len() == width);
        }
        if groups[e].len() > 2 {
            let sequence = from_chars(text, starts[e], starts[e] + width);
            let positions = copy_of(&groups[e]);
            let ghost sooner = found@;
            found.push((sequence, positions));
            proof {
                assert(entries_view(found@) == entries_view(sooner).push((sequence@, positions@)));
            }
        }
        e += 1;
    }
    proof {
        assert(starts@.take(e as int) == starts@);
    }
    found
}

/// Finds the sequences of three to six characters that stand more than
/// twice in the text. Each comes once, with the positions at which it
/// starts, counted in characters and in ascending order.
pub fn find_repeated_sequences(ciphertext: &String) -> (found: Vec<(String, Vec<usize>)>)
    ensures
        entries_view(found@) == repeated_sequences(ciphertext@),
        found.len() > 0 <==> has_repeated_sequence(ciphertext@),
        forall|k: int|
            0 <= k < found.len() ==> is_repeat(ciphertext@, (found[k].0@, (#[trigger] found[k]).1@))
                && is_ascending(found[k].1@),
{
    let text = to_chars(ciphertext);
    proof {
        assert(text@.len() == text.len());
        lemma_repeated_sequences(text@);
        assert forall|k: int| 0 <= k < repeated_sequences(text@).len() implies is_ascending(
            (#[trigger] repeated_sequences(text@)[k]).1,
        ) by {
            lemma_gaps_of_occurrences(text@, repeated_sequences(text@)[k].0);
        }
    }
    let mut found: Vec<(String, Vec<usize>)> = Vec::new();
    let mut width: usize = 3;
    while width <= 6
        invariant
            3 <= width <= 7,
            entries_view(found@) == if width == 3 {
                Seq::<(Seq<char>, Seq<usize>)>::empty()
            } else if width == 4 {
                repeats_of_width(text@, 3)
            } else if width == 5 {
                repeats_of_width(text@, 3) + repeats_of_width(text@, 4)
            } else if width == 6 {
                repeats_of_width(text@, 3) + repeats_of_width(text@, 4) + repeats_of_width(
                    text@,
                    5,
                )
            } else {
                repeated_sequences(text@)
            },
        decreases 7 - width,
    {
        let mut more = find_repeats_of_width(&text, width);
        let ghost sooner = found@;
        let ghost later = more@;
        found.append(&mut more);
        proof {
            assert(entries_view(found@) == entries_view(sooner) + entries_view(later));
        }
        width += 1;
    }
    proof {
        assert forall|k: int| 0 <= k < found.len() implies is_repeat(
            ciphertext@,
            (found[k].0@, (#[trigger] found[k]).1@),
        ) && is_ascending(found[k].1@) by {
            assert(entries_view(found@)[k] == repeated_sequences(text@)[k]);
        }
    }
    found
}

/// Turns the positions of each sequence into the gaps between them: a
/// sequence found at 1, 4 and 10 has the gaps 3 and 6.
pub fn find_differences(repeated_sequences: Vec<(String, Vec<usize>)>) -> (differences: Vec<
    (String, Vec<usize>),
>)
    requires
        forall|k: int|
            0 <= k < repeated_sequences.len() ==> is_ascending(
                (#[trigger] repeated_sequences[k]).1@,
            ),
    ensures
        entries_view(differences@) == differences_of(entries_view(repeated_sequences@)),
{
    let mut differences: Vec<(String, Vec<usize>)> = Vec::new();
    let mut k: usize = 0;
    while k < repeated_sequences.len()
        invariant
            k <= repeated_sequences.len(),
            forall|j: int|
                0 <= j < repeated_sequences.len() ==> is_ascending(
                    (#[trigger] repeated_sequences[j]).1@,
                ),
            entries_view(differences@) == differences_of(entries_view(repeated_sequences@)).take(
                k as int,
            ),
        decreases repeated_sequences.len() - k,
    {
        let sequence = repeated_sequences[k].0.clone();
        let gaps = gaps_between(&repeated_sequences[k].1);
        let ghost sooner = differences@;
        differences.push((sequence, gaps));
        proof {
            assert(entries_view(differences@) == entries_view(sooner).push((sequence@, gaps@)));
            assert(differences_of(entries_view(repeated_sequences@)).take(k + 1)
                == differences_of(entries_view(repeated_sequences@)).take(k as int).push(
                (sequence@, gaps@),
            ));
        }
        k += 1;
    }
    proof {
        assert(differences_of(entries_view(repeated_sequences@)).take(k as int) == differences_of(
            entries_view(repeated_sequences@),
        ));
    }
    differences
}

/// The gaps between the positions of one sequence.
fn gaps_between(positions: &Vec<usize>) -> (gaps: Vec<usize>)
    requires
        is_ascending(positions@),
    ensures
        gaps@ == gaps_of(positions@),
{
    let mut gaps: Vec<usize> = Vec::new();
    if positions.len() == 0 {
        assert(gaps@ =~= gaps_of(positions@));
        return gaps;
    }
    let mut i: usize = 1;
    while i < positions.len()
        invariant
            1 <= i <= positions.len(),
            is_ascending(positions@),
            gaps@ == gaps_of(positions@).take(i - 1),
        decreases positions.len() - i,
    {
        gaps.push(positions[i] - positions[i - 1]);
        proof {
            assert(gaps_of(positions@).take(i as int) == gaps_of(positions@).take(i - 1).push(
                (positions[i as int] - positions[i - 1]) as usize,
            ));
        }
        i += 1;
    }
    proof {
        assert(gaps_of(positions@).take(i - 1) == gaps_of(positions@));
    }
    gaps
}

/// Brings the gaps of all the sequences into one list.
fn collect_gaps(differences: &Vec<(String, Vec<usize>)>) -> (gaps: Vec<u64>)
    ensures
        gaps@ == all_gaps(entries_view(differences@)),
{
    let mut gaps: Vec<u64> = Vec::new();
    let mut k: usize = 0;
    while k < differences.len()
        invariant
            k <= differences.len(),
            gaps@ == all_gaps(entries_view(differences@).take(k as int)),
        decreases differences.len() - k,
    {
        let ghost sooner = gaps@;
        let ghost entries = entries_view(differences@);
        let these = &differences[k].1;
        let mut i: usize = 0;
        while i < these.len()
            invariant
                i <= these.len(),
                gaps@ == sooner + Seq::new(i as nat, |j: int| these@[j] as u64),
            decreases these.len() - i,
        {
            gaps.push(these[i] as u64);
            proof {
                assert(gaps@ == sooner + Seq::new((i + 1) as nat, |j: int| these@[j] as u64));
            }
            i += 1;
        }
        proof {
            assert(entries.take(k + 1).drop_last() == entries.take(k as int));
            assert(entries.take(k + 1).last() == entries[k as int]);
            assert(Seq::new(these@.len(), |j: int| these@[j] as u64) == Seq::new(
                entries[k as int].1.len(),
                |j: int| entries[k as int].1[j] as u64,
            ));
        }
        k += 1;
    }
    proof {
        assert(entries_view(differences@).take(k as int) == entries_view(differences@));
    }
    gaps
}

/// Estimates the key length from the gaps between repeated sequences in a
/// text of `text_length` characters: it is the greatest common divisor of
/// all the gaps.
pub fn estimate_key_length(differences: &Vec<(String, Vec<usize>)>, text_length: usize) -> (estimate:
    Result<usize, CrackError>)
    ensures
        estimate == key_length_of(all_gaps(entries_view(differences@)), text_length as int),
{
    let gaps = collect_gaps(differences);
    if gaps.len() == 0 {
        return Err(CrackError::NoRepeatsFound);
    }
    let divisor = gcd(gaps);
    if divisor == 0 || divisor > text_length as u64 {
        Err(CrackError::DegenerateKeyLength)
    } else {
        Ok(divisor as usize)
    }
}

} // verus!
