//! What holds of the repeated sequences of a text and of their gaps.

use crate::divisors::{divides, gcd_of, lemma_gcd_of_is_gcd};
use crate::error::CrackError;
use crate::repeats::{
    all_gaps, differences_of, first_occurrences_below, gaps_of, has_repeated_sequence,
    is_ascending, is_first_occurrence, is_repeat, key_length_of, occurrences, occurrences_below,
    occurs_at, repeated_sequences, repeats_among, repeats_of_width, window,
};
use vstd::arithmetic::div_mod::lemma_mod_is_zero;
use vstd::prelude::*;

verus! {

/// The pattern is the window at one of the given positions.
pub open spec fn is_window_at_one_of(
    text: Seq<char>,
    width: int,
    starts: Seq<usize>,
    pattern: Seq<char>,
) -> bool {
    exists|e: int|
        0 <= e < starts.len() && pattern == window(text, (#[trigger] starts[e]) as int, width)
}

/// The occurrences below a bound are positions at which the pattern
/// stands, they go up strictly, and none is left out.
pub proof fn lemma_occurrences_below(text: Seq<char>, pattern: Seq<char>, bound: int)
    requires
        bound <= usize::MAX + 1,
    ensures
        forall|i: int|
            0 <= i < occurrences_below(text, pattern, bound).len() ==> occurs_at(
                text,
                pattern,
                (#[trigger] occurrences_below(text, pattern, bound)[i]) as int,
            ) && occurrences_below(text, pattern, bound)[i] < bound,
        forall|i: int, j: int|
            #![trigger occurrences_below(text, pattern, bound)[i], occurrences_below(text, pattern, bound)[j]]
            0 <= i < j < occurrences_below(text, pattern, bound).len() ==> occurrences_below(
                text,
                pattern,
                bound,
            )[i] < occurrences_below(text, pattern, bound)[j],
        forall|p: int|
            0 <= p < bound && #[trigger] occurs_at(text, pattern, p) ==> occurrences_below(
                text,
                pattern,
                bound,
            ).contains(p as usize),
    decreases bound,
{
    let found = occurrences_below(text, pattern, bound);
    if bound > 0 {
        let sooner = occurrences_below(text, pattern, bound - 1);
        lemma_occurrences_below(text, pattern, bound - 1);
        assert forall|p: int| 0 <= p < bound && #[trigger] occurs_at(
            text,
            pattern,
            p,
        ) implies found.contains(p as usize) by {
            if p < bound - 1 {
                assert(sooner.contains(p as usize));
                let i = choose|i: int| 0 <= i < sooner.len() && sooner[i] == p as usize;
                assert(found[i] == p as usize);
            } else {
                assert(found[found.len() - 1] == p as usize);
            }
        }
        assert forall|i: int| 0 <= i < found.len() implies occurs_at(
            text,
            pattern,
            (#[trigger] found[i]) as int,
        ) && found[i] < bound by {
            if i < sooner.len() {
                assert(found[i] == sooner[i]);
            }
        }
        assert forall|i: int, j: int|
            #![trigger found[i], found[j]]
            0 <= i < j < found.len() implies found[i] < found[j] by {
            assert(found[i] == sooner[i]);
            if j < sooner.len() {
                assert(found[j] == sooner[j]);
            }
        }
    }
}

/// The positions of first occurrence lie below the bound, and every window
/// below the bound stands first at one of them.
pub proof fn lemma_first_occurrences_below(text: Seq<char>, width: int, bound: int)
    requires
        bound <= usize::MAX + 1,
    ensures
        forall|e: int|
            0 <= e < first_occurrences_below(text, width, bound).len()
                ==> #[trigger] first_occurrences_below(text, width, bound)[e] < bound,
        forall|p: int|
            0 <= p < bound ==> is_window_at_one_of(
                text,
                width,
                first_occurrences_below(text, width, bound),
                #[trigger] window(text, p, width),
            ),
    decreases bound,
{
    let firsts = first_occurrences_below(text, width, bound);
    if bound > 0 {
        let sooner = first_occurrences_below(text, width, bound - 1);
        lemma_first_occurrences_below(text, width, bound - 1);
        assert forall|e: int| 0 <= e < firsts.len() implies #[trigger] firsts[e] < bound by {
            if e < sooner.len() {
                assert(firsts[e] == sooner[e]);
            }
        }
        assert forall|p: int| 0 <= p < bound implies is_window_at_one_of(
            text,
            width,
            firsts,
            #[trigger] window(text, p, width),
        ) by {
            let q = if p < bound - 1 {
                p
            } else if is_first_occurrence(text, p, width) {
                p
            } else {
                choose|earlier: int|
                    0 <= earlier < p && #[trigger] window(text, earlier, width) == window(
                        text,
                        p,
                        width,
                    )
            };
            if q == bound - 1 {
                let e = firsts.len() - 1;
                assert(window(text, firsts[e] as int, width) == window(text, p, width));
            } else {
                assert(is_window_at_one_of(text, width, sooner, window(text, q, width)));
                let e = choose|e: int|
                    0 <= e < sooner.len() && window(text, q, width) == window(
                        text,
                        (#[trigger] sooner[e]) as int,
                        width,
                    );
                assert(firsts[e] == sooner[e]);
                assert(window(text, firsts[e] as int, width) == window(text, p, width));
            }
        }
    }
}

/// Each of the repeats among some windows is one of the windows, with all
/// its positions, of which there are more than two; and each of the windows
/// that stands more than twice is among them.
pub proof fn lemma_repeats_among(text: Seq<char>, width: int, starts: Seq<usize>)
    ensures
        forall|k: int|
            0 <= k < repeats_among(text, width, starts).len() ==> is_window_at_one_of(
                text,
                width,
                starts,
                (#[trigger] repeats_among(text, width, starts)[k]).0,
            ),
        forall|k: int|
            0 <= k < repeats_among(text, width, starts).len() ==> (#[trigger] repeats_among(
                text,
                width,
                starts,
            )[k]).1 == occurrences(text, repeats_among(text, width, starts)[k].0)
                && repeats_among(text, width, starts)[k].1.len() > 2,
        forall|e: int|
            0 <= e < starts.len() && occurrences(
                text,
                window(text, (#[trigger] starts[e]) as int, width),
            ).len() > 2 ==> repeats_among(text, width, starts).len() > 0,
    decreases starts.len(),
{
    let found = repeats_among(text, width, starts);
    if starts.len() > 0 {
        let sooner = repeats_among(text, width, starts.drop_last());
        lemma_repeats_among(text, width, starts.drop_last());
        assert forall|k: int| 0 <= k < found.len() implies is_window_at_one_of(
            text,
            width,
            starts,
            (#[trigger] found[k]).0,
        ) by {
            if k < sooner.len() {
                assert(found[k] == sooner[k]);
                assert(is_window_at_one_of(text, width, starts.drop_last(), sooner[k].0));
                let e = choose|e: int|
                    0 <= e < starts.drop_last().len() && sooner[k].0 == window(
                        text,
                        (#[trigger] starts.drop_last()[e]) as int,
                        width,
                    );
                assert(starts[e] == starts.drop_last()[e]);
            } else {
                assert(found[k].0 == window(text, starts[starts.len() - 1] as int, width));
            }
        }
        assert forall|k: int| 0 <= k < found.len() implies (#[trigger] found[k]).1 == occurrences(
            text,
            found[k].0,
        ) && found[k].1.len() > 2 by {
            if k < sooner.len() {
                assert(found[k] == sooner[k]);
            }
        }
        assert forall|e: int|
            0 <= e < starts.len() && occurrences(
                text,
                window(text, (#[trigger] starts[e]) as int, width),
            ).len() > 2 implies found.len() > 0 by {
            if e < starts.len() - 1 {
                assert(starts.drop_last()[e] == starts[e]);
            }
        }
    }
}

/// The repeated sequences of one width are repeats, and there are some
/// exactly if a window of that width stands more than twice.
pub proof fn lemma_repeats_of_width(text: Seq<char>, width: int)
    requires
        3 <= width <= 6,
        text.len() <= usize::MAX,
    ensures
        forall|k: int|
            0 <= k < repeats_of_width(text, width).len() ==> is_repeat(
                text,
                #[trigger] repeats_of_width(text, width)[k],
            ),
        repeats_of_width(text, width).len() > 0 <==> exists|at: int|
            0 <= at && at + width <= text.len() && (#[trigger] occurrences(
                text,
                window(text, at, width),
            )).len() > 2,
{
    let bound = text.len() - width + 1;
    let starts = first_occurrences_below(text, width, bound);
    let found = repeats_of_width(text, width);
    lemma_first_occurrences_below(text, width, bound);
    lemma_repeats_among(text, width, starts);
    assert forall|k: int| 0 <= k < found.len() implies is_repeat(text, #[trigger] found[k]) by {
        assert(is_window_at_one_of(text, width, starts, found[k].0));
        let e = choose|e: int|
            0 <= e < starts.len() && found[k].0 == window(text, (#[trigger] starts[e]) as int, width);
        assert(starts[e] < bound);
    }
    if found.len() > 0 {
        assert(is_window_at_one_of(text, width, starts, found[0].0));
        let e = choose|e: int|
            0 <= e < starts.len() && found[0].0 == window(text, (#[trigger] starts[e]) as int, width);
        assert(starts[e] < bound);
        let at = starts[e] as int;
        assert(0 <= at && at + width <= text.len() && occurrences(
            text,
            window(text, at, width),
        ).len() > 2);
    }
    if exists|at: int|
        0 <= at && at + width <= text.len() && (#[trigger] occurrences(
            text,
            window(text, at, width),
        )).len() > 2 {
        let at = choose|at: int|
            0 <= at && at + width <= text.len() && (#[trigger] occurrences(
                text,
                window(text, at, width),
            )).len() > 2;
        assert(is_window_at_one_of(text, width, starts, window(text, at, width)));
        let e = choose|e: int|
            0 <= e < starts.len() && window(text, at, width) == window(
                text,
                (#[trigger] starts[e]) as int,
                width,
            );
        assert(found.len() > 0);
    }
}

/// The repeated sequences of a text are repeats, and there are some exactly
/// if the text has a repeated sequence.
pub proof fn lemma_repeated_sequences(text: Seq<char>)
    requires
        text.len() <= usize::MAX,
    ensures
        forall|k: int|
            0 <= k < repeated_sequences(text).len() ==> is_repeat(
                text,
                #[trigger] repeated_sequences(text)[k],
            ),
        repeated_sequences(text).len() > 0 <==> has_repeated_sequence(text),
{
    lemma_repeats_of_width(text, 3);
    lemma_repeats_of_width(text, 4);
    lemma_repeats_of_width(text, 5);
    lemma_repeats_of_width(text, 6);
    let r3 = repeats_of_width(text, 3);
    let r4 = repeats_of_width(text, 4);
    let r5 = repeats_of_width(text, 5);
    let r6 = repeats_of_width(text, 6);
    let all = repeated_sequences(text);
    assert forall|k: int| 0 <= k < all.len() implies is_repeat(text, #[trigger] all[k]) by {
        if k < r3.len() {
            assert(all[k] == r3[k]);
        } else if k < r3.len() + r4.len() {
            assert(all[k] == r4[k - r3.len()]);
        } else if k < r3.len() + r4.len() + r5.len() {
            assert(all[k] == r5[k - r3.len() - r4.len()]);
        } else {
            assert(all[k] == r6[k - r3.len() - r4.len() - r5.len()]);
        }
    }
    if has_repeated_sequence(text) {
        let (width, at) = choose|width: int, at: int|
            3 <= width <= 6 && 0 <= at && at + width <= text.len() && (#[trigger] occurrences(
                text,
                window(text, at, width),
            )).len() > 2;
        assert(repeats_of_width(text, width).len() > 0);
    }
}

/// The occurrences of a pattern that is not empty never go down, and the
/// gaps between them are at least 1 and less than the length of the text.
pub proof fn lemma_gaps_of_occurrences(text: Seq<char>, pattern: Seq<char>)
    requires
        text.len() <= usize::MAX,
        pattern.len() > 0,
    ensures
        is_ascending(occurrences(text, pattern)),
        forall|i: int|
            0 <= i < gaps_of(occurrences(text, pattern)).len() ==> 1 <= #[trigger] gaps_of(
                occurrences(text, pattern),
            )[i] < text.len(),
{
    let bound = text.len() - pattern.len() + 1;
    let found = occurrences(text, pattern);
    lemma_occurrences_below(text, pattern, bound);
    assert forall|i: int, j: int| 0 <= i <= j < found.len() implies found[i] <= found[j] by {
        if i < j {
            assert(found[i] < found[j]);
        }
    }
    assert forall|i: int| 0 <= i < gaps_of(found).len() implies 1 <= #[trigger] gaps_of(found)[i]
        < text.len() by {
        assert(found[i] < found[i + 1]);
        assert(found[i + 1] < bound);
    }
}

/// The gaps of repeats are at least 1 and less than the length of the text,
/// and there are gaps exactly if there are repeats.
pub proof fn lemma_all_gaps(text: Seq<char>, entries: Seq<(Seq<char>, Seq<usize>)>)
    requires
        text.len() <= usize::MAX,
        forall|k: int| 0 <= k < entries.len() ==> is_repeat(text, #[trigger] entries[k]),
    ensures
        forall|i: int|
            0 <= i < all_gaps(differences_of(entries)).len() ==> 1 <= #[trigger] all_gaps(
                differences_of(entries),
            )[i] < text.len(),
        all_gaps(differences_of(entries)).len() > 0 <==> entries.len() > 0,
    decreases entries.len(),
{
    if entries.len() > 0 {
        let differences = differences_of(entries);
        let last = entries.last();
        assert(is_repeat(text, entries[entries.len() - 1]));
        assert(differences.drop_last() == differences_of(entries.drop_last()));
        assert forall|k: int| 0 <= k < entries.drop_last().len() implies is_repeat(
            text,
            #[trigger] entries.drop_last()[k],
        ) by {
            assert(entries.drop_last()[k] == entries[k]);
        }
        lemma_all_gaps(text, entries.drop_last());
        lemma_gaps_of_occurrences(text, last.0);
        let sooner = all_gaps(differences.drop_last());
        let gaps = gaps_of(last.1);
        assert(differences.last().1 == gaps);
        let these = Seq::new(gaps.len(), |i: int| gaps[i] as u64);
        assert(all_gaps(differences) == sooner + these);
        assert forall|i: int| 0 <= i < all_gaps(differences).len() implies 1 <= #[trigger] all_gaps(
            differences,
        )[i] < text.len() by {
            if i >= sooner.len() {
                assert(all_gaps(differences)[i] == these[i - sooner.len()]);
                assert(1 <= gaps[i - sooner.len()] < text.len());
            }
        }
    }
}

/// Gaps that are at least 1 and less than the length of the text reduce to
/// a key length that is so too.
pub proof fn lemma_key_length_in_range(gaps: Seq<u64>, text_length: int)
    requires
        gaps.len() > 0,
        text_length <= usize::MAX,
        forall|i: int| 0 <= i < gaps.len() ==> 1 <= #[trigger] gaps[i] < text_length,
    ensures
        1 <= gcd_of(gaps) < text_length,
        key_length_of(gaps, text_length) == Ok::<usize, CrackError>(gcd_of(gaps) as usize),
{
    lemma_gcd_of_is_gcd(gaps);
    let g = gcd_of(gaps);
    assert(divides(g, gaps[0] as nat));
    if g > 0 {
        lemma_mod_is_zero(gaps[0] as nat, g);
    }
}

} // verus!
