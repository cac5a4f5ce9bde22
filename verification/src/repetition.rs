//! What a normalized repetition matches: back-to-back copies of its
//! expression, as many as its bounds allow.
use vstd::prelude::*;

use crate::hir::{is_normalized_repeat, Hir};
use crate::parser::{braced_bounds, digit_run_end, lemma_braced_bounds_written, quantifier_bounds, written_number};
use crate::language::{
    alternation_matches, matches_spec, repeat_between, repeat_count, repeat_matches, repeat_split,
    repeat_split_point, sequence_split_point,
};

verus! {

/// `k` back-to-back matches of `e` cover `input[i..j]`.
pub open spec fn copies_match(e: Hir, k: nat, input: Seq<u16>, origin: int, i: int, j: int) -> bool
    decreases k,
{
    if k == 0 {
        i == j
    } else {
        exists|m: int|
            copies_match(e, (k - 1) as nat, input, origin, i, m) && #[trigger] matches_spec(e, input, origin, m, j)
    }
}

/// `e{min,max}`: between `min` and `max` back-to-back matches of `e` cover
/// `input[i..j]`; with no `max`, any number from `min` on.
pub open spec fn counted_matches(
    e: Hir,
    min: u16,
    max: Option<u16>,
    input: Seq<u16>,
    origin: int,
    i: int,
    j: int,
) -> bool {
    exists|k: nat|
        min <= k && (max matches Some(high) ==> k <= high) && #[trigger] copies_match(e, k, input, origin, i, j)
}

/// A match never ends before it starts.
pub proof fn lemma_match_ordered(h: Hir, input: Seq<u16>, origin: int, i: int, j: int)
    requires
        matches_spec(h, input, origin, i, j),
    ensures
        i <= j,
    decreases h, 0nat, 3nat, 0int,
{
    match h {
        Hir::Sequence(v) => {
            if v@.len() > 0 {
                let m = sequence_split_point(v@, input, origin, i, j, i);
            }
        },
        Hir::Alternation(v) => {
            lemma_alternation_ordered(v@, input, origin, i, j);
        },
        Hir::Repeat { expression, min, max } => {
            let most = match max {
                Some(limit) => limit as int,
                None => min + (j - i),
            };
            let c = repeat_count(*expression, min as nat, most as nat, input, origin, i, j);
            if c > 0 {
                let m = repeat_split_point(*expression, c, input, origin, i, j, i);
            }
        },
        _ => {},
    }
}

proof fn lemma_alternation_ordered(s: Seq<Hir>, input: Seq<u16>, origin: int, i: int, j: int)
    requires
        alternation_matches(s, input, origin, i, j),
    ensures
        i <= j,
    decreases s, 0nat, 1nat, 0int,
{
    if alternation_matches(s.drop_last(), input, origin, i, j) {
        lemma_alternation_ordered(s.drop_last(), input, origin, i, j);
    } else {
        lemma_match_ordered(s.last(), input, origin, i, j);
    }
}

proof fn lemma_copies_ordered(e: Hir, k: nat, input: Seq<u16>, origin: int, i: int, j: int)
    requires
        copies_match(e, k, input, origin, i, j),
    ensures
        i <= j,
    decreases k,
{
    if k > 0 {
        let m = choose|m: int|
            copies_match(e, (k - 1) as nat, input, origin, i, m) && #[trigger] matches_spec(e, input, origin, m, j);
        lemma_copies_ordered(e, (k - 1) as nat, input, origin, i, m);
        lemma_match_ordered(e, input, origin, m, j);
    }
}

proof fn lemma_repeat_split_intro(e: Hir, n: nat, input: Seq<u16>, origin: int, i: int, j: int, k: int, m: int)
    requires
        n > 0,
        k <= m <= j,
        repeat_matches(e, (n - 1) as nat, input, origin, i, m),
        matches_spec(e, input, origin, m, j),
    ensures
        repeat_split(e, n, input, origin, i, j, k),
    decreases m - k,
{
    if k < m {
        lemma_repeat_split_intro(e, n, input, origin, i, j, k + 1, m);
    }
}

/// Counting copies one split at a time is counting them back to back.
proof fn lemma_repeat_copies(e: Hir, n: nat, input: Seq<u16>, origin: int, i: int, j: int)
    ensures
        repeat_matches(e, n, input, origin, i, j) == copies_match(e, n, input, origin, i, j),
    decreases n,
{
    if n > 0 {
        if repeat_matches(e, n, input, origin, i, j) {
            let m = repeat_split_point(e, n, input, origin, i, j, i);
            lemma_repeat_copies(e, (n - 1) as nat, input, origin, i, m);
            assert(matches_spec(e, input, origin, m, j));
        }
        if copies_match(e, n, input, origin, i, j) {
            let m = choose|m: int|
                copies_match(e, (n - 1) as nat, input, origin, i, m) && #[trigger] matches_spec(e, input, origin, m, j);
            lemma_repeat_copies(e, (n - 1) as nat, input, origin, i, m);
            lemma_copies_ordered(e, (n - 1) as nat, input, origin, i, m);
            lemma_match_ordered(e, input, origin, m, j);
            lemma_repeat_split_intro(e, n, input, origin, i, j, i, m);
        }
    }
}

proof fn lemma_repeat_between_intro(e: Hir, lo: nat, n: nat, c: nat, input: Seq<u16>, origin: int, i: int, j: int)
    requires
        lo <= c <= n,
        repeat_matches(e, c, input, origin, i, j),
    ensures
        repeat_between(e, lo, n, input, origin, i, j),
    decreases n - c,
{
    if c < n {
        lemma_repeat_between_intro(e, lo, (n - 1) as nat, c, input, origin, i, j);
    }
}

/// More copies than units to cover means one of them is empty, and it can
/// be dropped.
proof fn lemma_drop_empty_copy(e: Hir, k: nat, input: Seq<u16>, origin: int, i: int, j: int)
    requires
        k >= 1,
        k > j - i,
        copies_match(e, k, input, origin, i, j),
    ensures
        copies_match(e, (k - 1) as nat, input, origin, i, j),
    decreases k,
{
    let m = choose|m: int|
        copies_match(e, (k - 1) as nat, input, origin, i, m) && #[trigger] matches_spec(e, input, origin, m, j);
    lemma_copies_ordered(e, (k - 1) as nat, input, origin, i, m);
    lemma_match_ordered(e, input, origin, m, j);
    if m < j {
        if k == 1 {
            assert(i == m);
        } else {
            lemma_drop_empty_copy(e, (k - 1) as nat, input, origin, i, m);
            assert(copies_match(e, (k - 2) as nat, input, origin, i, m) && matches_spec(e, input, origin, m, j));
        }
    }
}

/// Any number of copies from `min` on can be brought to at most `min` plus
/// the covered length.
proof fn lemma_fewer_copies(e: Hir, min: nat, k: nat, input: Seq<u16>, origin: int, i: int, j: int) -> (c: nat)
    requires
        min <= k,
        i <= j,
        copies_match(e, k, input, origin, i, j),
    ensures
        min <= c <= min + (j - i),
        copies_match(e, c, input, origin, i, j),
    decreases k,
{
    if k <= min + (j - i) {
        k
    } else {
        lemma_drop_empty_copy(e, k, input, origin, i, j);
        lemma_fewer_copies(e, min, (k - 1) as nat, input, origin, i, j)
    }
}

proof fn lemma_epsilon_copies(k: nat, input: Seq<u16>, origin: int, i: int, j: int)
    ensures
        copies_match(Hir::Epsilon, k, input, origin, i, j) == (i == j),
    decreases k,
{
    if k > 0 {
        if copies_match(Hir::Epsilon, k, input, origin, i, j) {
            let m = choose|m: int|
                copies_match(Hir::Epsilon, (k - 1) as nat, input, origin, i, m) && #[trigger] matches_spec(
                    Hir::Epsilon,
                    input,
                    origin,
                    m,
                    j,
                );
            lemma_epsilon_copies((k - 1) as nat, input, origin, i, m);
        }
        if i == j {
            lemma_epsilon_copies((k - 1) as nat, input, origin, i, i);
            assert(matches_spec(Hir::Epsilon, input, origin, i, i));
        }
    }
}

/// The normalized repetition of `e{min,max}` matches `input[i..j]` exactly
/// when between `min` and `max` back-to-back matches of `e` cover it (any
/// number from `min` on when `max` is `None`). Bounds with `max` below `min`
/// are refused before normalization and are left out.
pub proof fn lemma_normalized_repeat_matches(
    e: Hir,
    min: u16,
    max: Option<u16>,
    h: Hir,
    input: Seq<u16>,
    origin: int,
    i: int,
    j: int,
)
    requires
        is_normalized_repeat(e, min, max, h),
        max matches Some(high) ==> min <= high,
    ensures
        matches_spec(h, input, origin, i, j) == counted_matches(e, min, max, input, origin, i, j),
{
    if max == Some(0u16) || e is Epsilon || (e is Never && min == 0) {
        assert(h is Epsilon);
        if counted_matches(e, min, max, input, origin, i, j) {
            let k = choose|k: nat|
                min <= k && (max matches Some(high) ==> k <= high) && #[trigger] copies_match(e, k, input, origin, i, j);
            if e is Epsilon {
                lemma_epsilon_copies(k, input, origin, i, j);
            } else if k > 0 {
                let m = choose|m: int|
                    copies_match(e, (k - 1) as nat, input, origin, i, m) && #[trigger] matches_spec(e, input, origin, m, j);
                assert(e is Never || max == Some(0u16));
            }
        }
        if i == j {
            if e is Epsilon {
                lemma_epsilon_copies(min as nat, input, origin, i, j);
                assert(copies_match(e, min as nat, input, origin, i, j));
            } else {
                assert(copies_match(e, 0, input, origin, i, j));
            }
        }
    } else if e is Never {
        assert(h is Never);
        if counted_matches(e, min, max, input, origin, i, j) {
            let k = choose|k: nat|
                min <= k && (max matches Some(high) ==> k <= high) && #[trigger] copies_match(e, k, input, origin, i, j);
            let m = choose|m: int|
                copies_match(e, (k - 1) as nat, input, origin, i, m) && #[trigger] matches_spec(e, input, origin, m, j);
        }
    } else if min == 1 && max == Some(1u16) {
        assert(h == e);
        if matches_spec(e, input, origin, i, j) {
            assert(copies_match(e, 0, input, origin, i, i));
            assert(copies_match(e, 1, input, origin, i, j));
        }
        if counted_matches(e, min, max, input, origin, i, j) {
            let k = choose|k: nat|
                min <= k && (max matches Some(high) ==> k <= high) && #[trigger] copies_match(e, k, input, origin, i, j);
            assert(k == 1);
            let m = choose|m: int|
                copies_match(e, 0, input, origin, i, m) && #[trigger] matches_spec(e, input, origin, m, j);
        }
    } else {
        let most: int = match max {
            Some(limit) => limit as int,
            None => min + (j - i),
        };
        if matches_spec(h, input, origin, i, j) {
            let c = repeat_count(e, min as nat, most as nat, input, origin, i, j);
            lemma_repeat_copies(e, c, input, origin, i, j);
            assert(copies_match(e, c, input, origin, i, j));
        }
        if counted_matches(e, min, max, input, origin, i, j) {
            let k = choose|k: nat|
                min <= k && (max matches Some(high) ==> k <= high) && #[trigger] copies_match(e, k, input, origin, i, j);
            lemma_copies_ordered(e, k, input, origin, i, j);
            let c: nat = match max {
                Some(_) => k,
                None => lemma_fewer_copies(e, min as nat, k, input, origin, i, j),
            };
            lemma_repeat_copies(e, c, input, origin, i, j);
            lemma_repeat_between_intro(e, min as nat, most as nat, c, input, origin, i, j);
        }
    }
}

/// A quantifier repeats the atom before it: `?` zero or one copy, `*` any
/// number of copies, `+` at least one.
pub proof fn lemma_quantifier_copies(
    units: Seq<u16>,
    q: int,
    e: Hir,
    h: Hir,
    input: Seq<u16>,
    origin: int,
    i: int,
    j: int,
)
    requires
        0 <= q < units.len(),
        units[q] == 0x3f || units[q] == 0x2a || units[q] == 0x2b,
        quantifier_bounds(units, q) matches Some((low, high, _)) && is_normalized_repeat(e, low, high, h),
    ensures
        units[q] == 0x3f ==> matches_spec(h, input, origin, i, j) == counted_matches(e, 0, Some(1u16), input, origin, i, j),
        units[q] == 0x2a ==> matches_spec(h, input, origin, i, j) == counted_matches(e, 0, None, input, origin, i, j),
        units[q] == 0x2b ==> matches_spec(h, input, origin, i, j) == counted_matches(e, 1, None, input, origin, i, j),
{
    let (low, high, _) = quantifier_bounds(units, q)->0;
    lemma_normalized_repeat_matches(e, low, high, h, input, origin, i, j);
}

/// A braced quantifier `{n}`, `{n,}` or `{n,m}` repeats the atom before it
/// as many times as its digits write: exactly `n`, at least `n`, or from `n`
/// to `m`.
pub proof fn lemma_braced_quantifier_copies(
    units: Seq<u16>,
    q: int,
    e: Hir,
    h: Hir,
    input: Seq<u16>,
    origin: int,
    i: int,
    j: int,
)
    requires
        0 <= q < units.len(),
        units[q] == 0x7b,
        quantifier_bounds(units, q) matches Some((low, high, _)) && is_normalized_repeat(e, low, high, h),
    ensures
        ({
            let low_end = digit_run_end(units, q + 1);
            let n = written_number(units, q + 1, low_end);
            let m = written_number(units, low_end + 1, digit_run_end(units, low_end + 1));
            &&& 0 <= n <= 1000
            &&& units[low_end] == 0x7d ==> matches_spec(h, input, origin, i, j) == counted_matches(
                e,
                n as u16,
                Some(n as u16),
                input,
                origin,
                i,
                j,
            )
            &&& (units[low_end] == 0x2c && units[low_end + 1] == 0x7d) ==> matches_spec(h, input, origin, i, j)
                == counted_matches(e, n as u16, None, input, origin, i, j)
            &&& (units[low_end] == 0x2c && units[low_end + 1] != 0x7d) ==> (n <= m <= 1000 && matches_spec(
                h,
                input,
                origin,
                i,
                j,
            ) == counted_matches(e, n as u16, Some(m as u16), input, origin, i, j))
        }),
{
    let (low, high, _) = quantifier_bounds(units, q)->0;
    lemma_braced_bounds_written(units, q);
    lemma_normalized_repeat_matches(e, low, high, h, input, origin, i, j);
}

} // verus!
