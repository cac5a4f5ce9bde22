//! Normalizing a sequence or an alternation keeps what it matches.
use vstd::prelude::*;

use crate::hir::{flatten_alternation, flatten_sequence, is_normalized_alternation, is_normalized_sequence, Hir};
use crate::language::{
    alternation_matches, lemma_sequence_split_intro, matches_spec, sequence_matches, sequence_split_point,
};

verus! {

proof fn lemma_alternation_push(a: Seq<Hir>, x: Hir, input: Seq<u16>, origin: int, i: int, j: int)
    ensures
        alternation_matches(a.push(x), input, origin, i, j) == (alternation_matches(a, input, origin, i, j)
            || matches_spec(x, input, origin, i, j)),
{
    assert(a.push(x).drop_last() =~= a);
}

proof fn lemma_alternation_concat(a: Seq<Hir>, b: Seq<Hir>, input: Seq<u16>, origin: int, i: int, j: int)
    ensures
        alternation_matches(a + b, input, origin, i, j) == (alternation_matches(a, input, origin, i, j)
            || alternation_matches(b, input, origin, i, j)),
    decreases b.len(),
{
    if b.len() == 0 {
        assert(a + b =~= a);
    } else {
        lemma_alternation_concat(a, b.drop_last(), input, origin, i, j);
        assert(a + b =~= (a + b.drop_last()).push(b.last()));
        lemma_alternation_push(a + b.drop_last(), b.last(), input, origin, i, j);
        lemma_alternation_push(b.drop_last(), b.last(), input, origin, i, j);
        assert(b.drop_last().push(b.last()) =~= b);
    }
}

proof fn lemma_flatten_alternation_matches(s: Seq<Hir>, input: Seq<u16>, origin: int, i: int, j: int)
    ensures
        alternation_matches(flatten_alternation(s), input, origin, i, j) == alternation_matches(s, input, origin, i, j),
    decreases s.len(),
{
    if s.len() > 0 {
        let prefix = flatten_alternation(s.drop_last());
        lemma_flatten_alternation_matches(s.drop_last(), input, origin, i, j);
        assert(alternation_matches(s, input, origin, i, j) == (alternation_matches(s.drop_last(), input, origin, i, j)
            || matches_spec(s.last(), input, origin, i, j)));
        match s.last() {
            Hir::Never => {},
            Hir::Alternation(nested) => {
                lemma_alternation_concat(prefix, nested@, input, origin, i, j);
            },
            other => {
                lemma_alternation_push(prefix, other, input, origin, i, j);
            },
        }
    }
}

/// The normalized alternation of `branches` matches exactly what one of the
/// branches matches.
pub proof fn lemma_normalized_alternation_matches(
    branches: Seq<Hir>,
    h: Hir,
    input: Seq<u16>,
    origin: int,
    i: int,
    j: int,
)
    requires
        is_normalized_alternation(branches, h),
    ensures
        matches_spec(h, input, origin, i, j) == alternation_matches(branches, input, origin, i, j),
{
    let kept = flatten_alternation(branches);
    lemma_flatten_alternation_matches(branches, input, origin, i, j);
    if kept.len() == 0 {
        assert(h is Never);
    } else if kept.len() == 1 {
        assert(kept.drop_last() =~= Seq::<Hir>::empty());
        assert(kept.last() == kept[0]);
        assert(h == kept[0]);
        assert(!alternation_matches(Seq::<Hir>::empty(), input, origin, i, j));
        assert(alternation_matches(kept, input, origin, i, j) == (alternation_matches(kept.drop_last(), input, origin, i, j)
            || matches_spec(kept.last(), input, origin, i, j)));
    } else {
        assert(h matches Hir::Alternation(v) && v@ == kept);
    }
}

proof fn lemma_sequence_ordered(s: Seq<Hir>, input: Seq<u16>, origin: int, i: int, j: int)
    requires
        sequence_matches(s, input, origin, i, j),
    ensures
        i <= j,
{
    if s.len() > 0 {
        let m = sequence_split_point(s, input, origin, i, j, i);
    }
}

/// One more item: a split where the items before it end and it begins.
proof fn lemma_sequence_push(a: Seq<Hir>, x: Hir, input: Seq<u16>, origin: int, i: int, j: int, m: int)
    requires
        sequence_matches(a, input, origin, i, m),
        matches_spec(x, input, origin, m, j),
    ensures
        sequence_matches(a.push(x), input, origin, i, j),
{
    crate::repetition::lemma_match_ordered(x, input, origin, m, j);
    lemma_sequence_ordered(a, input, origin, i, m);
    assert(a.push(x).drop_last() =~= a);
    lemma_sequence_split_intro(a.push(x), input, origin, i, j, i, m);
}

proof fn sequence_push_point(a: Seq<Hir>, x: Hir, input: Seq<u16>, origin: int, i: int, j: int) -> (m: int)
    requires
        sequence_matches(a.push(x), input, origin, i, j),
    ensures
        sequence_matches(a, input, origin, i, m),
        matches_spec(x, input, origin, m, j),
{
    assert(a.push(x).drop_last() =~= a);
    sequence_split_point(a.push(x), input, origin, i, j, i)
}

proof fn lemma_sequence_concat_intro(a: Seq<Hir>, b: Seq<Hir>, input: Seq<u16>, origin: int, i: int, m: int, j: int)
    requires
        sequence_matches(a, input, origin, i, m),
        sequence_matches(b, input, origin, m, j),
    ensures
        sequence_matches(a + b, input, origin, i, j),
    decreases b.len(),
{
    if b.len() == 0 {
        assert(a + b =~= a);
    } else {
        assert(b.drop_last().push(b.last()) =~= b);
        let k = sequence_push_point(b.drop_last(), b.last(), input, origin, m, j);
        lemma_sequence_concat_intro(a, b.drop_last(), input, origin, i, m, k);
        lemma_sequence_push(a + b.drop_last(), b.last(), input, origin, i, j, k);
        assert((a + b.drop_last()).push(b.last()) =~= a + b);
    }
}

proof fn sequence_concat_point(a: Seq<Hir>, b: Seq<Hir>, input: Seq<u16>, origin: int, i: int, j: int) -> (m: int)
    requires
        sequence_matches(a + b, input, origin, i, j),
    ensures
        sequence_matches(a, input, origin, i, m),
        sequence_matches(b, input, origin, m, j),
    decreases b.len(),
{
    if b.len() == 0 {
        assert(a + b =~= a);
        j
    } else {
        assert((a + b.drop_last()).push(b.last()) =~= a + b);
        let k = sequence_push_point(a + b.drop_last(), b.last(), input, origin, i, j);
        let m = sequence_concat_point(a, b.drop_last(), input, origin, i, k);
        lemma_sequence_push(b.drop_last(), b.last(), input, origin, m, j, k);
        assert(b.drop_last().push(b.last()) =~= b);
        m
    }
}

proof fn lemma_flatten_sequence_matches(s: Seq<Hir>, input: Seq<u16>, origin: int, i: int, j: int)
    ensures
        match flatten_sequence(s) {
            Some(kept) => sequence_matches(kept, input, origin, i, j) == sequence_matches(s, input, origin, i, j),
            None => !sequence_matches(s, input, origin, i, j),
        },
    decreases s.len(),
{
    if s.len() > 0 {
        let front = s.drop_last();
        let last = s.last();
        assert(front.push(last) =~= s);
        if sequence_matches(s, input, origin, i, j) {
            let m = sequence_push_point(front, last, input, origin, i, j);
            lemma_flatten_sequence_matches(front, input, origin, i, m);
            match flatten_sequence(front) {
                Some(prefix) => match last {
                    Hir::Never => {},
                    Hir::Epsilon => {},
                    Hir::Sequence(nested) => {
                        lemma_sequence_concat_intro(prefix, nested@, input, origin, i, m, j);
                    },
                    other => {
                        lemma_sequence_push(prefix, other, input, origin, i, j, m);
                    },
                },
                None => {},
            }
        }
        match flatten_sequence(front) {
            Some(prefix) => match last {
                Hir::Never => {},
                Hir::Epsilon => {
                    if sequence_matches(prefix, input, origin, i, j) {
                        lemma_flatten_sequence_matches(front, input, origin, i, j);
                        assert(matches_spec(Hir::Epsilon, input, origin, j, j));
                        lemma_sequence_push(front, last, input, origin, i, j, j);
                    }
                },
                Hir::Sequence(nested) => {
                    if sequence_matches(prefix + nested@, input, origin, i, j) {
                        let m = sequence_concat_point(prefix, nested@, input, origin, i, j);
                        lemma_flatten_sequence_matches(front, input, origin, i, m);
                        assert(matches_spec(last, input, origin, m, j));
                        lemma_sequence_push(front, last, input, origin, i, j, m);
                    }
                },
                other => {
                    if sequence_matches(prefix.push(other), input, origin, i, j) {
                        let m = sequence_push_point(prefix, other, input, origin, i, j);
                        lemma_flatten_sequence_matches(front, input, origin, i, m);
                        lemma_sequence_push(front, last, input, origin, i, j, m);
                    }
                },
            },
            None => {},
        }
    }
}

/// The normalized sequence of `items` matches exactly what the items match
/// one after another.
pub proof fn lemma_normalized_sequence_matches(items: Seq<Hir>, h: Hir, input: Seq<u16>, origin: int, i: int, j: int)
    requires
        is_normalized_sequence(items, h),
    ensures
        matches_spec(h, input, origin, i, j) == sequence_matches(items, input, origin, i, j),
{
    lemma_flatten_sequence_matches(items, input, origin, i, j);
    if let Some(kept) = flatten_sequence(items) {
        if kept.len() == 1 {
            assert(kept =~= Seq::<Hir>::empty().push(kept[0]));
            if matches_spec(h, input, origin, i, j) {
                lemma_sequence_push(Seq::<Hir>::empty(), kept[0], input, origin, i, j, i);
            }
            if sequence_matches(kept, input, origin, i, j) {
                let m = sequence_push_point(Seq::<Hir>::empty(), kept[0], input, origin, i, j);
            }
        }
    }
}

} // verus!
