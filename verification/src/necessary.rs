//! What every match of an expression spells at its start.
//!
//! The literal filter admits a start only when a pattern's necessary prefix
//! could begin there. These lemmas show that the prefix is necessary: every
//! match of an expression begins with it, and an expression that spells one
//! string spells it (up to the cap) in every match.
use vstd::prelude::*;

use crate::cohort::{alternation_summary, repeat_summary, sequence_summary, summary_spec};
use crate::hir::{lemma_item_decreases, Hir};
use crate::language::{
    alternation_matches, matches_spec, repeat_between, repeat_count, repeat_matches,
    repeat_split_point, sequence_matches, sequence_split_point,
};
use crate::prefilter::{
    alternation_literal, alternation_prefix, cap, common_len, exact_literal_spec, lemma_common_len_bound,
    necessary_prefix_spec, repeat_capped, sequence_literal, sequence_prefix,
};

verus! {

/// `p` is spelled by the input from `i` on, within `input[i..j]`.
pub open spec fn text_prefix(p: Seq<u16>, input: Seq<u16>, i: int, j: int) -> bool {
    i + p.len() <= j && input.subrange(i, i + p.len()) == p
}

/// Capping a concatenation only needs the capped parts.
proof fn lemma_cap_concat(x: Seq<u16>, y: Seq<u16>)
    ensures
        cap(x + y) == cap(cap(x) + cap(y)),
{
    if x.len() >= 32 {
        assert(cap(x + y) =~= x.take(32));
        assert(cap(cap(x) + cap(y)) =~= x.take(32));
    } else if x.len() + y.len() <= 32 {
        assert(cap(y) == y);
    } else {
        assert(cap(x + y) =~= (x + y).take(32));
        assert((cap(x) + cap(y)).take(32) =~= (x + y).take(32)) by {
            assert forall|k: int| 0 <= k < 32 implies #[trigger] (cap(x) + cap(y)).take(32)[k] == (x + y).take(32)[k] by {
                if k >= x.len() {
                    assert(cap(y)[k - x.len()] == y[k - x.len()]);
                }
            }
        }
    }
}

/// The common part of two strings is a prefix of each.
proof fn lemma_common_len_agrees(a: Seq<u16>, b: Seq<u16>)
    ensures
        a.take(common_len(a, b) as int) == b.take(common_len(a, b) as int),
    decreases a.len(),
{
    lemma_common_len_bound(a, b);
    if !(a.len() == 0 || b.len() == 0 || a[0] != b[0]) {
        lemma_common_len_agrees(a.drop_first(), b.drop_first());
        let c = common_len(a, b) as int;
        assert forall|k: int| 0 <= k < c implies #[trigger] a.take(c)[k] == b.take(c)[k] by {
            if k > 0 {
                assert(a.drop_first().take(c - 1)[k - 1] == b.drop_first().take(c - 1)[k - 1]);
            }
        }
        assert(a.take(c) =~= b.take(c));
    } else {
        assert(a.take(0) =~= b.take(0));
    }
}

/// A string agrees with itself throughout.
proof fn lemma_common_len_self(a: Seq<u16>)
    ensures
        common_len(a, a) == a.len(),
    decreases a.len(),
{
    if a.len() > 0 {
        lemma_common_len_self(a.drop_first());
    }
}

/// Fewer copies spell a prefix of what more copies spell.
proof fn lemma_repeat_capped_grows(unit: Seq<u16>, n: nat, m: nat)
    requires
        n <= m,
    ensures
        repeat_capped(unit, n).len() <= repeat_capped(unit, m).len(),
        repeat_capped(unit, m).take(repeat_capped(unit, n).len() as int) == repeat_capped(unit, n),
    decreases m,
{
    if n == m {
        assert(repeat_capped(unit, m).take(repeat_capped(unit, n).len() as int) =~= repeat_capped(unit, n));
    } else {
        lemma_repeat_capped_grows(unit, n, (m - 1) as nat);
        let before = repeat_capped(unit, (m - 1) as nat);
        let small = repeat_capped(unit, n);
        let after = repeat_capped(unit, m);
        assert(after == cap(before + unit));
        assert forall|k: int| 0 <= k < small.len() implies #[trigger] after.take(small.len() as int)[k] == small[k] by {
            assert(before.take(small.len() as int)[k] == small[k]);
            assert((before + unit)[k] == before[k]);
        }
        assert(after.take(small.len() as int) =~= small);
    }
}

/// An expression that spells one string has that string as its necessary
/// prefix.
proof fn lemma_exact_is_prefix(h: Hir)
    requires
        exact_literal_spec(h) is Some,
    ensures
        necessary_prefix_spec(h) == exact_literal_spec(h)->0,
    decreases h, 0nat,
{
    match h {
        Hir::Sequence(v) => {
            lemma_exact_items_prefix(v@);
        },
        Hir::Alternation(v) => {
            lemma_exact_branches_prefix(v@, (v@.len() - 1) as nat);
        },
        Hir::Repeat { expression, min, max } => {
            if min > 0 {
            } else {
                assert(repeat_capped(exact_literal_spec(*expression)->0, 0) == Seq::<u16>::empty());
            }
        },
        _ => {},
    }
}

proof fn lemma_exact_items_prefix(items: Seq<Hir>)
    requires
        sequence_literal(items) is Some,
    ensures
        sequence_prefix(items) == (sequence_literal(items)->0, sequence_literal(items)->0.len() == 32),
    decreases items, 0nat,
{
    if items.len() > 0 {
        let rest = items.drop_last();
        let last = items.last();
        lemma_exact_items_prefix(rest);
        lemma_exact_is_prefix(last);
        let a = sequence_literal(rest)->0;
        let b = exact_literal_spec(last)->0;
        if a.len() == 32 {
            assert(cap(a + b) =~= a);
        }
    }
}

proof fn lemma_exact_branches_prefix(branches: Seq<Hir>, k: nat)
    requires
        alternation_literal(branches, k) is Some,
    ensures
        alternation_prefix(branches, k) == alternation_literal(branches, k)->0,
    decreases branches, k,
{
    if k == 0 {
        lemma_exact_is_prefix(branches[0]);
    } else {
        lemma_exact_branches_prefix(branches, (k - 1) as nat);
        lemma_exact_is_prefix(branches[k as int]);
        let l = alternation_literal(branches, k)->0;
        lemma_common_len_self(l);
        assert(l.take(l.len() as int) =~= l);
    }
}

/// A branch's necessary prefix extends the alternation's.
proof fn lemma_branch_prefix(branches: Seq<Hir>, k: nat, b: int)
    requires
        0 <= b <= k < branches.len(),
    ensures
        alternation_prefix(branches, k).len() <= necessary_prefix_spec(branches[b]).len(),
        necessary_prefix_spec(branches[b]).take(alternation_prefix(branches, k).len() as int) == alternation_prefix(
            branches,
            k,
        ),
    decreases k,
{
    let here = alternation_prefix(branches, k);
    if k == 0 {
        assert(necessary_prefix_spec(branches[b]).take(here.len() as int) =~= here);
    } else {
        let before = alternation_prefix(branches, (k - 1) as nat);
        let theirs = necessary_prefix_spec(branches[k as int]);
        let c = common_len(before, theirs) as int;
        lemma_common_len_bound(before, theirs);
        lemma_common_len_agrees(before, theirs);
        assert(here == before.take(c));
        if b == k {
            assert(theirs.take(c) =~= here);
        } else {
            lemma_branch_prefix(branches, (k - 1) as nat, b);
            let mine = necessary_prefix_spec(branches[b]);
            assert forall|x: int| 0 <= x < c implies #[trigger] mine.take(c)[x] == here[x] by {
                assert(mine.take(before.len() as int)[x] == before[x]);
            }
            assert(mine.take(c) =~= here);
        }
    }
}

/// An alternation that spells one string spells it in each branch.
proof fn lemma_branch_exact(branches: Seq<Hir>, k: nat, b: int)
    requires
        0 <= b <= k,
        alternation_literal(branches, k) is Some,
    ensures
        exact_literal_spec(branches[b]) == alternation_literal(branches, k),
    decreases k,
{
    if k > 0 && b < k {
        lemma_branch_exact(branches, (k - 1) as nat, b);
    }
}

/// The branch an alternation match goes through.
proof fn matching_branch(s: Seq<Hir>, input: Seq<u16>, origin: int, i: int, j: int) -> (b: int)
    requires
        alternation_matches(s, input, origin, i, j),
    ensures
        0 <= b < s.len(),
        matches_spec(s[b], input, origin, i, j),
    decreases s.len(),
{
    if matches_spec(s.last(), input, origin, i, j) {
        s.len() - 1
    } else {
        let b = matching_branch(s.drop_last(), input, origin, i, j);
        assert(s.drop_last()[b] == s[b]);
        b
    }
}

/// Every match of `h` begins with its necessary prefix, and spells (up to
/// the cap) the one string `h` spells, when there is one.
pub proof fn lemma_match_text(h: Hir, input: Seq<u16>, origin: int, i: int, j: int)
    requires
        0 <= i <= j <= input.len(),
        matches_spec(h, input, origin, i, j),
    ensures
        text_prefix(necessary_prefix_spec(h), input, i, j),
        exact_literal_spec(h) matches Some(l) ==> cap(input.subrange(i, j)) == l,
    decreases h, 0nat,
{
    assert(input.subrange(i, i) =~= Seq::<u16>::empty());
    match h {
        Hir::Epsilon => {},
        Hir::Symbol(c) => {
            assert(input.subrange(i, i + 1) =~= seq![c]);
        },
        Hir::Sequence(v) => {
            lemma_items_text(v@, input, origin, i, j);
        },
        Hir::Alternation(v) => {
            let b = matching_branch(v@, input, origin, i, j);
            lemma_item_decreases(h, v, b);
            lemma_match_text(v@[b], input, origin, i, j);
            let k = (v@.len() - 1) as nat;
            lemma_branch_prefix(v@, k, b);
            let p = alternation_prefix(v@, k);
            let mine = necessary_prefix_spec(v@[b]);
            assert(input.subrange(i, i + p.len()) =~= mine.take(p.len() as int)) by {
                assert forall|x: int| 0 <= x < p.len() implies #[trigger] input.subrange(i, i + p.len())[x] == mine[x] by {
                    assert(input.subrange(i, i + mine.len())[x] == mine[x]);
                }
            }
            if alternation_literal(v@, k) is Some {
                lemma_branch_exact(v@, k, b);
            }
        },
        Hir::Repeat { expression, min, max } => {
            let e = *expression;
            let most = match max {
                Some(limit) => limit as int,
                None => min + (j - i),
            };
            let c = repeat_count(e, min as nat, most as nat, input, origin, i, j);
            lemma_copies_text(e, c, input, origin, i, j);
            if min > 0 {
                if let Some(unit) = exact_literal_spec(e) {
                    lemma_repeat_capped_grows(unit, min as nat, c);
                    let short = repeat_capped(unit, min as nat);
                    let text = input.subrange(i, j);
                    assert(cap(text) == repeat_capped(unit, c));
                    assert(input.subrange(i, i + short.len()) =~= short) by {
                        assert forall|x: int| 0 <= x < short.len() implies #[trigger] input.subrange(i, i + short.len())[x] == short[x] by {
                            assert(repeat_capped(unit, c).take(short.len() as int)[x] == short[x]);
                            assert(cap(text)[x] == text[x]);
                        }
                    }
                }
            }
        },
        _ => {},
    }
}

/// Every match of the items of `items`, in order, begins with their
/// gathered prefix, and is exactly that prefix while gathering went on.
proof fn lemma_items_text(items: Seq<Hir>, input: Seq<u16>, origin: int, i: int, j: int)
    requires
        0 <= i <= j <= input.len(),
        sequence_matches(items, input, origin, i, j),
    ensures
        text_prefix(sequence_prefix(items).0, input, i, j),
        !sequence_prefix(items).1 ==> input.subrange(i, j) == sequence_prefix(items).0,
        sequence_literal(items) matches Some(l) ==> cap(input.subrange(i, j)) == l,
    decreases items, 0nat,
{
    if items.len() == 0 {
        assert(input.subrange(i, i) =~= Seq::<u16>::empty());
    } else {
        let rest = items.drop_last();
        let last = items.last();
        let m = sequence_split_point(items, input, origin, i, j, i);
        lemma_items_text(rest, input, origin, i, m);
        lemma_match_text(last, input, origin, m, j);
        let first_text = input.subrange(i, m);
        let last_text = input.subrange(m, j);
        assert(input.subrange(i, j) =~= first_text + last_text);
        let (before, stopped) = sequence_prefix(rest);
        if !stopped {
            let next = cap(before + necessary_prefix_spec(last));
            let p = necessary_prefix_spec(last);
            assert(before == first_text);
            assert(input.subrange(i, m + p.len()) =~= before + p) by {
                assert forall|x: int| 0 <= x < before.len() + p.len() implies #[trigger] input.subrange(i, m + p.len())[x] == (before + p)[x] by {
                    if x >= before.len() {
                        assert(input.subrange(m, m + p.len())[x - before.len()] == p[x - before.len()]);
                    } else {
                        assert(first_text[x] == before[x]);
                    }
                }
            }
            assert(input.subrange(i, i + next.len()) =~= next) by {
                assert forall|x: int| 0 <= x < next.len() implies #[trigger] input.subrange(i, i + next.len())[x] == next[x] by {
                    assert(input.subrange(i, m + p.len())[x] == (before + p)[x]);
                }
            }
            if !(exact_literal_spec(last) is None || next.len() == 32) {
                let l = exact_literal_spec(last)->0;
                lemma_exact_is_prefix(last);
                assert(p == l);
                assert(next.len() < 32);
                assert((before + p).len() < 32);
                assert(cap(last_text) == l);
                assert(last_text =~= l);
                assert(input.subrange(i, j) =~= next);
            }
        } else {
            assert(input.subrange(i, i + before.len()) =~= before) by {
                assert forall|x: int| 0 <= x < before.len() implies #[trigger] input.subrange(i, i + before.len())[x] == before[x] by {
                    assert(input.subrange(i, i + before.len())[x] == input[i + x]);
                }
            }
        }
        if let Some(l) = sequence_literal(items) {
            let a = sequence_literal(rest)->0;
            let b = exact_literal_spec(last)->0;
            lemma_cap_concat(first_text, last_text);
        }
    }
}

/// Every match of `n >= 1` copies of `e` begins with the necessary prefix of
/// `e`; when `e` spells one string, the copies spell it `n` times (capped).
proof fn lemma_copies_text(e: Hir, n: nat, input: Seq<u16>, origin: int, i: int, j: int)
    requires
        0 <= i <= j <= input.len(),
        repeat_matches(e, n, input, origin, i, j),
    ensures
        n >= 1 ==> text_prefix(necessary_prefix_spec(e), input, i, j),
        exact_literal_spec(e) matches Some(u) ==> cap(input.subrange(i, j)) == repeat_capped(u, n),
    decreases e, n + 1,
{
    if n == 0 {
        assert(input.subrange(i, i) =~= Seq::<u16>::empty());
    } else {
        let m = repeat_split_point(e, n, input, origin, i, j, i);
        lemma_copies_text(e, (n - 1) as nat, input, origin, i, m);
        lemma_match_text(e, input, origin, m, j);
        let first_text = input.subrange(i, m);
        let last_text = input.subrange(m, j);
        assert(input.subrange(i, j) =~= first_text + last_text);
        let p = necessary_prefix_spec(e);
        if n == 1 {
            assert(i == m);
        } else {
            assert(input.subrange(i, i + p.len()) =~= p) by {
                assert forall|x: int| 0 <= x < p.len() implies #[trigger] input.subrange(i, i + p.len())[x] == p[x] by {
                    assert(input.subrange(i, i + p.len())[x] == input[i + x]);
                }
            }
        }
        if let Some(u) = exact_literal_spec(e) {
            lemma_cap_concat(first_text, last_text);
            assert(cap(u) == u);
        }
    }
}

/// `n` copies of `u`, one after another.
pub open spec fn copies_of(u: Seq<u16>, n: nat) -> Seq<u16>
    decreases n,
{
    if n == 0 {
        seq![]
    } else {
        copies_of(u, (n - 1) as nat) + u
    }
}

/// Fewer copies spell a prefix of more copies.
proof fn lemma_copies_prefix(u: Seq<u16>, n: nat, m: nat)
    requires
        n <= m,
    ensures
        copies_of(u, n).len() <= copies_of(u, m).len(),
        copies_of(u, m).take(copies_of(u, n).len() as int) == copies_of(u, n),
    decreases m,
{
    if n == m {
        assert(copies_of(u, m).take(copies_of(u, n).len() as int) =~= copies_of(u, n));
    } else {
        lemma_copies_prefix(u, n, (m - 1) as nat);
        let shorter = copies_of(u, (m - 1) as nat);
        let small = copies_of(u, n);
        assert forall|k: int| 0 <= k < small.len() implies #[trigger] copies_of(u, m).take(small.len() as int)[k] == small[k] by {
            assert(shorter.take(small.len() as int)[k] == small[k]);
            assert(copies_of(u, m)[k] == shorter[k]);
        }
        assert(copies_of(u, m).take(small.len() as int) =~= small);
    }
}

/// The gathered copies are a prefix of the copies themselves, and all of
/// them while gathering went on.
proof fn lemma_repeat_summary_copies(u: Seq<u16>, min: nat, r: nat)
    ensures
        repeat_summary(u, min, r).0.len() <= copies_of(u, r).len(),
        copies_of(u, r).take(repeat_summary(u, min, r).0.len() as int) == repeat_summary(u, min, r).0,
        !repeat_summary(u, min, r).1 ==> repeat_summary(u, min, r).0 == copies_of(u, r),
    decreases r,
{
    if r == 0 {
        assert(copies_of(u, 0).take(0) =~= Seq::<u16>::empty());
    } else {
        lemma_repeat_summary_copies(u, min, (r - 1) as nat);
        let (units, stopped) = repeat_summary(u, min, (r - 1) as nat);
        let before = copies_of(u, (r - 1) as nat);
        let here = repeat_summary(u, min, r).0;
        assert forall|k: int| 0 <= k < here.len() implies #[trigger] copies_of(u, r).take(here.len() as int)[k] == here[k] by {
            if stopped {
                assert(before.take(units.len() as int)[k] == units[k]);
                assert(copies_of(u, r)[k] == before[k]);
            } else {
                assert(units == before);
                assert(here == cap(units + u));
            }
        }
        assert(copies_of(u, r).take(here.len() as int) =~= here);
        if !repeat_summary(u, min, r).1 {
            assert(!stopped);
            assert(here =~= copies_of(u, r));
        }
    }
}

/// `p` is spelled from `i` on whenever a longer string that begins with it
/// is.
pub proof fn lemma_text_prefix_shorter(p: Seq<u16>, q: Seq<u16>, input: Seq<u16>, i: int, j: int)
    requires
        0 <= i <= j <= input.len(),
        text_prefix(q, input, i, j),
        p.len() <= q.len(),
        q.take(p.len() as int) == p,
    ensures
        text_prefix(p, input, i, j),
{
    assert(input.subrange(i, i + p.len()) =~= p) by {
        assert forall|x: int| 0 <= x < p.len() implies #[trigger] input.subrange(i, i + p.len())[x] == p[x] by {
            assert(input.subrange(i, i + q.len())[x] == q[x]);
            assert(q.take(p.len() as int)[x] == p[x]);
        }
    }
}

/// A branch's summary extends the alternation's, and an exact alternation
/// summary is every branch's whole summary.
proof fn lemma_branch_summary(branches: Seq<Hir>, k: nat, b: int)
    requires
        0 <= b <= k < branches.len(),
    ensures
        alternation_summary(branches, k).0.len() <= summary_spec(branches[b]).0.len(),
        summary_spec(branches[b]).0.take(alternation_summary(branches, k).0.len() as int) == alternation_summary(
            branches,
            k,
        ).0,
        alternation_summary(branches, k).1 ==> summary_spec(branches[b]) == (alternation_summary(branches, k).0, true),
    decreases k,
{
    let here = alternation_summary(branches, k).0;
    if k == 0 {
        assert(summary_spec(branches[b]).0.take(here.len() as int) =~= here);
    } else {
        let (before, exact) = alternation_summary(branches, (k - 1) as nat);
        let theirs = summary_spec(branches[k as int]);
        let c = common_len(before, theirs.0) as int;
        lemma_common_len_bound(before, theirs.0);
        lemma_common_len_agrees(before, theirs.0);
        assert(here == before.take(c));
        if alternation_summary(branches, k).1 {
            lemma_common_len_self(before);
            assert(before.take(before.len() as int) =~= before);
        }
        if b == k {
            assert(theirs.0.take(c) =~= here);
        } else {
            lemma_branch_summary(branches, (k - 1) as nat, b);
            let mine = summary_spec(branches[b]).0;
            assert forall|x: int| 0 <= x < c implies #[trigger] mine.take(c)[x] == here[x] by {
                assert(mine.take(before.len() as int)[x] == before[x]);
            }
            assert(mine.take(c) =~= here);
        }
    }
}

/// Every match of `h` begins with its summary's units, and is exactly them
/// when the summary is exact.
pub proof fn lemma_summary_text(h: Hir, input: Seq<u16>, origin: int, i: int, j: int)
    requires
        0 <= i <= j <= input.len(),
        matches_spec(h, input, origin, i, j),
    ensures
        text_prefix(summary_spec(h).0, input, i, j),
        summary_spec(h).1 ==> input.subrange(i, j) == summary_spec(h).0,
    decreases h, 0nat,
{
    assert(input.subrange(i, i) =~= Seq::<u16>::empty());
    match h {
        Hir::Symbol(c) => {
            assert(input.subrange(i, i + 1) =~= seq![c]);
        },
        Hir::Sequence(v) => {
            assert(v@.take(v@.len() as int) =~= v@);
            lemma_summary_items(v@, v@.len(), input, origin, i, j);
        },
        Hir::Alternation(v) => {
            let b = matching_branch(v@, input, origin, i, j);
            lemma_item_decreases(h, v, b);
            lemma_summary_text(v@[b], input, origin, i, j);
            let k = (v@.len() - 1) as nat;
            lemma_branch_summary(v@, k, b);
            lemma_text_prefix_shorter(alternation_summary(v@, k).0, summary_spec(v@[b]).0, input, i, j);
        },
        Hir::Repeat { expression, min, max } => {
            let e = *expression;
            let most = match max {
                Some(limit) => limit as int,
                None => min + (j - i),
            };
            let c = repeat_count(e, min as nat, most as nat, input, origin, i, j);
            lemma_summary_copies(e, c, input, origin, i, j);
            if min > 0 && summary_spec(e).1 {
                let u = summary_spec(e).0;
                lemma_repeat_summary_copies(u, min as nat, min as nat);
                lemma_copies_prefix(u, min as nat, c);
                let units = repeat_summary(u, min as nat, min as nat).0;
                let text = input.subrange(i, j);
                assert(text == copies_of(u, c));
                assert(input.subrange(i, i + units.len()) =~= units) by {
                    assert forall|x: int| 0 <= x < units.len() implies #[trigger] input.subrange(i, i + units.len())[x] == units[x] by {
                        assert(copies_of(u, min as nat).take(units.len() as int)[x] == units[x]);
                        assert(copies_of(u, c).take(copies_of(u, min as nat).len() as int)[x] == copies_of(u, min as nat)[x]);
                    }
                }
            }
        },
        _ => {},
    }
}

/// Summary facts for the first `k` items of a sequence.
proof fn lemma_summary_items(items: Seq<Hir>, k: nat, input: Seq<u16>, origin: int, i: int, j: int)
    requires
        k <= items.len(),
        0 <= i <= j <= input.len(),
        sequence_matches(items.take(k as int), input, origin, i, j),
    ensures
        text_prefix(sequence_summary(items, k).0, input, i, j),
        sequence_summary(items, k).2 ==> !sequence_summary(items, k).1,
        !sequence_summary(items, k).2 ==> input.subrange(i, j) == sequence_summary(items, k).0,
        sequence_summary(items, k).1 ==> input.subrange(i, j) == sequence_summary(items, k).0,
    decreases items, k,
{
    if k == 0 {
        assert(input.subrange(i, i) =~= Seq::<u16>::empty());
    } else {
        let first = items.take(k as int);
        assert(first.drop_last() =~= items.take(k - 1));
        assert(first.last() == items[k - 1]);
        let m = sequence_split_point(first, input, origin, i, j, i);
        lemma_summary_items(items, (k - 1) as nat, input, origin, i, m);
        lemma_summary_text(items[k - 1], input, origin, m, j);
        let first_text = input.subrange(i, m);
        let last_text = input.subrange(m, j);
        assert(input.subrange(i, j) =~= first_text + last_text);
        let (units, exact, stopped) = sequence_summary(items, (k - 1) as nat);
        if stopped {
            assert(input.subrange(i, i + units.len()) =~= units) by {
                assert forall|x: int| 0 <= x < units.len() implies #[trigger] input.subrange(i, i + units.len())[x] == units[x] by {
                    assert(input.subrange(i, i + units.len())[x] == input[i + x]);
                }
            }
        } else {
            let child = summary_spec(items[k - 1]);
            let next = cap(units + child.0);
            assert(units == first_text);
            let whole = units + child.0;
            assert(input.subrange(i, i + whole.len()) =~= whole) by {
                assert forall|x: int| 0 <= x < whole.len() implies #[trigger] input.subrange(i, i + whole.len())[x] == whole[x] by {
                    if x >= units.len() {
                        assert(input.subrange(m, m + child.0.len())[x - units.len()] == child.0[x - units.len()]);
                    }
                }
            }
            assert(whole.take(next.len() as int) =~= next);
            lemma_text_prefix_shorter(next, whole, input, i, j);
            if !sequence_summary(items, k).2 {
                assert(last_text == child.0);
                assert(next =~= whole);
            }
        }
    }
}

/// Summary facts for `n` copies.
proof fn lemma_summary_copies(e: Hir, n: nat, input: Seq<u16>, origin: int, i: int, j: int)
    requires
        0 <= i <= j <= input.len(),
        repeat_matches(e, n, input, origin, i, j),
    ensures
        n >= 1 ==> text_prefix(summary_spec(e).0, input, i, j),
        summary_spec(e).1 ==> input.subrange(i, j) == copies_of(summary_spec(e).0, n),
    decreases e, n + 1,
{
    if n == 0 {
        assert(input.subrange(i, i) =~= Seq::<u16>::empty());
    } else {
        let m = repeat_split_point(e, n, input, origin, i, j, i);
        lemma_summary_copies(e, (n - 1) as nat, input, origin, i, m);
        lemma_summary_text(e, input, origin, m, j);
        let first_text = input.subrange(i, m);
        let last_text = input.subrange(m, j);
        assert(input.subrange(i, j) =~= first_text + last_text);
        let p = summary_spec(e).0;
        if n > 1 {
            assert(input.subrange(i, i + p.len()) =~= p) by {
                assert forall|x: int| 0 <= x < p.len() implies #[trigger] input.subrange(i, i + p.len())[x] == p[x] by {
                    assert(input.subrange(i, i + p.len())[x] == input[i + x]);
                }
            }
        } else {
            assert(i == m);
        }
    }
}

} // verus!
