//! Conservative pattern classification for cohort planning.
use vstd::prelude::*;

use crate::hir::{
    all_well_formed, hir_well_formed, lemma_all_well_formed, lemma_item_decreases, minimum_consumed_spec,
    nullable_spec, sat_add, sat_mul, saturating_mul, Assertion, Hir, HirPattern,
};
use crate::prefilter::{append_bounded, cap, common_len, common_prefix_len};
use crate::types::PatternId;

verus! {

/// Which assertion kinds an expression holds.
#[derive(Clone, Copy, Debug, PartialEq, Eq, Structural)]
pub struct AssertionKinds {
    pub line_start: bool,
    pub line_end: bool,
    pub word_boundary: bool,
    pub non_word_boundary: bool,
}

/// Whether an assertion of kind `kind` occurs in `h`.
pub open spec fn uses_kind(h: Hir, kind: Assertion) -> bool
    decreases h,
{
    match h {
        Hir::Assertion(a) => a == kind,
        Hir::Sequence(v) => any_uses_kind(v@, kind),
        Hir::Alternation(v) => any_uses_kind(v@, kind),
        Hir::Repeat { expression, .. } => uses_kind(*expression, kind),
        _ => false,
    }
}

/// Whether an assertion of kind `kind` occurs in some item.
pub open spec fn any_uses_kind(items: Seq<Hir>, kind: Assertion) -> bool
    decreases items,
{
    if items.len() == 0 {
        false
    } else {
        any_uses_kind(items.drop_last(), kind) || uses_kind(items.last(), kind)
    }
}

/// The kinds used by `h`.
pub open spec fn kinds_spec(h: Hir) -> AssertionKinds {
    AssertionKinds {
        line_start: uses_kind(h, Assertion::LineStart),
        line_end: uses_kind(h, Assertion::LineEnd),
        word_boundary: uses_kind(h, Assertion::WordBoundary),
        non_word_boundary: uses_kind(h, Assertion::NonWordBoundary),
    }
}

impl AssertionKinds {
    /// No kind.
    pub fn none() -> (kinds: Self)
        ensures
            !kinds.line_start && !kinds.line_end && !kinds.word_boundary && !kinds.non_word_boundary,
    {
        AssertionKinds { line_start: false, line_end: false, word_boundary: false, non_word_boundary: false }
    }

    /// Adds one kind.
    pub fn insert(&mut self, assertion: Assertion)
        ensures
            final(self).line_start == (old(self).line_start || assertion == Assertion::LineStart),
            final(self).line_end == (old(self).line_end || assertion == Assertion::LineEnd),
            final(self).word_boundary == (old(self).word_boundary || assertion == Assertion::WordBoundary),
            final(self).non_word_boundary == (old(self).non_word_boundary || assertion == Assertion::NonWordBoundary),
    {
        match assertion {
            Assertion::LineStart => self.line_start = true,
            Assertion::LineEnd => self.line_end = true,
            Assertion::WordBoundary => self.word_boundary = true,
            Assertion::NonWordBoundary => self.non_word_boundary = true,
        }
    }

    /// Whether no kind is present.
    pub fn is_empty(self) -> (empty: bool)
        ensures
            empty == (!self.line_start && !self.line_end && !self.word_boundary && !self.non_word_boundary),
    {
        !self.line_start && !self.line_end && !self.word_boundary && !self.non_word_boundary
    }
}

/// Adds the kinds used by `expression`.
fn visit_assertions(expression: &Hir, kinds: &mut AssertionKinds)
    ensures
        final(kinds).line_start == (old(kinds).line_start || uses_kind(*expression, Assertion::LineStart)),
        final(kinds).line_end == (old(kinds).line_end || uses_kind(*expression, Assertion::LineEnd)),
        final(kinds).word_boundary == (old(kinds).word_boundary || uses_kind(*expression, Assertion::WordBoundary)),
        final(kinds).non_word_boundary == (old(kinds).non_word_boundary || uses_kind(*expression, Assertion::NonWordBoundary)),
    decreases *expression, 1nat,
{
    match expression {
        Hir::Assertion(assertion) => kinds.insert(*assertion),
        Hir::Sequence(expressions) => visit_items(expression, expressions, kinds),
        Hir::Alternation(expressions) => visit_items(expression, expressions, kinds),
        Hir::Repeat { expression: inner, .. } => visit_assertions(inner, kinds),
        _ => {},
    }
}

fn visit_items(whole: &Hir, expressions: &Vec<Hir>, kinds: &mut AssertionKinds)
    requires
        (*whole matches Hir::Sequence(w) && w == *expressions) || (*whole matches Hir::Alternation(w) && w == *expressions),
    ensures
        final(kinds).line_start == (old(kinds).line_start || any_uses_kind(expressions@, Assertion::LineStart)),
        final(kinds).line_end == (old(kinds).line_end || any_uses_kind(expressions@, Assertion::LineEnd)),
        final(kinds).word_boundary == (old(kinds).word_boundary || any_uses_kind(expressions@, Assertion::WordBoundary)),
        final(kinds).non_word_boundary == (old(kinds).non_word_boundary || any_uses_kind(expressions@, Assertion::NonWordBoundary)),
    decreases *whole, 0nat,
{
    let mut index: usize = 0;
    while index < expressions.len()
        invariant
            index <= expressions@.len(),
            (*whole matches Hir::Sequence(w) && w == *expressions) || (*whole matches Hir::Alternation(w) && w == *expressions),
            kinds.line_start == (old(kinds).line_start || any_uses_kind(expressions@.take(index as int), Assertion::LineStart)),
            kinds.line_end == (old(kinds).line_end || any_uses_kind(expressions@.take(index as int), Assertion::LineEnd)),
            kinds.word_boundary == (old(kinds).word_boundary || any_uses_kind(expressions@.take(index as int), Assertion::WordBoundary)),
            kinds.non_word_boundary == (old(kinds).non_word_boundary || any_uses_kind(expressions@.take(index as int), Assertion::NonWordBoundary)),
        decreases expressions@.len() - index,
    {
        proof {
            lemma_item_decreases(*whole, *expressions, index as int);
            assert(expressions@.take(index + 1).drop_last() =~= expressions@.take(index as int));
            assert(expressions@.take(index + 1).last() == expressions@[index as int]);
        }
        visit_assertions(&expressions[index], kinds);
        index = index + 1;
    }
    proof {
        assert(expressions@.take(index as int) =~= expressions@);
    }
}

/// The assertion kinds `expression` uses.
pub fn assertion_kinds(expression: &Hir) -> (kinds: AssertionKinds)
    ensures
        kinds == kinds_spec(*expression),
{
    let mut kinds = AssertionKinds::none();
    visit_assertions(expression, &mut kinds);
    kinds
}

/// Whether some kind is used exactly when some assertion occurs.
pub proof fn lemma_kinds_match_assertions(h: Hir)
    ensures
        crate::hir::uses_assertions_spec(h) == (uses_kind(h, Assertion::LineStart) || uses_kind(h, Assertion::LineEnd)
            || uses_kind(h, Assertion::WordBoundary) || uses_kind(h, Assertion::NonWordBoundary)),
    decreases h,
{
    match h {
        Hir::Sequence(v) => {
            assert(decreases_to!(h => v));
            lemma_items_kinds(v@);
        },
        Hir::Alternation(v) => {
            assert(decreases_to!(h => v));
            lemma_items_kinds(v@);
        },
        Hir::Repeat { expression, .. } => {
            lemma_kinds_match_assertions(*expression);
        },
        Hir::Assertion(a) => {
            match a {
                Assertion::LineStart => {},
                Assertion::LineEnd => {},
                Assertion::WordBoundary => {},
                Assertion::NonWordBoundary => {},
            }
        },
        _ => {},
    }
}

proof fn lemma_items_kinds(items: Seq<Hir>)
    ensures
        crate::hir::any_uses_assertions(items) == (any_uses_kind(items, Assertion::LineStart) || any_uses_kind(items, Assertion::LineEnd)
            || any_uses_kind(items, Assertion::WordBoundary) || any_uses_kind(items, Assertion::NonWordBoundary)),
    decreases items,
{
    if items.len() > 0 {
        lemma_items_kinds(items.drop_last());
        lemma_kinds_match_assertions(items.last());
    }
}

/// The most units an expression can consume.
#[derive(Clone, Copy, Debug, PartialEq, Eq, Structural)]
pub enum MaximumConsumed {
    Impossible,
    Finite(usize),
    Unbounded,
}

/// The most units `h` can consume, saturating.
pub open spec fn maximum_spec(h: Hir) -> MaximumConsumed
    decreases h,
{
    match h {
        Hir::Never => MaximumConsumed::Impossible,
        Hir::Epsilon => MaximumConsumed::Finite(0),
        Hir::Assertion(_) => MaximumConsumed::Finite(0),
        Hir::Symbol(_) => MaximumConsumed::Finite(1),
        Hir::Predicate(p) => if p@.0 == 0 && p@.1.len() == 0 {
            MaximumConsumed::Impossible
        } else {
            MaximumConsumed::Finite(1)
        },
        Hir::Sequence(v) => sequence_maximum(v@),
        Hir::Alternation(v) => alternation_maximum(v@),
        Hir::Repeat { expression, max, .. } => match max {
            Some(m) => match maximum_spec(*expression) {
                MaximumConsumed::Impossible => MaximumConsumed::Impossible,
                MaximumConsumed::Finite(unit) => MaximumConsumed::Finite(sat_mul(unit as int, m as int) as usize),
                MaximumConsumed::Unbounded => if m == 0 {
                    MaximumConsumed::Finite(0)
                } else {
                    MaximumConsumed::Unbounded
                },
            },
            None => match maximum_spec(*expression) {
                MaximumConsumed::Impossible => MaximumConsumed::Impossible,
                MaximumConsumed::Finite(unit) => if unit == 0 {
                    MaximumConsumed::Finite(0)
                } else {
                    MaximumConsumed::Unbounded
                },
                MaximumConsumed::Unbounded => MaximumConsumed::Unbounded,
            },
        },
    }
}

/// The first item that is impossible or unbounded decides; otherwise the
/// finite maxima add up.
pub open spec fn sequence_maximum(items: Seq<Hir>) -> MaximumConsumed
    decreases items,
{
    if items.len() == 0 {
        MaximumConsumed::Finite(0)
    } else {
        match sequence_maximum(items.drop_last()) {
            MaximumConsumed::Finite(total) => match maximum_spec(items.last()) {
                MaximumConsumed::Finite(next) => MaximumConsumed::Finite(sat_add(total as int, next as int) as usize),
                other => other,
            },
            other => other,
        }
    }
}

/// The largest finite branch maximum; an unbounded branch decides, and
/// impossible branches are skipped.
pub open spec fn alternation_maximum(items: Seq<Hir>) -> MaximumConsumed
    decreases items,
{
    if items.len() == 0 {
        MaximumConsumed::Impossible
    } else {
        match alternation_maximum(items.drop_last()) {
            MaximumConsumed::Unbounded => MaximumConsumed::Unbounded,
            MaximumConsumed::Impossible => maximum_spec(items.last()),
            MaximumConsumed::Finite(best) => match maximum_spec(items.last()) {
                MaximumConsumed::Impossible => MaximumConsumed::Finite(best),
                MaximumConsumed::Finite(next) => MaximumConsumed::Finite(if next > best { next } else { best }),
                MaximumConsumed::Unbounded => MaximumConsumed::Unbounded,
            },
        }
    }
}

/// The most units `expression` can consume.
pub fn maximum_consumed(expression: &Hir) -> (maximum: MaximumConsumed)
    ensures
        maximum == maximum_spec(*expression),
    decreases *expression,
{
    match expression {
        Hir::Never => MaximumConsumed::Impossible,
        Hir::Epsilon => MaximumConsumed::Finite(0),
        Hir::Assertion(_) => MaximumConsumed::Finite(0),
        Hir::Symbol(_) => MaximumConsumed::Finite(1),
        Hir::Predicate(predicate) => if predicate.is_empty() {
            MaximumConsumed::Impossible
        } else {
            MaximumConsumed::Finite(1)
        },
        Hir::Sequence(expressions) => {
            let mut total: usize = 0;
            let mut index: usize = 0;
            while index < expressions.len()
                invariant
                    index <= expressions@.len(),
                    *expression matches Hir::Sequence(w) && w == *expressions,
                    sequence_maximum(expressions@.take(index as int)) == MaximumConsumed::Finite(total),
                decreases expressions@.len() - index,
            {
                proof {
                    lemma_item_decreases(*expression, *expressions, index as int);
                    assert(expressions@.take(index + 1).drop_last() =~= expressions@.take(index as int));
                    assert(expressions@.take(index + 1).last() == expressions@[index as int]);
                }
                match maximum_consumed(&expressions[index]) {
                    MaximumConsumed::Finite(next) => {
                        total = if next > usize::MAX - total { usize::MAX } else { total + next };
                    },
                    other => {
                        proof {
                            lemma_sequence_maximum_stops(expressions@, (index + 1) as nat);
                        }
                        return other;
                    },
                }
                index = index + 1;
            }
            proof {
                assert(expressions@.take(index as int) =~= expressions@);
            }
            MaximumConsumed::Finite(total)
        },
        Hir::Alternation(expressions) => {
            let mut best: MaximumConsumed = MaximumConsumed::Impossible;
            let mut index: usize = 0;
            while index < expressions.len()
                invariant
                    index <= expressions@.len(),
                    *expression matches Hir::Alternation(w) && w == *expressions,
                    alternation_maximum(expressions@.take(index as int)) == best,
                    !(best is Unbounded),
                decreases expressions@.len() - index,
            {
                proof {
                    lemma_item_decreases(*expression, *expressions, index as int);
                    assert(expressions@.take(index + 1).drop_last() =~= expressions@.take(index as int));
                    assert(expressions@.take(index + 1).last() == expressions@[index as int]);
                }
                match maximum_consumed(&expressions[index]) {
                    MaximumConsumed::Impossible => {},
                    MaximumConsumed::Finite(next) => {
                        best = match best {
                            MaximumConsumed::Finite(current) => MaximumConsumed::Finite(if next > current { next } else { current }),
                            _ => MaximumConsumed::Finite(next),
                        };
                    },
                    MaximumConsumed::Unbounded => {
                        proof {
                            lemma_alternation_maximum_stops(expressions@, (index + 1) as nat);
                        }
                        return MaximumConsumed::Unbounded;
                    },
                }
                index = index + 1;
            }
            proof {
                assert(expressions@.take(index as int) =~= expressions@);
            }
            best
        },
        Hir::Repeat { expression: inner, max, .. } => {
            let unit = maximum_consumed(inner);
            match max {
                Some(m) => match unit {
                    MaximumConsumed::Impossible => MaximumConsumed::Impossible,
                    MaximumConsumed::Finite(u) => MaximumConsumed::Finite(saturating_mul(u, *m as usize)),
                    MaximumConsumed::Unbounded => if *m == 0 {
                        MaximumConsumed::Finite(0)
                    } else {
                        MaximumConsumed::Unbounded
                    },
                },
                None => match unit {
                    MaximumConsumed::Impossible => MaximumConsumed::Impossible,
                    MaximumConsumed::Finite(u) => if u == 0 {
                        MaximumConsumed::Finite(0)
                    } else {
                        MaximumConsumed::Unbounded
                    },
                    MaximumConsumed::Unbounded => MaximumConsumed::Unbounded,
                },
            }
        },
    }
}

proof fn lemma_sequence_maximum_stops(items: Seq<Hir>, k: nat)
    requires
        1 <= k <= items.len(),
        sequence_maximum(items.take(k as int - 1)) is Finite,
        !(maximum_spec(items[k - 1]) is Finite),
    ensures
        sequence_maximum(items) == maximum_spec(items[k - 1]),
    decreases items.len() - k,
{
    let prefix = items.take(k as int);
    assert(prefix.drop_last() =~= items.take(k as int - 1));
    assert(prefix.last() == items[k - 1]);
    if k < items.len() {
        lemma_sequence_maximum_stops_after(items, k);
    } else {
        assert(prefix =~= items);
    }
}

proof fn lemma_sequence_maximum_stops_after(items: Seq<Hir>, k: nat)
    requires
        1 <= k <= items.len(),
        !(sequence_maximum(items.take(k as int)) is Finite),
    ensures
        sequence_maximum(items) == sequence_maximum(items.take(k as int)),
    decreases items.len() - k,
{
    if k < items.len() {
        let next = items.take(k as int + 1);
        assert(next.drop_last() =~= items.take(k as int));
        lemma_sequence_maximum_stops_after(items, k + 1);
    } else {
        assert(items.take(k as int) =~= items);
    }
}

proof fn lemma_alternation_maximum_stops(items: Seq<Hir>, k: nat)
    requires
        1 <= k <= items.len(),
        !(alternation_maximum(items.take(k as int - 1)) is Unbounded),
        maximum_spec(items[k - 1]) is Unbounded,
    ensures
        alternation_maximum(items) is Unbounded,
    decreases items.len() - k,
{
    let prefix = items.take(k as int);
    assert(prefix.drop_last() =~= items.take(k as int - 1));
    assert(prefix.last() == items[k - 1]);
    lemma_alternation_unbounded_after(items, k);
}

proof fn lemma_alternation_unbounded_after(items: Seq<Hir>, k: nat)
    requires
        1 <= k <= items.len(),
        alternation_maximum(items.take(k as int)) is Unbounded,
    ensures
        alternation_maximum(items) is Unbounded,
    decreases items.len() - k,
{
    if k < items.len() {
        let next = items.take(k as int + 1);
        assert(next.drop_last() =~= items.take(k as int));
        lemma_alternation_unbounded_after(items, k + 1);
    } else {
        assert(items.take(k as int) =~= items);
    }
}

/// Whether every unit `h` can consume is ASCII, as far as its structure
/// tells.
pub open spec fn ascii_only_spec(h: Hir) -> bool
    decreases h,
{
    match h {
        Hir::Symbol(c) => c < 128,
        Hir::Predicate(p) => p.ascii_only_spec(),
        Hir::Sequence(v) => all_ascii_only(v@),
        Hir::Alternation(v) => all_ascii_only(v@),
        Hir::Repeat { expression, .. } => ascii_only_spec(*expression),
        _ => true,
    }
}

/// Every item is ASCII-only.
pub open spec fn all_ascii_only(items: Seq<Hir>) -> bool
    decreases items,
{
    if items.len() == 0 {
        true
    } else {
        all_ascii_only(items.drop_last()) && ascii_only_spec(items.last())
    }
}

/// Whether `expression` consumes only ASCII units.
pub fn ascii_only(expression: &Hir) -> (ascii: bool)
    requires
        hir_well_formed(*expression),
    ensures
        ascii == ascii_only_spec(*expression),
    decreases *expression,
{
    match expression {
        Hir::Symbol(symbol) => *symbol < 128,
        Hir::Predicate(predicate) => predicate.is_ascii_only(),
        Hir::Sequence(expressions) => all_items_ascii(expression, expressions),
        Hir::Alternation(expressions) => all_items_ascii(expression, expressions),
        Hir::Repeat { expression: inner, .. } => ascii_only(inner),
        _ => true,
    }
}

fn all_items_ascii(whole: &Hir, expressions: &Vec<Hir>) -> (ascii: bool)
    requires
        hir_well_formed(*whole),
        (*whole matches Hir::Sequence(w) && w == *expressions) || (*whole matches Hir::Alternation(w) && w == *expressions),
    ensures
        ascii == all_ascii_only(expressions@),
    decreases *whole, 0nat,
{
    proof {
        lemma_all_well_formed(expressions@);
    }
    let mut index: usize = 0;
    while index < expressions.len()
        invariant
            index <= expressions@.len(),
            hir_well_formed(*whole),
            all_well_formed(expressions@),
            (*whole matches Hir::Sequence(w) && w == *expressions) || (*whole matches Hir::Alternation(w) && w == *expressions),
            all_ascii_only(expressions@.take(index as int)),
        decreases expressions@.len() - index,
    {
        proof {
            lemma_item_decreases(*whole, *expressions, index as int);
            lemma_all_well_formed(expressions@);
            assert(expressions@.take(index + 1).drop_last() =~= expressions@.take(index as int));
            assert(expressions@.take(index + 1).last() == expressions@[index as int]);
        }
        if !ascii_only(&expressions[index]) {
            proof {
                lemma_all_ascii_stops(expressions@, (index + 1) as nat);
            }
            return false;
        }
        index = index + 1;
    }
    proof {
        assert(expressions@.take(index as int) =~= expressions@);
    }
    true
}

proof fn lemma_all_ascii_stops(items: Seq<Hir>, k: nat)
    requires
        1 <= k <= items.len(),
        !ascii_only_spec(items[k - 1]),
    ensures
        !all_ascii_only(items),
    decreases items.len(),
{
    if k == items.len() {
        assert(items.last() == items[k - 1]);
    } else {
        lemma_all_ascii_stops(items.drop_last(), k);
        assert(items.drop_last()[k - 1] == items[k - 1]);
    }
}

/// Node count of `h`, saturating.
pub open spec fn hir_nodes_spec(h: Hir) -> int
    decreases h,
{
    sat_add(
        1,
        match h {
            Hir::Sequence(v) => items_nodes(v@),
            Hir::Alternation(v) => items_nodes(v@),
            Hir::Repeat { expression, .. } => hir_nodes_spec(*expression),
            _ => 0,
        },
    )
}

/// Summed node counts of the items, saturating.
pub open spec fn items_nodes(items: Seq<Hir>) -> int
    decreases items,
{
    if items.len() == 0 {
        0
    } else {
        sat_add(items_nodes(items.drop_last()), hir_nodes_spec(items.last()))
    }
}

/// Node count of `expression`, saturating.
pub fn hir_nodes(expression: &Hir) -> (nodes: usize)
    ensures
        nodes == hir_nodes_spec(*expression),
    decreases *expression, 1nat,
{
    let descendants: usize = match expression {
        Hir::Sequence(expressions) => items_node_count(expression, expressions),
        Hir::Alternation(expressions) => items_node_count(expression, expressions),
        Hir::Repeat { expression: inner, .. } => hir_nodes(inner),
        _ => 0,
    };
    if descendants == usize::MAX {
        usize::MAX
    } else {
        descendants + 1
    }
}

fn items_node_count(whole: &Hir, expressions: &Vec<Hir>) -> (count: usize)
    requires
        (*whole matches Hir::Sequence(w) && w == *expressions) || (*whole matches Hir::Alternation(w) && w == *expressions),
    ensures
        count == items_nodes(expressions@),
    decreases *whole, 0nat,
{
    let mut count: usize = 0;
    let mut index: usize = 0;
    while index < expressions.len()
        invariant
            index <= expressions@.len(),
            (*whole matches Hir::Sequence(w) && w == *expressions) || (*whole matches Hir::Alternation(w) && w == *expressions),
            count == items_nodes(expressions@.take(index as int)),
        decreases expressions@.len() - index,
    {
        proof {
            lemma_item_decreases(*whole, *expressions, index as int);
            assert(expressions@.take(index + 1).drop_last() =~= expressions@.take(index as int));
            assert(expressions@.take(index + 1).last() == expressions@[index as int]);
        }
        let nodes = hir_nodes(&expressions[index]);
        count = if nodes > usize::MAX - count { usize::MAX } else { count + nodes };
        index = index + 1;
    }
    proof {
        assert(expressions@.take(index as int) =~= expressions@);
    }
    count
}

/// A capped literal prefix and whether it is the expression's whole,
/// single string.
pub struct PrefixSummary {
    pub units: Vec<u16>,
    pub exact: bool,
}

/// The prefix summary of `h`: a capped string every match begins with, and
/// whether that string is everything `h` spells.
pub open spec fn summary_spec(h: Hir) -> (Seq<u16>, bool)
    decreases h,
{
    match h {
        Hir::Never => (seq![], false),
        Hir::Predicate(_) => (seq![], false),
        Hir::Epsilon => (seq![], true),
        Hir::Assertion(_) => (seq![], true),
        Hir::Symbol(c) => (seq![c], true),
        Hir::Sequence(v) => {
            let (units, exact, _) = sequence_summary(v@, v@.len());
            (units, exact)
        },
        Hir::Alternation(v) => if v@.len() == 0 {
            (seq![], false)
        } else {
            alternation_summary(v@, (v@.len() - 1) as nat)
        },
        Hir::Repeat { expression, min, max } => if min == 0 {
            (seq![], max == Some(0u16))
        } else {
            let child = summary_spec(*expression);
            if !child.1 {
                (child.0, false)
            } else {
                let (units, stopped) = repeat_summary(child.0, min as nat, min as nat);
                if stopped {
                    (units, false)
                } else {
                    (units, max == Some(min))
                }
            }
        },
    }
}

/// The summary state after the first `k` items: units, exactness, and
/// whether gathering stopped.
pub open spec fn sequence_summary(items: Seq<Hir>, k: nat) -> (Seq<u16>, bool, bool)
    decreases items, k,
{
    if k == 0 || k > items.len() {
        (seq![], true, false)
    } else {
        let (units, exact, stopped) = sequence_summary(items, (k - 1) as nat);
        if stopped {
            (units, exact, true)
        } else {
            let child = summary_spec(items[k - 1]);
            let complete = sat_add(units.len() as int, child.0.len() as int);
            let next = cap(units + child.0);
            if !child.1 || complete > 32 || (next.len() == 32 && k < items.len()) {
                (next, false, true)
            } else {
                (next, exact, false)
            }
        }
    }
}

/// The summary shared by branches `0..=k`.
pub open spec fn alternation_summary(branches: Seq<Hir>, k: nat) -> (Seq<u16>, bool)
    decreases branches, k,
{
    if branches.len() == 0 {
        (seq![], false)
    } else if k == 0 {
        summary_spec(branches[0])
    } else if k < branches.len() {
        let (units, exact) = alternation_summary(branches, (k - 1) as nat);
        let candidate = summary_spec(branches[k as int]);
        (units.take(common_len(units, candidate.0) as int), exact && candidate.1 && candidate.0 == units)
    } else {
        (seq![], false)
    }
}

/// The units after `r` of `min` copies of `child`, and whether the copies
/// stopped at the cap.
pub open spec fn repeat_summary(child: Seq<u16>, min: nat, r: nat) -> (Seq<u16>, bool)
    decreases r,
{
    if r == 0 {
        (seq![], false)
    } else {
        let (units, stopped) = repeat_summary(child, min, (r - 1) as nat);
        if stopped {
            (units, true)
        } else {
            let complete = sat_add(units.len() as int, child.len() as int);
            let next = cap(units + child);
            (next, complete > 32 || (next.len() == 32 && r < min))
        }
    }
}

/// The prefix summary of `expression`.
pub fn prefix_summary(expression: &Hir) -> (summary: PrefixSummary)
    ensures
        (summary.units@, summary.exact) == summary_spec(*expression),
        summary.units@.len() <= 32,
    decreases *expression,
{
    match expression {
        Hir::Never => PrefixSummary { units: Vec::new(), exact: false },
        Hir::Predicate(_) => PrefixSummary { units: Vec::new(), exact: false },
        Hir::Epsilon => PrefixSummary { units: Vec::new(), exact: true },
        Hir::Assertion(_) => PrefixSummary { units: Vec::new(), exact: true },
        Hir::Symbol(symbol) => {
            let mut units = Vec::new();
            units.push(*symbol);
            proof {
                assert(units@ =~= seq![*symbol]);
            }
            PrefixSummary { units, exact: true }
        },
        Hir::Sequence(expressions) => {
            let mut units: Vec<u16> = Vec::new();
            let mut exact = true;
            let mut stopped = false;
            let mut index: usize = 0;
            while index < expressions.len() && !stopped
                invariant
                    index <= expressions@.len(),
                    *expression matches Hir::Sequence(w) && w == *expressions,
                    sequence_summary(expressions@, index as nat) == (units@, exact, stopped),
                    units@.len() <= 32,
                decreases expressions@.len() - index,
            {
                proof {
                    lemma_item_decreases(*expression, *expressions, index as int);
                }
                let child = prefix_summary(&expressions[index]);
                let complete = if child.units.len() > usize::MAX - units.len() {
                    usize::MAX
                } else {
                    units.len() + child.units.len()
                };
                append_bounded(&mut units, child.units.as_slice());
                if !child.exact || complete > 32 || (units.len() == 32 && index + 1 < expressions.len()) {
                    exact = false;
                    stopped = true;
                }
                index = index + 1;
            }
            proof {
                lemma_sequence_summary_stopped(expressions@, index as nat);
            }
            PrefixSummary { units, exact }
        },
        Hir::Alternation(expressions) => {
            if expressions.len() == 0 {
                return PrefixSummary { units: Vec::new(), exact: false };
            }
            proof {
                lemma_item_decreases(*expression, *expressions, 0);
            }
            let first = prefix_summary(&expressions[0]);
            let mut units = first.units;
            let mut exact = first.exact;
            let mut index: usize = 1;
            while index < expressions.len()
                invariant
                    1 <= index <= expressions@.len(),
                    *expression matches Hir::Alternation(w) && w == *expressions,
                    alternation_summary(expressions@, (index - 1) as nat) == (units@, exact),
                    units@.len() <= 32,
                decreases expressions@.len() - index,
            {
                proof {
                    lemma_item_decreases(*expression, *expressions, index as int);
                }
                let candidate = prefix_summary(&expressions[index]);
                let same = same_summary_units(candidate.units.as_slice(), units.as_slice());
                exact = exact && candidate.exact && same;
                let shared = common_prefix_len(units.as_slice(), candidate.units.as_slice());
                proof {
                    crate::prefilter::lemma_common_len_bound(units@, candidate.units@);
                }
                units.truncate(shared);
                index = index + 1;
            }
            PrefixSummary { units, exact }
        },
        Hir::Repeat { expression: inner, min, max } => {
            if *min == 0 {
                return PrefixSummary { units: Vec::new(), exact: *max == Some(0u16) };
            }
            let child = prefix_summary(inner);
            if !child.exact {
                return PrefixSummary { units: child.units, exact: false };
            }
            let mut units: Vec<u16> = Vec::new();
            let mut repetition: u16 = 0;
            while repetition < *min
                invariant
                    repetition <= *min,
                    *min > 0,
                    *expression matches Hir::Repeat { expression: e, min: lo, max: hi } && *e == **inner
                        && lo == *min && hi == *max,
                    (child.units@, child.exact) == summary_spec(**inner),
                    child.exact,
                    repeat_summary(child.units@, *min as nat, repetition as nat) == (units@, false),
                    units@.len() <= 32,
                    child.units@.len() <= 32,
                decreases *min - repetition,
            {
                let complete = units.len() + child.units.len();
                append_bounded(&mut units, child.units.as_slice());
                if complete > 32 || (units.len() == 32 && repetition + 1 < *min) {
                    proof {
                        lemma_repeat_summary_stopped(child.units@, *min as nat, (repetition + 1) as nat);
                    }
                    return PrefixSummary { units, exact: false };
                }
                repetition = repetition + 1;
            }
            PrefixSummary { units, exact: *max == Some(*min) }
        },
    }
}

fn same_summary_units(left: &[u16], right: &[u16]) -> (same: bool)
    ensures
        same == (left@ == right@),
{
    if left.len() != right.len() {
        return false;
    }
    let mut i: usize = 0;
    while i < left.len()
        invariant
            left@.len() == right@.len(),
            i <= left@.len(),
            forall|k: int| 0 <= k < i ==> left@[k] == right@[k],
        decreases left@.len() - i,
    {
        if left[i] != right[i] {
            return false;
        }
        i = i + 1;
    }
    proof {
        assert(left@ =~= right@);
    }
    true
}

proof fn lemma_sequence_summary_stopped(items: Seq<Hir>, k: nat)
    requires
        k <= items.len(),
        k < items.len() ==> sequence_summary(items, k).2,
    ensures
        sequence_summary(items, items.len()) == sequence_summary(items, k),
    decreases items.len() - k,
{
    if k < items.len() {
        lemma_sequence_summary_stopped(items, k + 1);
    }
}

proof fn lemma_repeat_summary_stopped(child: Seq<u16>, min: nat, r: nat)
    requires
        r <= min,
        repeat_summary(child, min, r).1,
    ensures
        repeat_summary(child, min, min) == repeat_summary(child, min, r),
    decreases min - r,
{
    if r < min {
        lemma_repeat_summary_stopped(child, min, r + 1);
    }
}

/// Conservative facts about one registered pattern.
#[derive(Clone, Debug, PartialEq, Eq)]
pub struct PatternDiagnostics {
    pattern_id: PatternId,
    registration_ordinal: usize,
    assertions: AssertionKinds,
    nullable: bool,
    minimum_consumed: Option<usize>,
    maximum_consumed: MaximumConsumed,
    ascii_only: bool,
    proven_exact_literal_units: Option<usize>,
    necessary_prefix_units: usize,
    hir_nodes: usize,
}

/// The facts a pattern diagnostic carries.
pub struct PatternFacts {
    pub pattern_id: PatternId,
    pub registration_ordinal: usize,
    pub assertions: AssertionKinds,
    pub nullable: bool,
    pub minimum_consumed: Option<usize>,
    pub maximum_consumed: MaximumConsumed,
    pub ascii_only: bool,
    pub proven_exact_literal_units: Option<usize>,
    pub necessary_prefix_units: usize,
    pub hir_nodes: usize,
}

impl View for PatternDiagnostics {
    type V = PatternFacts;

    closed spec fn view(&self) -> PatternFacts {
        PatternFacts {
            pattern_id: self.pattern_id,
            registration_ordinal: self.registration_ordinal,
            assertions: self.assertions,
            nullable: self.nullable,
            minimum_consumed: self.minimum_consumed,
            maximum_consumed: self.maximum_consumed,
            ascii_only: self.ascii_only,
            proven_exact_literal_units: self.proven_exact_literal_units,
            necessary_prefix_units: self.necessary_prefix_units,
            hir_nodes: self.hir_nodes,
        }
    }
}

impl PatternDiagnostics {
    /// The facts are those of `pattern`, registered `ordinal`-th.
    pub closed spec fn describes(&self, ordinal: usize, pattern: HirPattern) -> bool {
        let h = pattern.expression_spec();
        let summary = summary_spec(h);
        &&& self.pattern_id == pattern.pattern_id_spec()
        &&& self.registration_ordinal == ordinal
        &&& self.assertions == kinds_spec(h)
        &&& self.nullable == pattern.nullable_spec()
        &&& self.minimum_consumed == pattern.minimum_consumed_spec()
        &&& self.maximum_consumed == maximum_spec(h)
        &&& self.ascii_only == ascii_only_spec(h)
        &&& self.proven_exact_literal_units == if !crate::hir::uses_assertions_spec(h) && summary.1 {
            Some(summary.0.len() as usize)
        } else {
            None::<usize>
        }
        &&& self.necessary_prefix_units == summary.0.len()
        &&& self.hir_nodes == hir_nodes_spec(h)
    }

    /// What describing `pattern`, registered `ordinal`-th, fixes: its
    /// identity and ordinal, and each fact as computed from its expression.
    pub proof fn lemma_describes(&self, ordinal: usize, pattern: HirPattern)
        requires
            self.describes(ordinal, pattern),
        ensures
            self@.pattern_id == pattern.pattern_id_spec(),
            self@.registration_ordinal == ordinal,
            self@.assertions == kinds_spec(pattern.expression_spec()),
            self.uses_assertions_spec() == crate::hir::uses_assertions_spec(pattern.expression_spec()),
            self@.nullable == pattern.nullable_spec(),
            self@.minimum_consumed == pattern.minimum_consumed_spec(),
            self@.maximum_consumed == maximum_spec(pattern.expression_spec()),
            self@.ascii_only == ascii_only_spec(pattern.expression_spec()),
            self@.proven_exact_literal_units == if !crate::hir::uses_assertions_spec(pattern.expression_spec())
                && summary_spec(pattern.expression_spec()).1 {
                Some(summary_spec(pattern.expression_spec()).0.len() as usize)
            } else {
                None::<usize>
            },
            self@.necessary_prefix_units == summary_spec(pattern.expression_spec()).0.len(),
            self@.hir_nodes == hir_nodes_spec(pattern.expression_spec()),
    {
        lemma_kinds_match_assertions(pattern.expression_spec());
    }

    /// Whether the pattern holds an assertion.
    pub closed spec fn uses_assertions_spec(&self) -> bool {
        !(!self.assertions.line_start && !self.assertions.line_end && !self.assertions.word_boundary
            && !self.assertions.non_word_boundary)
    }

    /// The caller identity.
    pub closed spec fn pattern_id_spec(&self) -> PatternId {
        self.pattern_id
    }

    /// Classifies one registered pattern.
    pub fn classify(registration_ordinal: usize, pattern: &HirPattern) -> (diagnostics: Self)
        requires
            hir_well_formed(pattern.expression_spec()),
        ensures
            diagnostics.describes(registration_ordinal, *pattern),
            diagnostics.uses_assertions_spec() == crate::hir::uses_assertions_spec(pattern.expression_spec()),
    {
        let expression = pattern.expression();
        let assertions = assertion_kinds(expression);
        let prefix = prefix_summary(expression);
        let proven_exact_literal_units = if assertions.is_empty() && prefix.exact {
            Some(prefix.units.len())
        } else {
            None
        };
        proof {
            lemma_kinds_match_assertions(*expression);
        }
        PatternDiagnostics {
            pattern_id: pattern.pattern_id(),
            registration_ordinal,
            assertions,
            nullable: pattern.nullable(),
            minimum_consumed: pattern.minimum_consumed(),
            maximum_consumed: maximum_consumed(expression),
            ascii_only: ascii_only(expression),
            proven_exact_literal_units,
            necessary_prefix_units: prefix.units.len(),
            hir_nodes: hir_nodes(expression),
        }
    }

    /// The caller identity.
    pub fn pattern_id(&self) -> (id: PatternId)
        ensures
            id == self@.pattern_id,
    {
        self.pattern_id
    }

    /// Position in registration order.
    pub fn registration_ordinal(&self) -> (ordinal: usize)
        ensures
            ordinal == self@.registration_ordinal,
    {
        self.registration_ordinal
    }

    /// Cohort label.
    pub fn cohort(&self) -> (label: &'static str)
        ensures
            self.uses_assertions_spec() ==> label@ == "assertion-bearing"@,
            !self.uses_assertions_spec() ==> label@ == "assertion-free"@,
    {
        if self.assertions.is_empty() {
            "assertion-free"
        } else {
            "assertion-bearing"
        }
    }

    /// Whether the pattern holds an assertion.
    pub fn uses_assertions(&self) -> (uses: bool)
        ensures
            uses == self.uses_assertions_spec(),
    {
        !self.assertions.is_empty()
    }

    /// Whether the pattern holds `^`.
    pub fn uses_line_start(&self) -> (uses: bool)
        ensures
            uses == self@.assertions.line_start,
    {
        self.assertions.line_start
    }

    /// Whether the pattern holds `$`.
    pub fn uses_line_end(&self) -> (uses: bool)
        ensures
            uses == self@.assertions.line_end,
    {
        self.assertions.line_end
    }

    /// Whether the pattern holds `\b`.
    pub fn uses_word_boundary(&self) -> (uses: bool)
        ensures
            uses == self@.assertions.word_boundary,
    {
        self.assertions.word_boundary
    }

    /// Whether the pattern holds `\B`.
    pub fn uses_non_word_boundary(&self) -> (uses: bool)
        ensures
            uses == self@.assertions.non_word_boundary,
    {
        self.assertions.non_word_boundary
    }

    /// Whether the pattern accepts the empty string.
    pub fn nullable(&self) -> (nullable: bool)
        ensures
            nullable == self@.nullable,
    {
        self.nullable
    }

    /// Fewest units a match consumes, if any match exists.
    pub fn minimum_consumed(&self) -> (minimum: Option<usize>)
        ensures
            minimum == self@.minimum_consumed,
    {
        self.minimum_consumed
    }

    /// Most units a match consumes, when finite.
    pub fn maximum_consumed(&self) -> (maximum: Option<usize>)
        ensures
            maximum == match self@.maximum_consumed {
                MaximumConsumed::Finite(m) => Some(m),
                _ => None::<usize>,
            },
    {
        match self.maximum_consumed {
            MaximumConsumed::Finite(maximum) => Some(maximum),
            _ => None,
        }
    }

    /// Whether matches can be arbitrarily long.
    pub fn has_unbounded_maximum(&self) -> (unbounded: bool)
        ensures
            unbounded == (self@.maximum_consumed is Unbounded),
    {
        match self.maximum_consumed {
            MaximumConsumed::Unbounded => true,
            _ => false,
        }
    }

    /// Whether the pattern consumes only ASCII units.
    pub fn is_ascii_only(&self) -> (ascii: bool)
        ensures
            ascii == self@.ascii_only,
    {
        self.ascii_only
    }

    /// Length of the pattern's single literal, when proven.
    pub fn proven_exact_literal_units(&self) -> (units: Option<usize>)
        ensures
            units == self@.proven_exact_literal_units,
    {
        self.proven_exact_literal_units
    }

    /// Length of the necessary prefix.
    pub fn necessary_prefix_units(&self) -> (units: usize)
        ensures
            units == self@.necessary_prefix_units,
    {
        self.necessary_prefix_units
    }

    /// Whether the necessary prefix is long enough to filter on.
    pub fn has_filterable_prefix(&self) -> (filterable: bool)
        ensures
            filterable == (self@.necessary_prefix_units >= 3),
    {
        self.necessary_prefix_units >= 3
    }

    /// Node count of the expression.
    pub fn hir_nodes(&self) -> (nodes: usize)
        ensures
            nodes == self@.hir_nodes,
    {
        self.hir_nodes
    }
}

/// Classification of every registered pattern, by cohort.
#[derive(Clone, Debug, PartialEq, Eq)]
pub struct CohortDiagnostics {
    patterns: Vec<PatternDiagnostics>,
    assertion_free_pattern_ids: Vec<PatternId>,
    assertion_bearing_pattern_ids: Vec<PatternId>,
}

/// Identities of the patterns whose assertion use is `bearing`, in order.
pub open spec fn cohort_ids(patterns: Seq<HirPattern>, bearing: bool) -> Seq<PatternId>
    decreases patterns.len(),
{
    if patterns.len() == 0 {
        seq![]
    } else if crate::hir::uses_assertions_spec(patterns.last().expression_spec()) == bearing {
        cohort_ids(patterns.drop_last(), bearing).push(patterns.last().pattern_id_spec())
    } else {
        cohort_ids(patterns.drop_last(), bearing)
    }
}

impl CohortDiagnostics {
    /// Per-pattern facts.
    pub closed spec fn patterns_spec(&self) -> Seq<PatternDiagnostics> {
        self.patterns@
    }

    /// Assertion-free identities.
    pub closed spec fn free_ids_spec(&self) -> Seq<PatternId> {
        self.assertion_free_pattern_ids@
    }

    /// Assertion-bearing identities.
    pub closed spec fn bearing_ids_spec(&self) -> Seq<PatternId> {
        self.assertion_bearing_pattern_ids@
    }

    /// Classifies every pattern and splits identities by cohort.
    pub fn classify(patterns: &Vec<HirPattern>) -> (diagnostics: Self)
        requires
            forall|i: int| 0 <= i < patterns@.len() ==> hir_well_formed(#[trigger] patterns@[i].expression_spec()),
        ensures
            diagnostics.patterns_spec().len() == patterns@.len(),
            forall|i: int| 0 <= i < patterns@.len() ==> (#[trigger] diagnostics.patterns_spec()[i]).describes(i as usize, patterns@[i]),
            diagnostics.free_ids_spec() == cohort_ids(patterns@, false),
            diagnostics.bearing_ids_spec() == cohort_ids(patterns@, true),
    {
        let mut classified: Vec<PatternDiagnostics> = Vec::new();
        let mut free: Vec<PatternId> = Vec::new();
        let mut bearing: Vec<PatternId> = Vec::new();
        let mut ordinal: usize = 0;
        while ordinal < patterns.len()
            invariant
                ordinal <= patterns@.len(),
                forall|i: int| 0 <= i < patterns@.len() ==> hir_well_formed(#[trigger] patterns@[i].expression_spec()),
                classified@.len() == ordinal,
                forall|i: int| 0 <= i < ordinal ==> (#[trigger] classified@[i]).describes(i as usize, patterns@[i]),
                free@ == cohort_ids(patterns@.take(ordinal as int), false),
                bearing@ == cohort_ids(patterns@.take(ordinal as int), true),
            decreases patterns@.len() - ordinal,
        {
            let diagnostics = PatternDiagnostics::classify(ordinal, &patterns[ordinal]);
            proof {
                assert(patterns@.take(ordinal + 1).drop_last() =~= patterns@.take(ordinal as int));
                assert(patterns@.take(ordinal + 1).last() == patterns@[ordinal as int]);
            }
            if diagnostics.uses_assertions() {
                bearing.push(diagnostics.pattern_id());
            } else {
                free.push(diagnostics.pattern_id());
            }
            classified.push(diagnostics);
            ordinal = ordinal + 1;
        }
        proof {
            assert(patterns@.take(ordinal as int) =~= patterns@);
        }
        CohortDiagnostics { patterns: classified, assertion_free_pattern_ids: free, assertion_bearing_pattern_ids: bearing }
    }

    /// Per-pattern facts, in registration order.
    pub fn patterns(&self) -> (patterns: &[PatternDiagnostics])
        ensures
            patterns@ == self.patterns_spec(),
    {
        self.patterns.as_slice()
    }

    /// Identities of the assertion-free patterns, in registration order.
    pub fn assertion_free_pattern_ids(&self) -> (ids: &[PatternId])
        ensures
            ids@ == self.free_ids_spec(),
    {
        self.assertion_free_pattern_ids.as_slice()
    }

    /// Identities of the assertion-bearing patterns, in registration order.
    pub fn assertion_bearing_pattern_ids(&self) -> (ids: &[PatternId])
        ensures
            ids@ == self.bearing_ids_spec(),
    {
        self.assertion_bearing_pattern_ids.as_slice()
    }

    /// Number of non-empty cohorts.
    pub fn cohort_count(&self) -> (count: usize)
        ensures
            count == (if self.free_ids_spec().len() > 0 { 1int } else { 0int }) + (if self.bearing_ids_spec().len() > 0 { 1int } else { 0int }),
    {
        let free: usize = if self.assertion_free_pattern_ids.len() > 0 { 1 } else { 0 };
        let bearing: usize = if self.assertion_bearing_pattern_ids.len() > 0 { 1 } else { 0 };
        free + bearing
    }
}

} // verus!
