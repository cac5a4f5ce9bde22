//! Normalized high-level representation shared by parser and NFA compiler.
use vstd::prelude::*;

use crate::predicate::SymbolPredicate;
use crate::types::PatternId;

verus! {

/// Zero-width context tests.
#[derive(Clone, Copy, Debug, PartialEq, Eq, Hash, Structural)]
pub enum Assertion {
    /// Start of input or just after a newline.
    LineStart,
    /// End of input or just before a newline, after a consumed unit.
    LineEnd,
    /// Between an ASCII word unit and a non-word unit (or an edge).
    WordBoundary,
    /// Not at an ASCII word boundary.
    NonWordBoundary,
}

/// A normalized regular expression over UTF-16 code units.
#[derive(Debug)]
pub enum Hir {
    /// Matches nothing.
    Never,
    /// Matches the empty string.
    Epsilon,
    /// A zero-width context test.
    Assertion(Assertion),
    /// One exact code unit.
    Symbol(u16),
    /// One code unit from a set.
    Predicate(SymbolPredicate),
    /// Concatenation.
    Sequence(Vec<Hir>),
    /// Union.
    Alternation(Vec<Hir>),
    /// Greedy bounded or unbounded repetition.
    Repeat { expression: Box<Hir>, min: u16, max: Option<u16> },
}

/// Saturating addition in `usize`.
pub open spec fn sat_add(a: int, b: int) -> int {
    if a + b > usize::MAX {
        usize::MAX as int
    } else {
        a + b
    }
}

/// Saturating multiplication in `usize`.
pub open spec fn sat_mul(a: int, b: int) -> int {
    if a * b > usize::MAX {
        usize::MAX as int
    } else {
        a * b
    }
}

/// Whether the expression accepts the empty string (assertions count as
/// zero-width).
pub open spec fn nullable_spec(h: Hir) -> bool
    decreases h,
{
    match h {
        Hir::Never => false,
        Hir::Symbol(_) => false,
        Hir::Predicate(_) => false,
        Hir::Epsilon => true,
        Hir::Assertion(_) => true,
        Hir::Sequence(v) => all_nullable(v@),
        Hir::Alternation(v) => any_nullable(v@),
        Hir::Repeat { expression, min, .. } => min == 0 || nullable_spec(*expression),
    }
}

/// Every expression of the sequence is nullable.
pub open spec fn all_nullable(s: Seq<Hir>) -> bool
    decreases s,
{
    if s.len() == 0 {
        true
    } else {
        all_nullable(s.drop_last()) && nullable_spec(s.last())
    }
}

/// Some expression of the sequence is nullable.
pub open spec fn any_nullable(s: Seq<Hir>) -> bool
    decreases s,
{
    if s.len() == 0 {
        false
    } else {
        any_nullable(s.drop_last()) || nullable_spec(s.last())
    }
}

/// Minimum consumed code units (saturating), or `None` when the expression
/// can never match.
pub open spec fn minimum_consumed_spec(h: Hir) -> Option<int>
    decreases h,
{
    match h {
        Hir::Never => None,
        Hir::Epsilon => Some(0),
        Hir::Assertion(_) => Some(0),
        Hir::Symbol(_) => Some(1),
        Hir::Predicate(p) => if p@.0 == 0 && p@.1.len() == 0 {
            None
        } else {
            Some(1)
        },
        Hir::Sequence(v) => sequence_minimum(v@),
        Hir::Alternation(v) => alternation_minimum(v@),
        Hir::Repeat { expression, min, .. } => if min == 0 {
            Some(0)
        } else {
            match minimum_consumed_spec(*expression) {
                Some(length) => Some(sat_mul(length, min as int)),
                None => None,
            }
        },
    }
}

/// Saturating sum of minima, or `None` if any item is impossible.
pub open spec fn sequence_minimum(s: Seq<Hir>) -> Option<int>
    decreases s,
{
    if s.len() == 0 {
        Some(0)
    } else {
        match (sequence_minimum(s.drop_last()), minimum_consumed_spec(s.last())) {
            (Some(total), Some(length)) => Some(sat_add(total, length)),
            _ => None,
        }
    }
}

/// Least minimum among possible branches, or `None` if none is possible.
pub open spec fn alternation_minimum(s: Seq<Hir>) -> Option<int>
    decreases s,
{
    if s.len() == 0 {
        None
    } else {
        match (alternation_minimum(s.drop_last()), minimum_consumed_spec(s.last())) {
            (Some(a), Some(b)) => Some(if b < a {
                b
            } else {
                a
            }),
            (Some(a), None) => Some(a),
            (None, other) => other,
        }
    }
}

/// Whether some match of the expression consumes at least one code unit.
pub open spec fn can_consume_spec(h: Hir) -> bool
    decreases h,
{
    match h {
        Hir::Never => false,
        Hir::Epsilon => false,
        Hir::Assertion(_) => false,
        Hir::Symbol(_) => true,
        Hir::Predicate(p) => !(p@.0 == 0 && p@.1.len() == 0),
        Hir::Sequence(v) => sequence_minimum(v@) is Some && any_can_consume(v@),
        Hir::Alternation(v) => any_can_consume(v@),
        Hir::Repeat { expression, max, .. } => max != Some(0u16) && can_consume_spec(*expression),
    }
}

/// Some expression of the sequence can consume.
pub open spec fn any_can_consume(s: Seq<Hir>) -> bool
    decreases s,
{
    if s.len() == 0 {
        false
    } else {
        any_can_consume(s.drop_last()) || can_consume_spec(s.last())
    }
}

/// Whether any assertion occurs in the expression.
pub open spec fn uses_assertions_spec(h: Hir) -> bool
    decreases h,
{
    match h {
        Hir::Assertion(_) => true,
        Hir::Sequence(v) => any_uses_assertions(v@),
        Hir::Alternation(v) => any_uses_assertions(v@),
        Hir::Repeat { expression, .. } => uses_assertions_spec(*expression),
        _ => false,
    }
}

/// Some expression of the sequence uses an assertion.
pub open spec fn any_uses_assertions(s: Seq<Hir>) -> bool
    decreases s,
{
    if s.len() == 0 {
        false
    } else {
        any_uses_assertions(s.drop_last()) || uses_assertions_spec(s.last())
    }
}

/// Every predicate in the expression is well formed, and every repetition
/// has ordered bounds.
pub open spec fn hir_well_formed(h: Hir) -> bool
    decreases h,
{
    match h {
        Hir::Predicate(p) => p.well_formed(),
        Hir::Sequence(v) => all_well_formed(v@),
        Hir::Alternation(v) => all_well_formed(v@),
        Hir::Repeat { expression, min, max } => (match max {
            Some(limit) => min <= limit,
            None => true,
        }) && hir_well_formed(*expression),
        _ => true,
    }
}

/// Every expression of the sequence is well formed.
pub open spec fn all_well_formed(s: Seq<Hir>) -> bool
    decreases s,
{
    if s.len() == 0 {
        true
    } else {
        all_well_formed(s.drop_last()) && hir_well_formed(s.last())
    }
}

pub proof fn lemma_all_well_formed(s: Seq<Hir>)
    ensures
        all_well_formed(s) == (forall|i: int| 0 <= i < s.len() ==> #[trigger] hir_well_formed(s[i])),
    decreases s.len(),
{
    if s.len() > 0 {
        let prefix = s.drop_last();
        lemma_all_well_formed(prefix);
        if all_well_formed(s) {
            assert forall|i: int| 0 <= i < s.len() implies #[trigger] hir_well_formed(s[i]) by {
                if i < s.len() - 1 {
                    assert(prefix[i] == s[i]);
                    assert(hir_well_formed(prefix[i]));
                }
            }
        }
        if forall|i: int| 0 <= i < s.len() ==> #[trigger] hir_well_formed(s[i]) {
            assert forall|i: int| 0 <= i < prefix.len() implies #[trigger] hir_well_formed(prefix[i]) by {
                assert(prefix[i] == s[i]);
            }
            assert(hir_well_formed(s[s.len() - 1]));
        }
    }
}

/// The items that normalizing a sequence keeps, or `None` when an item is
/// `Never`: epsilons vanish and nested sequences are spliced in.
pub open spec fn flatten_sequence(s: Seq<Hir>) -> Option<Seq<Hir>>
    decreases s,
{
    if s.len() == 0 {
        Some(Seq::empty())
    } else {
        match flatten_sequence(s.drop_last()) {
            None => None,
            Some(prefix) => match s.last() {
                Hir::Never => None,
                Hir::Epsilon => Some(prefix),
                Hir::Sequence(nested) => Some(prefix + nested@),
                other => Some(prefix.push(other)),
            },
        }
    }
}

/// The items that normalizing an alternation keeps: `Never` branches vanish
/// and nested alternations are spliced in.
pub open spec fn flatten_alternation(s: Seq<Hir>) -> Seq<Hir>
    decreases s,
{
    if s.len() == 0 {
        Seq::empty()
    } else {
        let prefix = flatten_alternation(s.drop_last());
        match s.last() {
            Hir::Never => prefix,
            Hir::Alternation(nested) => prefix + nested@,
            other => prefix.push(other),
        }
    }
}

/// `result` is the normalized form of the sequence `items`.
pub open spec fn is_normalized_sequence(items: Seq<Hir>, result: Hir) -> bool {
    match flatten_sequence(items) {
        None => result is Never,
        Some(kept) => if kept.len() == 0 {
            result is Epsilon
        } else if kept.len() == 1 {
            result == kept[0]
        } else {
            result matches Hir::Sequence(v) && v@ == kept
        },
    }
}

/// `result` is the normalized form of the alternation `branches`.
pub open spec fn is_normalized_alternation(branches: Seq<Hir>, result: Hir) -> bool {
    let kept = flatten_alternation(branches);
    if kept.len() == 0 {
        result is Never
    } else if kept.len() == 1 {
        result == kept[0]
    } else {
        result matches Hir::Alternation(v) && v@ == kept
    }
}

/// `result` is the normalized repetition of `expression`.
pub open spec fn is_normalized_repeat(expression: Hir, min: u16, max: Option<u16>, result: Hir) -> bool {
    if max == Some(0u16) || expression is Epsilon || (expression is Never && min == 0) {
        result is Epsilon
    } else if expression is Never {
        result is Never
    } else if min == 1 && max == Some(1u16) {
        result == expression
    } else {
        result matches Hir::Repeat { expression: e, min: m, max: x } && *e == expression && m == min
            && x == max
    }
}

/// Saturating multiplication in `usize`.
pub fn saturating_mul(a: usize, b: usize) -> (product: usize)
    ensures
        product == sat_mul(a as int, b as int),
{
    if b != 0 && a > usize::MAX / b {
        proof {
            assert(a * b > usize::MAX) by (nonlinear_arith)
                requires
                    b > 0,
                    a > usize::MAX / b,
            ;
        }
        usize::MAX
    } else {
        proof {
            if b != 0 {
                assert(a * b <= usize::MAX) by (nonlinear_arith)
                    requires
                        b > 0,
                        a <= usize::MAX / b,
                ;
            }
        }
        a * b
    }
}

/// Reverses a vector by moving its items.
fn reverse_items(items: Vec<Hir>) -> (reversed: Vec<Hir>)
    ensures
        reversed@ == items@.reverse(),
{
    let mut items = items;
    let ghost original = items@;
    let mut reversed: Vec<Hir> = Vec::new();
    while items.len() > 0
        invariant
            original.len() == items@.len() + reversed@.len(),
            items@ == original.subrange(0, items@.len() as int),
            reversed@ == original.subrange(items@.len() as int, original.len() as int).reverse(),
        decreases items@.len(),
    {
        let item = items.pop().unwrap();
        proof {
            let n = items@.len() as int;
            assert(original.subrange(n, original.len() as int).reverse() =~= original.subrange(
                n + 1,
                original.len() as int,
            ).reverse().push(item));
        }
        reversed.push(item);
    }
    proof {
        assert(original.subrange(0, original.len() as int) =~= original);
    }
    reversed
}

impl Hir {
    /// Normalizes a concatenation: drops epsilons, splices nested
    /// sequences, and collapses to `Never` if any item is `Never`.
    pub fn sequence(expressions: Vec<Hir>) -> (normalized: Hir)
        ensures
            is_normalized_sequence(expressions@, normalized),
    {
        let count = expressions.len();
        let ghost items = expressions@;
        let mut pending = reverse_items(expressions);
        let mut kept: Vec<Hir> = Vec::new();
        let mut consumed: usize = 0;
        while pending.len() > 0
            invariant
                items.len() == count,
                items == expressions@,
                consumed + pending@.len() == items.len(),
                pending@ == items.subrange(consumed as int, items.len() as int).reverse(),
                flatten_sequence(items.subrange(0, consumed as int)) == Some(kept@),
            decreases pending@.len(),
        {
            let item = pending.pop().unwrap();
            proof {
                assert(item == items[consumed as int]);
                let next = items.subrange(0, consumed + 1);
                assert(next.drop_last() =~= items.subrange(0, consumed as int));
                assert(next.last() == item);
                assert(items.subrange(consumed + 1, items.len() as int).reverse() =~= pending@);
            }
            match item {
                Hir::Never => {
                    proof {
                        assert(items[consumed as int] is Never);
                        lemma_flatten_sequence_never(items, consumed as int + 1);
                        assert(flatten_sequence(items) is None);
                    }
                    return Hir::Never;
                },
                Hir::Epsilon => {},
                Hir::Sequence(nested) => {
                    let mut nested = nested;
                    kept.append(&mut nested);
                },
                other => {
                    kept.push(other);
                },
            }
            consumed = consumed + 1;
        }
        proof {
            assert(items.subrange(0, items.len() as int) =~= items);
        }
        if kept.len() == 0 {
            Hir::Epsilon
        } else if kept.len() == 1 {
            kept.pop().unwrap()
        } else {
            Hir::Sequence(kept)
        }
    }

    /// Normalizes a union: drops `Never` branches and splices nested
    /// alternations.
    pub fn alternation(expressions: Vec<Hir>) -> (normalized: Hir)
        ensures
            is_normalized_alternation(expressions@, normalized),
    {
        let count = expressions.len();
        let ghost items = expressions@;
        let mut pending = reverse_items(expressions);
        let mut kept: Vec<Hir> = Vec::new();
        let mut consumed: usize = 0;
        while pending.len() > 0
            invariant
                items.len() == count,
                consumed + pending@.len() == items.len(),
                pending@ == items.subrange(consumed as int, items.len() as int).reverse(),
                flatten_alternation(items.subrange(0, consumed as int)) == kept@,
            decreases pending@.len(),
        {
            let item = pending.pop().unwrap();
            proof {
                assert(item == items[consumed as int]);
                let next = items.subrange(0, consumed + 1);
                assert(next.drop_last() =~= items.subrange(0, consumed as int));
                assert(next.last() == item);
                assert(items.subrange(consumed + 1, items.len() as int).reverse() =~= pending@);
            }
            match item {
                Hir::Never => {},
                Hir::Alternation(nested) => {
                    let mut nested = nested;
                    kept.append(&mut nested);
                },
                other => {
                    kept.push(other);
                },
            }
            consumed = consumed + 1;
        }
        proof {
            assert(items.subrange(0, items.len() as int) =~= items);
        }
        if kept.len() == 0 {
            Hir::Never
        } else if kept.len() == 1 {
            kept.pop().unwrap()
        } else {
            Hir::Alternation(kept)
        }
    }

    /// Normalizes a repetition.
    pub fn repeat(expression: Hir, min: u16, max: Option<u16>) -> (normalized: Hir)
        ensures
            is_normalized_repeat(expression, min, max, normalized),
    {
        let zero_max = match max {
            Some(limit) => limit == 0,
            None => false,
        };
        let exactly_once = min == 1 && match max {
            Some(limit) => limit == 1,
            None => false,
        };
        match expression {
            Hir::Epsilon => Hir::Epsilon,
            Hir::Never => {
                if min == 0 || zero_max {
                    Hir::Epsilon
                } else {
                    Hir::Never
                }
            },
            other => {
                if zero_max {
                    Hir::Epsilon
                } else if exactly_once {
                    other
                } else {
                    Hir::Repeat { expression: Box::new(other), min, max }
                }
            },
        }
    }

    /// Whether the expression accepts without consuming input.
    pub fn nullable(&self) -> (nullable: bool)
        ensures
            nullable == nullable_spec(*self),
        decreases self,
    {
        match self {
            Hir::Never | Hir::Symbol(_) | Hir::Predicate(_) => false,
            Hir::Epsilon | Hir::Assertion(_) => true,
            Hir::Sequence(items) => {
                let mut index: usize = 0;
                while index < items.len()
                    invariant
                        index <= items@.len(),
                        *self matches Hir::Sequence(w) && w == *items,
                        all_nullable(items@.subrange(0, index as int)),
                    decreases items@.len() - index,
                {
                    proof {
                        lemma_item_decreases(*self, *items, index as int);
                    }
                    let item_nullable = items[index].nullable();
                    proof {
                        let next = items@.subrange(0, index + 1);
                        assert(next.drop_last() =~= items@.subrange(0, index as int));
                    }
                    if !item_nullable {
                        proof {
                            lemma_all_nullable_prefix(items@, index as int + 1);
                        }
                        return false;
                    }
                    index = index + 1;
                }
                proof {
                    assert(items@.subrange(0, items@.len() as int) =~= items@);
                }
                true
            },
            Hir::Alternation(items) => {
                let mut index: usize = 0;
                while index < items.len()
                    invariant
                        index <= items@.len(),
                        *self matches Hir::Alternation(w) && w == *items,
                        !any_nullable(items@.subrange(0, index as int)),
                    decreases items@.len() - index,
                {
                    proof {
                        lemma_item_decreases(*self, *items, index as int);
                    }
                    let item_nullable = items[index].nullable();
                    proof {
                        let next = items@.subrange(0, index + 1);
                        assert(next.drop_last() =~= items@.subrange(0, index as int));
                    }
                    if item_nullable {
                        proof {
                            lemma_any_nullable_prefix(items@, index as int + 1);
                        }
                        return true;
                    }
                    index = index + 1;
                }
                proof {
                    assert(items@.subrange(0, items@.len() as int) =~= items@);
                }
                false
            },
            Hir::Repeat { expression, min, .. } => *min == 0 || expression.nullable(),
        }
    }

    /// Minimum consumed code units, or `None` for an impossible expression.
    pub fn minimum_consumed(&self) -> (minimum: Option<usize>)
        ensures
            match minimum {
                Some(m) => minimum_consumed_spec(*self) == Some(m as int),
                None => minimum_consumed_spec(*self) is None,
            },
        decreases self,
    {
        match self {
            Hir::Never => None,
            Hir::Epsilon | Hir::Assertion(_) => Some(0),
            Hir::Symbol(_) => Some(1),
            Hir::Predicate(predicate) => {
                if predicate.is_empty() {
                    None
                } else {
                    Some(1)
                }
            },
            Hir::Sequence(items) => {
                let mut total: usize = 0;
                let mut index: usize = 0;
                while index < items.len()
                    invariant
                        index <= items@.len(),
                        *self matches Hir::Sequence(w) && w == *items,
                        sequence_minimum(items@.subrange(0, index as int)) == Some(total as int),
                    decreases items@.len() - index,
                {
                    proof {
                        lemma_item_decreases(*self, *items, index as int);
                    }
                    let item_minimum = items[index].minimum_consumed();
                    proof {
                        let next = items@.subrange(0, index + 1);
                        assert(next.drop_last() =~= items@.subrange(0, index as int));
                    }
                    match item_minimum {
                        None => {
                            proof {
                                lemma_sequence_minimum_prefix(items@, index as int + 1);
                            }
                            return None;
                        },
                        Some(length) => {
                            total = total.saturating_add(length);
                        },
                    }
                    index = index + 1;
                }
                proof {
                    assert(items@.subrange(0, items@.len() as int) =~= items@);
                }
                Some(total)
            },
            Hir::Alternation(items) => {
                let mut best: Option<usize> = None;
                let mut index: usize = 0;
                while index < items.len()
                    invariant
                        index <= items@.len(),
                        *self matches Hir::Alternation(w) && w == *items,
                        match best {
                            Some(b) => alternation_minimum(items@.subrange(0, index as int))
                                == Some(b as int),
                            None => alternation_minimum(items@.subrange(0, index as int)) is None,
                        },
                    decreases items@.len() - index,
                {
                    proof {
                        lemma_item_decreases(*self, *items, index as int);
                    }
                    let item_minimum = items[index].minimum_consumed();
                    proof {
                        let next = items@.subrange(0, index + 1);
                        assert(next.drop_last() =~= items@.subrange(0, index as int));
                    }
                    best = match (best, item_minimum) {
                        (Some(a), Some(b)) => Some(
                            if b < a {
                                b
                            } else {
                                a
                            },
                        ),
                        (Some(a), None) => Some(a),
                        (None, other) => other,
                    };
                    index = index + 1;
                }
                proof {
                    assert(items@.subrange(0, items@.len() as int) =~= items@);
                }
                best
            },
            Hir::Repeat { expression, min, .. } => {
                if *min == 0 {
                    Some(0)
                } else {
                    match expression.minimum_consumed() {
                        Some(length) => Some(saturating_mul(length, *min as usize)),
                        None => None,
                    }
                }
            },
        }
    }

    /// Whether some match of the expression consumes input.
    pub fn can_consume(&self) -> (consumes: bool)
        ensures
            consumes == can_consume_spec(*self),
        decreases self,
    {
        match self {
            Hir::Never | Hir::Epsilon | Hir::Assertion(_) => false,
            Hir::Symbol(_) => true,
            Hir::Predicate(predicate) => !predicate.is_empty(),
            Hir::Sequence(items) => {
                if self.minimum_consumed().is_none() {
                    return false;
                }
                Self::any_consumes(items, self)
            },
            Hir::Alternation(items) => Self::any_consumes(items, self),
            Hir::Repeat { expression, max, .. } => {
                let zero_max = match max {
                    Some(limit) => *limit == 0,
                    None => false,
                };
                !zero_max && expression.can_consume()
            },
        }
    }

    fn any_consumes(items: &Vec<Hir>, parent: &Hir) -> (consumes: bool)
        requires
            (parent matches Hir::Sequence(v) && v == items) || (parent matches Hir::Alternation(v)
                && v == items),
        ensures
            consumes == any_can_consume(items@),
        decreases parent, 0nat,
    {
        let mut index: usize = 0;
        while index < items.len()
            invariant
                index <= items@.len(),
                (parent matches Hir::Sequence(v) && v == items) || (parent matches Hir::Alternation(v)
                    && v == items),
                !any_can_consume(items@.subrange(0, index as int)),
            decreases items@.len() - index,
        {
            proof {
                lemma_item_decreases(*parent, *items, index as int);
            }
            let item_consumes = items[index].can_consume();
            proof {
                let next = items@.subrange(0, index + 1);
                assert(next.drop_last() =~= items@.subrange(0, index as int));
            }
            if item_consumes {
                proof {
                    lemma_any_can_consume_prefix(items@, index as int + 1);
                }
                return true;
            }
            index = index + 1;
        }
        proof {
            assert(items@.subrange(0, items@.len() as int) =~= items@);
        }
        false
    }

    /// Whether any line or word assertion occurs in the expression.
    pub fn uses_assertions(&self) -> (uses: bool)
        ensures
            uses == uses_assertions_spec(*self),
        decreases self,
    {
        match self {
            Hir::Assertion(_) => true,
            Hir::Sequence(items) | Hir::Alternation(items) => {
                let mut index: usize = 0;
                while index < items.len()
                    invariant
                        index <= items@.len(),
                        (*self matches Hir::Sequence(w) && w == *items) || (*self matches Hir::Alternation(w)
                            && w == *items),
                        !any_uses_assertions(items@.subrange(0, index as int)),
                    decreases items@.len() - index,
                {
                    proof {
                        lemma_item_decreases(*self, *items, index as int);
                    }
                    let item_uses = items[index].uses_assertions();
                    proof {
                        let next = items@.subrange(0, index + 1);
                        assert(next.drop_last() =~= items@.subrange(0, index as int));
                    }
                    if item_uses {
                        proof {
                            lemma_any_uses_assertions_prefix(items@, index as int + 1);
                        }
                        return true;
                    }
                    index = index + 1;
                }
                proof {
                    assert(items@.subrange(0, items@.len() as int) =~= items@);
                }
                false
            },
            Hir::Repeat { expression, .. } => expression.uses_assertions(),
            _ => false,
        }
    }
}

/// Items of a sequence or alternation are structurally smaller than it.
pub proof fn lemma_item_decreases(h: Hir, v: Vec<Hir>, i: int)
    requires
        (h matches Hir::Sequence(w) && w == v) || (h matches Hir::Alternation(w) && w == v),
        0 <= i < v@.len(),
    ensures
        decreases_to!(h => v@[i]),
{
    match h {
        Hir::Sequence(w) => {
            assert(decreases_to!(h => w));
        },
        Hir::Alternation(w) => {
            assert(decreases_to!(h => w));
        },
        _ => {},
    }
    assert(decreases_to!(v => v@));
    assert(decreases_to!(v@ => v@[i]));
}

proof fn lemma_flatten_sequence_wf(items: Seq<Hir>)
    requires
        forall|i: int| 0 <= i < items.len() ==> #[trigger] hir_well_formed(items[i]),
    ensures
        flatten_sequence(items) matches Some(kept) ==> forall|j: int|
            0 <= j < kept.len() ==> #[trigger] hir_well_formed(kept[j]),
    decreases items.len(),
{
    if items.len() > 0 {
        let prefix = items.drop_last();
        assert forall|i: int| 0 <= i < prefix.len() implies #[trigger] hir_well_formed(prefix[i]) by {
            assert(prefix[i] == items[i]);
        }
        lemma_flatten_sequence_wf(prefix);
        let last = items.last();
        assert(hir_well_formed(items[items.len() - 1]));
        if let Some(kept_prefix) = flatten_sequence(prefix) {
            match last {
                Hir::Sequence(nested) => {
                    lemma_all_well_formed(nested@);
                    let kept = kept_prefix + nested@;
                    assert forall|j: int| 0 <= j < kept.len() implies #[trigger] hir_well_formed(
                        kept[j],
                    ) by {
                        if j < kept_prefix.len() {
                            assert(hir_well_formed(kept_prefix[j]));
                        } else {
                            assert(kept[j] == nested@[j - kept_prefix.len()]);
                        }
                    }
                },
                Hir::Never => {},
                Hir::Epsilon => {},
                _ => {
                    let kept = kept_prefix.push(last);
                    assert forall|j: int| 0 <= j < kept.len() implies #[trigger] hir_well_formed(
                        kept[j],
                    ) by {
                        if j < kept_prefix.len() {
                            assert(hir_well_formed(kept_prefix[j]));
                        }
                    }
                },
            }
        }
    }
}

proof fn lemma_flatten_alternation_wf(items: Seq<Hir>)
    requires
        forall|i: int| 0 <= i < items.len() ==> #[trigger] hir_well_formed(items[i]),
    ensures
        forall|j: int|
            0 <= j < flatten_alternation(items).len() ==> #[trigger] hir_well_formed(
                flatten_alternation(items)[j],
            ),
    decreases items.len(),
{
    if items.len() > 0 {
        let prefix = items.drop_last();
        assert forall|i: int| 0 <= i < prefix.len() implies #[trigger] hir_well_formed(prefix[i]) by {
            assert(prefix[i] == items[i]);
        }
        lemma_flatten_alternation_wf(prefix);
        let kept_prefix = flatten_alternation(prefix);
        let last = items.last();
        assert(hir_well_formed(items[items.len() - 1]));
        let kept = flatten_alternation(items);
        match last {
            Hir::Alternation(nested) => {
                lemma_all_well_formed(nested@);
                assert forall|j: int| 0 <= j < kept.len() implies #[trigger] hir_well_formed(
                    kept[j],
                ) by {
                    if j < kept_prefix.len() {
                        assert(hir_well_formed(kept_prefix[j]));
                    } else {
                        assert(kept[j] == nested@[j - kept_prefix.len()]);
                    }
                }
            },
            Hir::Never => {},
            _ => {
                assert forall|j: int| 0 <= j < kept.len() implies #[trigger] hir_well_formed(
                    kept[j],
                ) by {
                    if j < kept_prefix.len() {
                        assert(hir_well_formed(kept_prefix[j]));
                    }
                }
            },
        }
    }
}

/// Normalizing a sequence of well-formed expressions keeps it well formed.
pub proof fn lemma_normalized_sequence_wf(items: Seq<Hir>, result: Hir)
    requires
        forall|i: int| 0 <= i < items.len() ==> #[trigger] hir_well_formed(items[i]),
        is_normalized_sequence(items, result),
    ensures
        hir_well_formed(result),
{
    lemma_flatten_sequence_wf(items);
    if let Some(kept) = flatten_sequence(items) {
        if kept.len() == 1 {
            assert(hir_well_formed(kept[0]));
        } else if kept.len() > 1 {
            lemma_all_well_formed(kept);
        }
    }
}

/// Normalizing an alternation of well-formed expressions keeps it well
/// formed.
pub proof fn lemma_normalized_alternation_wf(items: Seq<Hir>, result: Hir)
    requires
        forall|i: int| 0 <= i < items.len() ==> #[trigger] hir_well_formed(items[i]),
        is_normalized_alternation(items, result),
    ensures
        hir_well_formed(result),
{
    lemma_flatten_alternation_wf(items);
    let kept = flatten_alternation(items);
    if kept.len() == 1 {
        assert(hir_well_formed(kept[0]));
    } else if kept.len() > 1 {
        lemma_all_well_formed(kept);
    }
}

proof fn lemma_flatten_sequence_never(items: Seq<Hir>, n: int)
    requires
        0 < n <= items.len(),
        items[n - 1] is Never,
    ensures
        flatten_sequence(items) is None,
    decreases items.len(),
{
    if items.len() > n {
        assert(items.drop_last()[n - 1] == items[n - 1]);
        lemma_flatten_sequence_never(items.drop_last(), n);
    }
}

proof fn lemma_all_nullable_prefix(items: Seq<Hir>, n: int)
    requires
        0 < n <= items.len(),
        !nullable_spec(items[n - 1]),
    ensures
        !all_nullable(items),
    decreases items.len(),
{
    if items.len() > n {
        assert(items.drop_last()[n - 1] == items[n - 1]);
        lemma_all_nullable_prefix(items.drop_last(), n);
    }
}

proof fn lemma_any_nullable_prefix(items: Seq<Hir>, n: int)
    requires
        0 < n <= items.len(),
        nullable_spec(items[n - 1]),
    ensures
        any_nullable(items),
    decreases items.len(),
{
    if items.len() > n {
        assert(items.drop_last()[n - 1] == items[n - 1]);
        lemma_any_nullable_prefix(items.drop_last(), n);
    }
}

proof fn lemma_sequence_minimum_prefix(items: Seq<Hir>, n: int)
    requires
        0 < n <= items.len(),
        minimum_consumed_spec(items[n - 1]) is None,
    ensures
        sequence_minimum(items) is None,
    decreases items.len(),
{
    if items.len() > n {
        assert(items.drop_last()[n - 1] == items[n - 1]);
        lemma_sequence_minimum_prefix(items.drop_last(), n);
    }
}

proof fn lemma_any_can_consume_prefix(items: Seq<Hir>, n: int)
    requires
        0 < n <= items.len(),
        can_consume_spec(items[n - 1]),
    ensures
        any_can_consume(items),
    decreases items.len(),
{
    if items.len() > n {
        assert(items.drop_last()[n - 1] == items[n - 1]);
        lemma_any_can_consume_prefix(items.drop_last(), n);
    }
}

proof fn lemma_any_uses_assertions_prefix(items: Seq<Hir>, n: int)
    requires
        0 < n <= items.len(),
        uses_assertions_spec(items[n - 1]),
    ensures
        any_uses_assertions(items),
    decreases items.len(),
{
    if items.len() > n {
        assert(items.drop_last()[n - 1] == items[n - 1]);
        lemma_any_uses_assertions_prefix(items.drop_last(), n);
    }
}

/// One parsed pattern with its caller-supplied identity.
#[derive(Debug)]
pub struct HirPattern {
    pattern_id: PatternId,
    expression: Hir,
    nullable: bool,
    minimum_consumed: Option<usize>,
}

impl HirPattern {
    /// Records a pattern and its expression's nullability and minimum.
    pub fn new(pattern_id: PatternId, expression: Hir) -> (pattern: Self)
        ensures
            pattern.pattern_id_spec() == pattern_id,
            pattern.expression_spec() == expression,
            pattern.nullable_spec() == nullable_spec(expression),
            match pattern.minimum_consumed_spec() {
                Some(m) => minimum_consumed_spec(expression) == Some(m as int),
                None => minimum_consumed_spec(expression) is None,
            },
    {
        let nullable = expression.nullable();
        let minimum_consumed = expression.minimum_consumed();
        HirPattern { pattern_id, expression, nullable, minimum_consumed }
    }

    pub closed spec fn pattern_id_spec(&self) -> PatternId {
        self.pattern_id
    }

    pub closed spec fn expression_spec(&self) -> Hir {
        self.expression
    }

    pub closed spec fn nullable_spec(&self) -> bool {
        self.nullable
    }

    pub closed spec fn minimum_consumed_spec(&self) -> Option<usize> {
        self.minimum_consumed
    }

    /// The caller-supplied identity.
    pub fn pattern_id(&self) -> (id: PatternId)
        ensures
            id == self.pattern_id_spec(),
    {
        self.pattern_id
    }

    /// The normalized expression.
    pub fn expression(&self) -> (expression: &Hir)
        ensures
            *expression == self.expression_spec(),
    {
        &self.expression
    }

    /// Whether the expression accepts without consuming input.
    pub fn nullable(&self) -> (nullable: bool)
        ensures
            nullable == self.nullable_spec(),
    {
        self.nullable
    }

    /// Minimum consumed code units, or `None` for an impossible expression.
    pub fn minimum_consumed(&self) -> (minimum: Option<usize>)
        ensures
            minimum == self.minimum_consumed_spec(),
    {
        self.minimum_consumed
    }
}

} // verus!
