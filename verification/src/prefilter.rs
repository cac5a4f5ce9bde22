//! Conservative candidate-start selection ahead of the automaton scan.
use vstd::prelude::*;

use crate::language::literal_units;

use crate::bits::{bit_at, contains_bit, set_bit, zero_words};
use crate::closure::{compute_transition, context_view, extend_closure, marked, states_in_range};
use crate::engine::Scratch;
use crate::hir::{lemma_item_decreases, Hir, HirPattern};
use crate::nfa::{PatternDatabase, StateId};
use crate::semantics::{
    accepts, active_set, closed_under, closure, consumed, context_after, context_before,
    lemma_closure_empty, lemma_closure_input_free, lemma_dead_stays_dead, longest_end,
    longest_match, scan_events, start_events, all_starts,
};

verus! {

/// The root closure, which reads no input without assertions.
pub open spec fn root_set(db: PatternDatabase) -> Set<StateId> {
    closure(db, seq![], None, set![db.root_spec()])
}

/// States reached from `from` by consuming `c`.
pub open spec fn step_set(db: PatternDatabase, from: Set<StateId>, c: u16) -> Set<StateId> {
    closure(db, seq![], None, consumed(db, from, c))
}

/// Some member of `set` accepts some pattern.
pub open spec fn any_terminal(db: PatternDatabase, set: Set<StateId>) -> bool {
    exists|s: StateId| set.contains(s) && (#[trigger] db.terminal_table()[s.0 as int]).len() > 0
}

/// A match can begin with ASCII unit `first`.
pub open spec fn first_viable(db: PatternDatabase, first: u16) -> bool {
    step_set(db, root_set(db), first) != Set::<StateId>::empty()
}

/// A match can begin with ASCII units `first`, `second`, or ends after
/// `first`.
pub open spec fn pair_viable(db: PatternDatabase, first: u16, second: u16) -> bool {
    let after_first = step_set(db, root_set(db), first);
    first_viable(db, first) && (any_terminal(db, after_first) || step_set(db, after_first, second)
        != Set::<StateId>::empty())
}

/// Which ASCII first units and unit pairs can begin a match.
pub struct StartTable {
    first_ascii: Vec<u64>,
    pair_ascii: Vec<u64>,
}

impl StartTable {
    /// The table records exactly the viable first units and pairs of `db`.
    pub closed spec fn valid(&self, db: PatternDatabase) -> bool {
        &&& self.first_ascii@.len() == 2
        &&& self.pair_ascii@.len() == 256
        &&& forall|c: u16| c < 128 ==> (#[trigger] bit_at(self.first_ascii@, c as int)) == first_viable(db, c)
        &&& forall|c: u16, d: u16|
            c < 128 && d < 128 ==> (#[trigger] bit_at(self.pair_ascii@, c * 128 + d)) == pair_viable(db, c, d)
    }

    /// Whether a match may start at `start`, as far as the table can tell.
    pub closed spec fn allows_spec(&self, input: Seq<u16>, start: int) -> bool {
        let first = input[start];
        ||| first >= 128
        ||| (bit_at(self.first_ascii@, first as int) && (start + 1 >= input.len() || input[start
            + 1] >= 128 || bit_at(self.pair_ascii@, first * 128 + input[start + 1])))
    }

    /// Builds the table, unless the patterns hold assertions.
    pub fn compile(db: &PatternDatabase) -> (table: Option<StartTable>)
        requires
            db.well_formed(),
        ensures
            db.uses_assertions_spec() <==> table is None,
            table matches Some(t) ==> t.valid(*db),
    {
        if db.uses_assertions() {
            return None;
        }
        let mut scratch = Scratch::new(db);
        let empty: Vec<u16> = Vec::new();
        let generation = scratch.fresh_generation();
        let mut root: Vec<StateId> = Vec::new();
        proof {
            assert(root@.to_set() =~= Set::<StateId>::empty());
            assert(marked(scratch.marks@, generation) =~= Set::<StateId>::empty());
            lemma_closure_empty(*db, empty@, None);
            assert(closed_under(*db, empty@, None, Set::<StateId>::empty()));
        }
        extend_closure(db, empty.as_slice(), None, db.root(), &mut root, &mut scratch.marks, generation, &mut scratch.stack);
        proof {
            assert(empty@ == Seq::<u16>::empty());
            assert(root@.to_set() =~= root_set(*db));
            assert forall|i: int| 0 <= i < scratch.marks@.len() implies #[trigger] scratch.marks@[i] <= scratch.generation by {}
        }
        let mut first_ascii = zero_words(2);
        let mut pair_ascii = zero_words(256);
        let mut first: u16 = 0;
        while first < 128
            invariant
                db.well_formed(),
                !db.uses_assertions_spec(),
                empty@ == Seq::<u16>::empty(),
                first <= 128,
                root@.to_set() == root_set(*db),
                states_in_range(root@, db.state_count_spec()),
                scratch.marks_ready(db.state_count_spec()),
                first_ascii@.len() == 2,
                pair_ascii@.len() == 256,
                forall|c: u16| c < 128 ==> (#[trigger] bit_at(first_ascii@, c as int)) == (c < first && first_viable(*db, c)),
                forall|c: u16, d: u16|
                    c < 128 && d < 128 ==> (#[trigger] bit_at(pair_ascii@, c * 128 + d)) == (c < first && pair_viable(*db, c, d)),
            decreases 128 - first,
        {
            let generation = scratch.fresh_generation();
            let mut first_states: Vec<StateId> = Vec::new();
            proof {
                assert(marked(scratch.marks@, generation) =~= Set::<StateId>::empty());
            }
            compute_transition(db, empty.as_slice(), None, root.as_slice(), first, &mut first_states, &mut scratch.marks, generation, &mut scratch.stack);
            proof {
                assert forall|i: int| 0 <= i < scratch.marks@.len() implies #[trigger] scratch.marks@[i] <= scratch.generation by {}
                assert(first_states@.to_set() == step_set(*db, root_set(*db), first));
            }
            if first_states.len() == 0 {
                proof {
                    assert(first_states@.to_set() =~= Set::<StateId>::empty());
                    assert(!first_viable(*db, first));
                    assert forall|c: u16, d: u16|
                        c < 128 && d < 128 implies (#[trigger] bit_at(pair_ascii@, c * 128 + d)) == (c < first + 1 && pair_viable(*db, c, d)) by {
                        if c == first {
                            assert(!pair_viable(*db, c, d));
                        }
                    }
                }
                first = first + 1;
                continue;
            }
            proof {
                assert(first_states@.contains(first_states@[0]));
                assert(first_states@.to_set().contains(first_states@[0]));
                assert(first_viable(*db, first));
            }
            set_bit(&mut first_ascii, first as usize);
            let accepts_after_first = any_accepting(db, first_states.as_slice());
            let mut second: u16 = 0;
            let ghost before_pairs = pair_ascii@;
            while second < 128
                invariant
                    db.well_formed(),
                    empty@ == Seq::<u16>::empty(),
                    first < 128,
                    second <= 128,
                    states_in_range(first_states@, db.state_count_spec()),
                    first_states@.to_set() == step_set(*db, root_set(*db), first),
                    first_viable(*db, first),
                    accepts_after_first == any_terminal(*db, first_states@.to_set()),
                    scratch.marks_ready(db.state_count_spec()),
                    pair_ascii@.len() == 256,
                    forall|c: u16, d: u16|
                        c < 128 && d < 128 ==> (#[trigger] bit_at(pair_ascii@, c * 128 + d)) == ((c < first && pair_viable(*db, c, d)) || (c == first && d < second && pair_viable(*db, c, d))),
                decreases 128 - second,
            {
                let ghost prior = pair_ascii@;
                let viable = if accepts_after_first {
                    true
                } else {
                    let generation = scratch.fresh_generation();
                    let mut second_states: Vec<StateId> = Vec::new();
                    proof {
                        assert(marked(scratch.marks@, generation) =~= Set::<StateId>::empty());
                    }
                    compute_transition(db, empty.as_slice(), None, first_states.as_slice(), second, &mut second_states, &mut scratch.marks, generation, &mut scratch.stack);
                    proof {
                        assert forall|i: int| 0 <= i < scratch.marks@.len() implies #[trigger] scratch.marks@[i] <= scratch.generation by {}
                        if second_states@.len() == 0 {
                            assert(second_states@.to_set() =~= Set::<StateId>::empty());
                        } else {
                            assert(second_states@.contains(second_states@[0]));
                            assert(second_states@.to_set().contains(second_states@[0]));
                        }
                    }
                    second_states.len() > 0
                };
                proof {
                    assert(viable == pair_viable(*db, first, second));
                }
                if viable {
                    let pair = (first as usize) * 128 + (second as usize);
                    set_bit(&mut pair_ascii, pair);
                    proof {
                        assert forall|c: u16, d: u16|
                            c < 128 && d < 128 implies (#[trigger] bit_at(pair_ascii@, c * 128 + d)) == ((c < first && pair_viable(*db, c, d)) || (c == first && d < second + 1 && pair_viable(*db, c, d))) by {
                            lemma_pair_index(c, d, first, second);
                        }
                    }
                } else {
                    proof {
                        assert forall|c: u16, d: u16|
                            c < 128 && d < 128 implies (#[trigger] bit_at(pair_ascii@, c * 128 + d)) == ((c < first && pair_viable(*db, c, d)) || (c == first && d < second + 1 && pair_viable(*db, c, d))) by {
                        }
                    }
                }
                second = second + 1;
            }
            first = first + 1;
        }
        Some(StartTable { first_ascii, pair_ascii })
    }

    /// Whether a match may start at `start`; `false` only where no match
    /// can start.
    pub fn allows(&self, input: &[u16], start: usize) -> (allowed: bool)
        requires
            self.well_shaped(),
            start < input@.len(),
        ensures
            allowed == self.allows_spec(input@, start as int),
    {
        let first = input[start];
        if first >= 128 {
            return true;
        }
        if !contains_bit(self.first_ascii.as_slice(), first as usize) {
            return false;
        }
        if start + 1 >= input.len() {
            return true;
        }
        let second = input[start + 1];
        if second >= 128 {
            return true;
        }
        let pair = (first as usize) * 128 + (second as usize);
        contains_bit(self.pair_ascii.as_slice(), pair)
    }

    /// The table's words have their fixed sizes.
    pub closed spec fn well_shaped(&self) -> bool {
        self.first_ascii@.len() == 2 && self.pair_ascii@.len() == 256
    }

    /// A valid table is well shaped.
    pub proof fn lemma_valid_shaped(&self, db: PatternDatabase)
        requires
            self.valid(db),
        ensures
            self.well_shaped(),
    {
    }

    /// Bytes the table holds.
    pub fn retained_bytes(&self) -> (bytes: usize)
        ensures
            bytes == 2072,
    {
        2072
    }
}

proof fn lemma_pair_index(c: u16, d: u16, e: u16, f: u16)
    requires
        c < 128,
        d < 128,
        e < 128,
        f < 128,
    ensures
        (c * 128 + d == e * 128 + f) <==> (c == e && d == f),
{
    assert((c * 128 + d == e * 128 + f) <==> (c == e && d == f)) by (nonlinear_arith)
        requires
            c < 128,
            d < 128,
            e < 128,
            f < 128,
    ;
}

/// Whether some state of `states` accepts a pattern.
fn any_accepting(db: &PatternDatabase, states: &[StateId]) -> (found: bool)
    requires
        db.well_formed(),
        states_in_range(states@, db.state_count_spec()),
    ensures
        found == any_terminal(*db, states@.to_set()),
{
    let mut i: usize = 0;
    while i < states.len()
        invariant
            db.well_formed(),
            states_in_range(states@, db.state_count_spec()),
            i <= states@.len(),
            forall|k: int| 0 <= k < i ==> (#[trigger] db.terminal_table()[states@[k].0 as int]).len() == 0,
        decreases states@.len() - i,
    {
        if db.terminals_at(states[i]).len() > 0 {
            proof {
                assert(states@.contains(states@[i as int]));
                assert(states@.to_set().contains(states@[i as int]));
            }
            return true;
        }
        i = i + 1;
    }
    proof {
        if any_terminal(*db, states@.to_set()) {
            let s = choose|s: StateId| states@.to_set().contains(s) && (#[trigger] db.terminal_table()[s.0 as int]).len() > 0;
            let k = choose|k: int| 0 <= k < states@.len() && states@[k] == s;
            assert(db.terminal_table()[states@[k].0 as int].len() == 0);
        }
    }
    false
}

/// Start positions below `n` that `table` lets through, in order.
pub open spec fn table_starts(table: StartTable, input: Seq<u16>, n: int) -> Seq<int>
    decreases n,
{
    if n <= 0 {
        seq![]
    } else if table.allows_spec(input, n - 1) {
        table_starts(table, input, n - 1).push(n - 1)
    } else {
        table_starts(table, input, n - 1)
    }
}

/// No pattern matches from `start`.
pub open spec fn no_match_at(db: PatternDatabase, input: Seq<u16>, start: int) -> bool {
    forall|o: int| 0 <= o < db.pattern_table().len() ==> #[trigger] longest_match(db, input, start, o) is None
}

/// A start the table rejects begins no match: the table only ever skips
/// work, never a match.
pub proof fn lemma_start_table_sound(table: StartTable, db: PatternDatabase, input: Seq<u16>, start: int)
    requires
        db.well_formed(),
        !db.uses_assertions_spec(),
        table.valid(db),
        0 <= start < input.len(),
        !table.allows_spec(input, start),
    ensures
        no_match_at(db, input, start),
        start_events(db, input, start, db.pattern_table().len()) == Seq::<(u32, u64, u64)>::empty(),
{
    let first = input[start];
    lemma_closure_input_free(db, input, seq![], set![db.root_spec()]);
    let s0 = active_set(db, input, start, 0);
    assert(s0 == root_set(db));
    let s1 = active_set(db, input, start, 1);
    lemma_closure_input_free(db, input, seq![], consumed(db, s0, first));
    assert(s1 == step_set(db, root_set(db), first));
    let k: nat = if !bit_at(table.first_ascii@, first as int) {
        1
    } else {
        2
    };
    if k == 2 {
        let second = input[start + 1];
        assert(!pair_viable(db, first, second));
        assert(first_viable(db, first));
        let s2 = active_set(db, input, start, 2);
        lemma_closure_input_free(db, input, seq![], consumed(db, s1, second));
        assert(s2 == step_set(db, s1, second));
        assert(!any_terminal(db, s1));
    }
    assert(active_set(db, input, start, k) == Set::<StateId>::empty());
    assert forall|o: int| 0 <= o < db.pattern_table().len() implies #[trigger] longest_match(db, input, start, o) is None by {
        lemma_dead_stays_dead(db, input, start, o, k, (input.len() - start) as nat);
        assert(longest_end(db, input, start, o, 0) is None);
        if k == 2 {
            if accepts(db, s1, o) {
                let s = choose|s: StateId| s1.contains(s) && #[trigger] db.terminal_table()[s.0 as int].contains(o as usize);
                assert(db.terminal_table()[s.0 as int].len() > 0);
            }
            assert(longest_end(db, input, start, o, 1) is None);
            assert(!accepts(db, active_set(db, input, start, 2), o));
            assert(longest_end(db, input, start, o, 2) is None);
        } else {
            assert(!accepts(db, active_set(db, input, start, 1), o));
            assert(longest_end(db, input, start, o, 1) is None);
        }
    }
    lemma_no_events(db, input, start, db.pattern_table().len());
}

proof fn lemma_no_events(db: PatternDatabase, input: Seq<u16>, start: int, n: nat)
    requires
        no_match_at(db, input, start),
        n <= db.pattern_table().len(),
    ensures
        start_events(db, input, start, n) == Seq::<(u32, u64, u64)>::empty(),
    decreases n,
{
    if n > 0 {
        lemma_no_events(db, input, start, (n - 1) as nat);
        assert(longest_match(db, input, start, n - 1) is None);
        assert(start_events(db, input, start, n) =~= Seq::<(u32, u64, u64)>::empty());
    }
}

/// Scanning only the starts the table lets through reports exactly what
/// scanning every start reports.
pub proof fn lemma_start_table_scan(table: StartTable, db: PatternDatabase, input: Seq<u16>, n: int)
    requires
        db.well_formed(),
        !db.uses_assertions_spec(),
        table.valid(db),
        0 <= n <= input.len(),
    ensures
        scan_events(db, input, table_starts(table, input, n)) == scan_events(db, input, all_starts(n)),
    decreases n,
{
    if n > 0 {
        lemma_start_table_scan(table, db, input, n - 1);
        assert(all_starts(n).drop_last() =~= all_starts(n - 1));
        assert(all_starts(n).last() == n - 1);
        if table.allows_spec(input, n - 1) {
            assert(table_starts(table, input, n).drop_last() =~= table_starts(table, input, n - 1));
        } else {
            lemma_start_table_sound(table, db, input, n - 1);
            assert(scan_events(db, input, all_starts(n)) =~= scan_events(db, input, all_starts(n - 1)));
        }
    }
}

/// Fewest patterns for which the literal filter is built.
pub const MIN_LITERAL_PATTERN_COUNT: usize = 256;

/// Shortest input for which the literal filter is consulted.
pub const MIN_LITERAL_INPUT_UNITS: usize = 1048576;

/// Shortest necessary literal the filter accepts.
pub const MIN_LITERAL_UNITS: usize = 3;

/// Longest literal prefix kept.
pub const MAX_LITERAL_UNITS: usize = 32;

/// Units sampled to estimate candidate density.
pub const DENSITY_SAMPLE_UNITS: usize = 65536;

/// Words of the exact ASCII triple table.
pub const ASCII_TRIPLE_WORDS: usize = 32768;

/// Words of the four-unit hash table.
pub const FOUR_PREFIX_HASH_WORDS: usize = 8192;

/// Words of the five-unit hash table.
pub const FIVE_PREFIX_HASH_WORDS: usize = 16384;

/// The first `MAX_LITERAL_UNITS` units of `s`.
pub open spec fn cap(s: Seq<u16>) -> Seq<u16> {
    if s.len() <= 32 {
        s
    } else {
        s.take(32)
    }
}

/// `n` copies of `unit`, kept to the cap.
pub open spec fn repeat_capped(unit: Seq<u16>, n: nat) -> Seq<u16>
    decreases n,
{
    if n == 0 {
        seq![]
    } else {
        cap(repeat_capped(unit, (n - 1) as nat) + unit)
    }
}

/// The (capped) single string an expression spells, when it spells exactly
/// one; alternatives must agree on their capped strings.
pub open spec fn exact_literal_spec(h: Hir) -> Option<Seq<u16>>
    decreases h,
{
    match h {
        Hir::Epsilon => Some(seq![]),
        Hir::Symbol(c) => Some(seq![c]),
        Hir::Sequence(v) => sequence_literal(v@),
        Hir::Alternation(v) => if v@.len() == 0 {
            None
        } else {
            alternation_literal(v@, (v@.len() - 1) as nat)
        },
        Hir::Repeat { expression, min, max } => match max {
            Some(m) => if min == m {
                match exact_literal_spec(*expression) {
                    Some(unit) => Some(repeat_capped(unit, min as nat)),
                    None => None,
                }
            } else {
                None
            },
            None => None,
        },
        _ => None,
    }
}

/// The capped concatenation of the items' literals, if each has one.
pub open spec fn sequence_literal(items: Seq<Hir>) -> Option<Seq<u16>>
    decreases items,
{
    if items.len() == 0 {
        Some(seq![])
    } else {
        match (sequence_literal(items.drop_last()), exact_literal_spec(items.last())) {
            (Some(a), Some(b)) => Some(cap(a + b)),
            _ => None,
        }
    }
}

/// The first branch's literal, if branches `1..=k` all spell it too.
pub open spec fn alternation_literal(branches: Seq<Hir>, k: nat) -> Option<Seq<u16>>
    decreases branches, k,
{
    if k == 0 {
        if branches.len() == 0 {
            None
        } else {
            exact_literal_spec(branches[0])
        }
    } else if k < branches.len() {
        match alternation_literal(branches, (k - 1) as nat) {
            Some(first) => if exact_literal_spec(branches[k as int]) == Some(first) {
                Some(first)
            } else {
                None
            },
            None => None,
        }
    } else {
        None
    }
}

/// Appends as much of `suffix` as fits under the cap.
pub fn append_bounded(output: &mut Vec<u16>, suffix: &[u16])
    requires
        old(output)@.len() <= 32,
    ensures
        final(output)@ == cap(old(output)@ + suffix@),
{
    let available = 32 - output.len();
    let mut i: usize = 0;
    let ghost start = output@;
    while i < suffix.len() && i < available
        invariant
            available == 32 - start.len(),
            i <= suffix@.len(),
            i <= available,
            output@ == start + suffix@.take(i as int),
        decreases suffix@.len() - i,
    {
        output.push(suffix[i]);
        proof {
            assert(output@ =~= start + suffix@.take(i + 1));
        }
        i = i + 1;
    }
    proof {
        assert(output@ =~= cap(start + suffix@));
    }
}

/// Whether two unit strings are equal.
fn same_units(left: &[u16], right: &[u16]) -> (same: bool)
    ensures
        same == (left@ == right@),
{
    if left.len() != right.len() {
        return false;
    }
    let mut i: usize = 0;
    while i < left.len()
        invariant
            left@.len() == right@.len(),
            i <= left@.len(),
            forall|k: int| 0 <= k < i ==> left@[k] == right@[k],
        decreases left@.len() - i,
    {
        if left[i] != right[i] {
            return false;
        }
        i = i + 1;
    }
    proof {
        assert(left@ =~= right@);
    }
    true
}

/// The capped single string `expression` spells, if it spells exactly one.
pub fn exact_literal(expression: &Hir) -> (literal: Option<Vec<u16>>)
    ensures
        match literal {
            Some(l) => exact_literal_spec(*expression) == Some(l@),
            None => exact_literal_spec(*expression) is None,
        },
    decreases *expression,
{
    match expression {
        Hir::Epsilon => Some(Vec::new()),
        Hir::Symbol(symbol) => {
            let mut literal = Vec::new();
            literal.push(*symbol);
            proof {
                assert(literal@ =~= seq![*symbol]);
            }
            Some(literal)
        },
        Hir::Sequence(expressions) => {
            let mut literal: Vec<u16> = Vec::new();
            let mut index: usize = 0;
            while index < expressions.len()
                invariant
                    index <= expressions@.len(),
                    *expression matches Hir::Sequence(w) && w == *expressions,
                    sequence_literal(expressions@.take(index as int)) == Some(literal@),
                    literal@.len() <= 32,
                decreases expressions@.len() - index,
            {
                proof {
                    lemma_item_decreases(*expression, *expressions, index as int);
                    assert(expressions@.take(index + 1).drop_last() =~= expressions@.take(index as int));
                    assert(expressions@.take(index + 1).last() == expressions@[index as int]);
                }
                let unit = match exact_literal(&expressions[index]) {
                    Some(unit) => unit,
                    None => {
                        proof {
                            lemma_sequence_literal_none(expressions@, (index + 1) as nat);
                        }
                        return None;
                    },
                };
                append_bounded(&mut literal, unit.as_slice());
                index = index + 1;
            }
            proof {
                assert(expressions@.take(index as int) =~= expressions@);
            }
            Some(literal)
        },
        Hir::Alternation(expressions) => {
            if expressions.len() == 0 {
                return None;
            }
            proof {
                lemma_item_decreases(*expression, *expressions, 0);
            }
            let first = match exact_literal(&expressions[0]) {
                Some(first) => first,
                None => {
                    proof {
                        lemma_alternation_literal_none(expressions@, 0, (expressions@.len() - 1) as nat);
                    }
                    return None;
                },
            };
            let mut index: usize = 1;
            while index < expressions.len()
                invariant
                    1 <= index <= expressions@.len(),
                    *expression matches Hir::Alternation(w) && w == *expressions,
                    alternation_literal(expressions@, (index - 1) as nat) == Some(first@),
                decreases expressions@.len() - index,
            {
                proof {
                    lemma_item_decreases(*expression, *expressions, index as int);
                }
                let same = match exact_literal(&expressions[index]) {
                    Some(other) => same_units(other.as_slice(), first.as_slice()),
                    None => false,
                };
                if !same {
                    proof {
                        lemma_alternation_literal_none(expressions@, index as nat, (expressions@.len() - 1) as nat);
                    }
                    return None;
                }
                index = index + 1;
            }
            Some(first)
        },
        Hir::Repeat { expression: inner, min, max } => {
            match max {
                Some(limit) => {
                    if *min != *limit {
                        return None;
                    }
                },
                None => return None,
            }
            let unit = match exact_literal(inner) {
                Some(unit) => unit,
                None => return None,
            };
            let mut literal: Vec<u16> = Vec::new();
            let mut count: u16 = 0;
            while count < *min
                invariant
                    count <= *min,
                    literal@ == repeat_capped(unit@, count as nat),
                    literal@.len() <= 32,
                decreases *min - count,
            {
                append_bounded(&mut literal, unit.as_slice());
                count = count + 1;
            }
            Some(literal)
        },
        _ => None,
    }
}

proof fn lemma_sequence_literal_none(items: Seq<Hir>, n: nat)
    requires
        1 <= n <= items.len(),
        exact_literal_spec(items[n - 1]) is None,
    ensures
        sequence_literal(items) is None,
    decreases items.len(),
{
    if n == items.len() {
        assert(items.last() == items[n - 1]);
    } else {
        lemma_sequence_literal_none(items.drop_last(), n);
        assert(items.drop_last()[n - 1] == items[n - 1]);
    }
}

proof fn lemma_alternation_literal_none(branches: Seq<Hir>, k: nat, upto: nat)
    requires
        k <= upto < branches.len(),
        alternation_literal(branches, k) is None,
    ensures
        alternation_literal(branches, upto) is None,
    decreases upto - k,
{
    if upto > k {
        lemma_alternation_literal_none(branches, k, (upto - 1) as nat);
    }
}

/// A (capped) string every match of the expression begins with.
pub open spec fn necessary_prefix_spec(h: Hir) -> Seq<u16>
    decreases h,
{
    match h {
        Hir::Symbol(c) => seq![c],
        Hir::Sequence(v) => sequence_prefix(v@).0,
        Hir::Alternation(v) => if v@.len() == 0 {
            seq![]
        } else {
            alternation_prefix(v@, (v@.len() - 1) as nat)
        },
        Hir::Repeat { expression, min, .. } => if min > 0 {
            match exact_literal_spec(*expression) {
                Some(unit) => repeat_capped(unit, min as nat),
                None => necessary_prefix_spec(*expression),
            }
        } else {
            seq![]
        },
        _ => seq![],
    }
}

/// The prefix gathered from the items in order, and whether gathering
/// stopped: after an item without a single string, or at the cap.
pub open spec fn sequence_prefix(items: Seq<Hir>) -> (Seq<u16>, bool)
    decreases items,
{
    if items.len() == 0 {
        (seq![], false)
    } else {
        let (before, stopped) = sequence_prefix(items.drop_last());
        if stopped {
            (before, true)
        } else {
            let next = cap(before + necessary_prefix_spec(items.last()));
            (next, exact_literal_spec(items.last()) is None || next.len() == 32)
        }
    }
}

/// Gathering the prefix of a run of symbols keeps the capped units.
proof fn lemma_symbols_prefix(items: Seq<Hir>, units: Seq<u16>)
    requires
        items.len() == units.len(),
        forall|m: int| 0 <= m < items.len() ==> #[trigger] items[m] == Hir::Symbol(units[m]),
    ensures
        sequence_prefix(items) == (cap(units), units.len() >= 32),
    decreases items.len(),
{
    if items.len() > 0 {
        let rest = items.drop_last();
        let first_units = units.drop_last();
        assert forall|m: int| 0 <= m < rest.len() implies #[trigger] rest[m] == Hir::Symbol(first_units[m]) by {
            assert(rest[m] == items[m]);
        }
        lemma_symbols_prefix(rest, first_units);
        let c = units.last();
        assert(items.last() == Hir::Symbol(c));
        assert(first_units.push(c) =~= units);
        if first_units.len() >= 32 {
            assert(units.take(32) =~= first_units.take(32));
        } else {
            assert(cap(first_units) == first_units);
            assert(first_units + seq![c] =~= units);
            assert(necessary_prefix_spec(items.last()) == seq![c]);
            assert(exact_literal_spec(items.last()) is Some);
            assert(cap(first_units + seq![c]) == cap(units));
        }
    } else {
        assert(units =~= Seq::<u16>::empty());
        assert(cap(units) =~= Seq::<u16>::empty());
    }
}

/// The necessary prefix of a plain literal is the literal, capped.
pub proof fn lemma_literal_prefix(h: Hir)
    requires
        literal_units(h) is Some,
    ensures
        necessary_prefix_spec(h) == cap(literal_units(h)->0),
{
    if let Hir::Sequence(v) = h {
        let units = literal_units(h)->0;
        assert forall|m: int| 0 <= m < v@.len() implies #[trigger] v@[m] == Hir::Symbol(units[m]) by {
            assert(v@[m] is Symbol);
        }
        lemma_symbols_prefix(v@, units);
    }
}

/// Length of the longest common prefix of `a` and `b`.
pub open spec fn common_len(a: Seq<u16>, b: Seq<u16>) -> nat
    decreases a.len(),
{
    if a.len() == 0 || b.len() == 0 || a[0] != b[0] {
        0
    } else {
        1 + common_len(a.drop_first(), b.drop_first())
    }
}

/// The prefix shared by the necessary prefixes of branches `0..=k`.
pub open spec fn alternation_prefix(branches: Seq<Hir>, k: nat) -> Seq<u16>
    decreases branches, k,
{
    if k == 0 {
        if branches.len() == 0 {
            seq![]
        } else {
            necessary_prefix_spec(branches[0])
        }
    } else if k < branches.len() {
        let before = alternation_prefix(branches, (k - 1) as nat);
        before.take(common_len(before, necessary_prefix_spec(branches[k as int])) as int)
    } else {
        seq![]
    }
}

pub proof fn lemma_common_len_bound(a: Seq<u16>, b: Seq<u16>)
    ensures
        common_len(a, b) <= a.len(),
        common_len(a, b) <= b.len(),
    decreases a.len(),
{
    if !(a.len() == 0 || b.len() == 0 || a[0] != b[0]) {
        lemma_common_len_bound(a.drop_first(), b.drop_first());
    }
}

/// Length of the longest common prefix of two unit strings.
pub fn common_prefix_len(a: &[u16], b: &[u16]) -> (n: usize)
    ensures
        n == common_len(a@, b@),
{
    let mut i: usize = 0;
    proof {
        assert(a@.skip(0) =~= a@);
        assert(b@.skip(0) =~= b@);
    }
    while i < a.len() && i < b.len() && a[i] == b[i]
        invariant
            i <= a@.len(),
            i <= b@.len(),
            common_len(a@, b@) == i + common_len(a@.skip(i as int), b@.skip(i as int)),
        decreases a@.len() - i,
    {
        proof {
            assert(a@.skip(i as int).drop_first() =~= a@.skip(i + 1));
            assert(b@.skip(i as int).drop_first() =~= b@.skip(i + 1));
        }
        i = i + 1;
    }
    i
}

/// A string every match of `expression` begins with, capped.
pub fn necessary_prefix(expression: &Hir) -> (prefix: Vec<u16>)
    ensures
        prefix@ == necessary_prefix_spec(*expression),
        prefix@.len() <= 32,
    decreases *expression,
{
    match expression {
        Hir::Symbol(symbol) => {
            let mut prefix = Vec::new();
            prefix.push(*symbol);
            proof {
                assert(prefix@ =~= seq![*symbol]);
            }
            prefix
        },
        Hir::Sequence(expressions) => {
            let mut prefix: Vec<u16> = Vec::new();
            let mut index: usize = 0;
            let mut stopped = false;
            while index < expressions.len() && !stopped
                invariant
                    index <= expressions@.len(),
                    *expression matches Hir::Sequence(w) && w == *expressions,
                    sequence_prefix(expressions@.take(index as int)) == (prefix@, stopped),
                    prefix@.len() <= 32,
                decreases expressions@.len() - index,
            {
                proof {
                    lemma_item_decreases(*expression, *expressions, index as int);
                    assert(expressions@.take(index + 1).drop_last() =~= expressions@.take(index as int));
                    assert(expressions@.take(index + 1).last() == expressions@[index as int]);
                }
                let item_prefix = necessary_prefix(&expressions[index]);
                append_bounded(&mut prefix, item_prefix.as_slice());
                let exact = exact_literal(&expressions[index]);
                stopped = exact.is_none() || prefix.len() == 32;
                index = index + 1;
            }
            proof {
                lemma_sequence_prefix_stopped(expressions@, index as nat);
                assert(expressions@.take(expressions@.len() as int) =~= expressions@);
            }
            prefix
        },
        Hir::Alternation(expressions) => {
            if expressions.len() == 0 {
                return Vec::new();
            }
            proof {
                lemma_item_decreases(*expression, *expressions, 0);
            }
            let mut prefix = necessary_prefix(&expressions[0]);
            let mut index: usize = 1;
            while index < expressions.len()
                invariant
                    1 <= index <= expressions@.len(),
                    *expression matches Hir::Alternation(w) && w == *expressions,
                    alternation_prefix(expressions@, (index - 1) as nat) == prefix@,
                    prefix@.len() <= 32,
                decreases expressions@.len() - index,
            {
                proof {
                    lemma_item_decreases(*expression, *expressions, index as int);
                }
                let candidate = necessary_prefix(&expressions[index]);
                let shared = common_prefix_len(prefix.as_slice(), candidate.as_slice());
                proof {
                    lemma_common_len_bound(prefix@, candidate@);
                }
                prefix.truncate(shared);
                index = index + 1;
            }
            prefix
        },
        Hir::Repeat { expression: inner, min, .. } => {
            if *min == 0 {
                return Vec::new();
            }
            match exact_literal(inner) {
                Some(unit) => {
                    let mut prefix: Vec<u16> = Vec::new();
                    let mut count: u16 = 0;
                    while count < *min
                        invariant
                            count <= *min,
                            prefix@ == repeat_capped(unit@, count as nat),
                            prefix@.len() <= 32,
                        decreases *min - count,
                    {
                        append_bounded(&mut prefix, unit.as_slice());
                        count = count + 1;
                    }
                    prefix
                },
                None => necessary_prefix(inner),
            }
        },
        _ => Vec::new(),
    }
}

proof fn lemma_sequence_prefix_stopped(items: Seq<Hir>, index: nat)
    requires
        index <= items.len(),
        index < items.len() ==> sequence_prefix(items.take(index as int)).1,
    ensures
        sequence_prefix(items) == sequence_prefix(items.take(index as int)),
    decreases items.len() - index,
{
    if index < items.len() {
        let next = items.take(index as int + 1);
        assert(next.drop_last() =~= items.take(index as int));
        lemma_sequence_prefix_stopped(items, index + 1);
    } else {
        assert(items.take(index as int) =~= items);
    }
}

/// A pattern's necessary literal prefix.
pub struct NecessaryLiteral {
    pub ordinal: usize,
    pub offset: usize,
    pub units: Vec<u16>,
}

impl NecessaryLiteral {
    /// The literal of pattern `ordinal`, if its necessary prefix is long
    /// enough to filter on.
    pub fn from_pattern(ordinal: usize, expression: &Hir) -> (hint: Option<NecessaryLiteral>)
        ensures
            match hint {
                Some(h) => h.ordinal == ordinal && h.offset == 0 && h.units@ == necessary_prefix_spec(*expression)
                    && 3 <= h.units@.len() <= 32,
                None => necessary_prefix_spec(*expression).len() < 3,
            },
    {
        let units = necessary_prefix(expression);
        if units.len() >= MIN_LITERAL_UNITS {
            Some(NecessaryLiteral { ordinal, offset: 0, units })
        } else {
            None
        }
    }
}

/// Index of an ASCII triple in the exact triple table.
pub open spec fn triple_index_spec(first: u16, second: u16, third: u16) -> int {
    first * 16384 + second * 128 + third
}

/// Index of an ASCII triple in the exact triple table.
pub fn ascii_triple_index(first: u16, second: u16, third: u16) -> (index: usize)
    requires
        first < 128,
        second < 128,
        third < 128,
    ensures
        index == triple_index_spec(first, second, third),
        index < 2097152,
{
    (first as usize) * 16384 + (second as usize) * 128 + (third as usize)
}

/// Key of a three-unit prefix in the pattern mapping.
pub fn prefix_key(first: u16, second: u16, third: u16) -> (key: u64)
    ensures
        key == first * 4294967296 + second * 65536 + third,
{
    (first as u64) * 4294967296 + (second as u64) * 65536 + (third as u64)
}

/// One FNV-1a step over a code unit.
pub open spec fn fnv_step(hash: u64, unit: u16) -> u64 {
    (hash ^ (unit as u64)).wrapping_mul(0x0000_0100_0000_01b3)
}

/// FNV-1a hash of a unit string.
pub open spec fn fnv_spec(units: Seq<u16>) -> u64
    decreases units.len(),
{
    if units.len() == 0 {
        0xcbf2_9ce4_8422_2325
    } else {
        fnv_step(fnv_spec(units.drop_last()), units.last())
    }
}

/// Table index of a unit prefix for a table of `bit_count` bits.
pub open spec fn hash_index_spec(units: Seq<u16>, bit_count: u64) -> int {
    (fnv_spec(units) & ((bit_count - 1) as u64)) as int
}

/// Table index of `prefix` for a table of `bit_count` bits, a power of two.
pub fn prefix_hash_index(prefix: &[u16], bit_count: u64) -> (index: usize)
    requires
        bit_count == 524288 || bit_count == 1048576,
    ensures
        index == hash_index_spec(prefix@, bit_count),
        index < bit_count,
{
    let mut hash: u64 = 0xcbf2_9ce4_8422_2325;
    let mut i: usize = 0;
    while i < prefix.len()
        invariant
            i <= prefix@.len(),
            hash == fnv_spec(prefix@.take(i as int)),
        decreases prefix@.len() - i,
    {
        proof {
            assert(prefix@.take(i + 1).drop_last() =~= prefix@.take(i as int));
        }
        hash = (hash ^ (prefix[i] as u64)).wrapping_mul(0x0000_0100_0000_01b3);
        i = i + 1;
    }
    proof {
        assert(prefix@.take(i as int) =~= prefix@);
    }
    let mask: u64 = bit_count - 1;
    let masked = hash & mask;
    proof {
        assert(hash & mask <= mask) by (bit_vector);
    }
    masked as usize
}

/// Bit tables of the ASCII prefixes of the necessary literals.
pub struct LiteralPrefilter {
    ascii_three_exact: Vec<u64>,
    ascii_four_hash: Vec<u64>,
    ascii_five_hash: Vec<u64>,
    has_three: bool,
    has_four: bool,
    has_five: bool,
    prefix_mappings: Vec<(u64, usize)>,
}

/// All units of `s` are ASCII.
pub open spec fn all_ascii(s: Seq<u16>) -> bool {
    forall|i: int| 0 <= i < s.len() ==> #[trigger] s[i] < 128
}

pub(crate) fn ascii_units(s: &[u16]) -> (ascii: bool)
    ensures
        ascii == all_ascii(s@),
{
    let mut i: usize = 0;
    while i < s.len()
        invariant
            i <= s@.len(),
            forall|k: int| 0 <= k < i ==> #[trigger] s@[k] < 128,
        decreases s@.len() - i,
    {
        if s[i] >= 128 {
            return false;
        }
        i = i + 1;
    }
    true
}

/// The mapping key of a literal: its first three units.
pub open spec fn key_of(units: Seq<u16>) -> u64 {
    (units[0] * 4294967296 + units[1] * 65536 + units[2]) as u64
}

/// The ordinals mapped from `key`, in recording order.
pub open spec fn mapped_ordinals(mappings: Seq<(u64, usize)>, key: u64) -> Seq<usize>
    decreases mappings.len(),
{
    if mappings.len() == 0 {
        seq![]
    } else if mappings.last().0 == key {
        mapped_ordinals(mappings.drop_last(), key).push(mappings.last().1)
    } else {
        mapped_ordinals(mappings.drop_last(), key)
    }
}

impl LiteralPrefilter {
    /// The recorded (literal key, pattern ordinal) pairs, in recording order.
    pub closed spec fn mappings_spec(&self) -> Seq<(u64, usize)> {
        self.prefix_mappings@
    }

    /// Number of recorded literal-to-pattern mappings.
    pub closed spec fn mapping_count(&self) -> nat {
        self.prefix_mappings@.len()
    }

    /// The tables have their fixed sizes.
    pub closed spec fn well_shaped(&self) -> bool {
        &&& self.ascii_three_exact@.len() == ASCII_TRIPLE_WORDS
        &&& self.ascii_four_hash@.len() == FOUR_PREFIX_HASH_WORDS
        &&& self.ascii_five_hash@.len() == FIVE_PREFIX_HASH_WORDS
    }

    /// Whether a candidate start is admitted, as far as the tables tell.
    pub closed spec fn admits(&self, input: Seq<u16>, start: int) -> bool {
        let triple = input.subrange(start, start + 3);
        ||| !all_ascii(triple)
        ||| (self.has_three && bit_at(self.ascii_three_exact@, triple_index_spec(triple[0], triple[1], triple[2])))
        ||| (start + 4 <= input.len() && (input[start + 3] >= 128 || (self.has_four && bit_at(
            self.ascii_four_hash@,
            hash_index_spec(input.subrange(start, start + 4), 524288),
        )) || (start + 5 <= input.len() && (input[start + 4] >= 128 || (self.has_five && bit_at(
            self.ascii_five_hash@,
            hash_index_spec(input.subrange(start, start + 5), 1048576),
        ))))))
    }

    /// The literal of `hint` is recorded in the tables.
    pub closed spec fn records(&self, units: Seq<u16>) -> bool {
        &&& units.len() == 3 && all_ascii(units) ==> self.has_three && bit_at(
            self.ascii_three_exact@,
            triple_index_spec(units[0], units[1], units[2]),
        )
        &&& units.len() == 4 && all_ascii(units) ==> self.has_four && bit_at(
            self.ascii_four_hash@,
            hash_index_spec(units, 524288),
        )
        &&& units.len() >= 5 && all_ascii(units.take(5)) ==> self.has_five && bit_at(
            self.ascii_five_hash@,
            hash_index_spec(units.take(5), 1048576),
        )
    }

    /// Builds the tables from the necessary literals.
    pub fn compile(hints: &Vec<NecessaryLiteral>) -> (filter: LiteralPrefilter)
        requires
            forall|i: int| 0 <= i < hints@.len() ==> 3 <= (#[trigger] hints@[i]).units@.len() <= 32,
        ensures
            filter.well_shaped(),
            forall|i: int| 0 <= i < hints@.len() ==> filter.records(#[trigger] hints@[i].units@),
            filter.mappings_spec() == hints@.map_values(|h: NecessaryLiteral| (key_of(h.units@), h.ordinal)),
    {
        let mut filter = LiteralPrefilter {
            ascii_three_exact: zero_words(ASCII_TRIPLE_WORDS),
            ascii_four_hash: zero_words(FOUR_PREFIX_HASH_WORDS),
            ascii_five_hash: zero_words(FIVE_PREFIX_HASH_WORDS),
            has_three: false,
            has_four: false,
            has_five: false,
            prefix_mappings: Vec::new(),
        };
        let mut i: usize = 0;
        while i < hints.len()
            invariant
                i <= hints@.len(),
                filter.well_shaped(),
                forall|k: int| 0 <= k < hints@.len() ==> 3 <= (#[trigger] hints@[k]).units@.len() <= 32,
                forall|k: int| 0 <= k < i ==> filter.records(#[trigger] hints@[k].units@),
                filter.prefix_mappings@ == hints@.take(i as int).map_values(|h: NecessaryLiteral| (key_of(h.units@), h.ordinal)),
            decreases hints@.len() - i,
        {
            let ghost before = filter;
            let hint = &hints[i];
            let units = hint.units.as_slice();
            filter.prefix_mappings.push((prefix_key(units[0], units[1], units[2]), hint.ordinal));
            proof {
                assert(hints@.take(i + 1).map_values(|h: NecessaryLiteral| (key_of(h.units@), h.ordinal))
                    =~= hints@.take(i as int).map_values(|h: NecessaryLiteral| (key_of(h.units@), h.ordinal)).push(
                    (key_of(hint.units@), hint.ordinal)));
            }
            if units.len() == 3 {
                filter.has_three = true;
                if units[0] < 128 && units[1] < 128 && units[2] < 128 {
                    let index = ascii_triple_index(units[0], units[1], units[2]);
                    set_bit(&mut filter.ascii_three_exact, index);
                }
            } else if units.len() == 4 {
                filter.has_four = true;
                if ascii_units(units) {
                    let index = prefix_hash_index(units, 524288);
                    set_bit(&mut filter.ascii_four_hash, index);
                }
            } else {
                filter.has_five = true;
                let five = slice_prefix(units, 5);
                if ascii_units(five.as_slice()) {
                    let index = prefix_hash_index(five.as_slice(), 1048576);
                    set_bit(&mut filter.ascii_five_hash, index);
                }
            }
            proof {
                assert forall|k: int| 0 <= k < i + 1 implies filter.records(#[trigger] hints@[k].units@) by {
                    let u = hints@[k].units@;
                    if k < i {
                        lemma_records_monotone(before, filter, u);
                    } else {
                        if u.len() == 3 && all_ascii(u) {
                            assert(u[0] < 128 && u[1] < 128 && u[2] < 128);
                        }
                        if u.len() >= 5 {
                            assert(u.take(5) == units@.take(5));
                        }
                    }
                }
            }
            i = i + 1;
        }
        proof {
            assert(hints@.take(i as int) =~= hints@);
        }
        filter
    }

    /// Whether the tables admit a start; `start + 3` must lie within the
    /// input.
    pub fn prefix_allows(&self, input: &[u16], start: usize) -> (allowed: bool)
        requires
            self.well_shaped(),
            start + 3 <= input@.len(),
        ensures
            allowed == self.admits(input@, start as int),
    {
        let a = input[start];
        let b = input[start + 1];
        let c = input[start + 2];
        let ghost triple = input@.subrange(start as int, start + 3);
        proof {
            assert(triple[0] == a && triple[1] == b && triple[2] == c);
        }
        if a >= 128 || b >= 128 || c >= 128 {
            return true;
        }
        proof {
            assert(all_ascii(triple));
        }
        if self.has_three && contains_bit(self.ascii_three_exact.as_slice(), ascii_triple_index(a, b, c)) {
            return true;
        }
        if input.len() - start < 4 {
            return false;
        }
        if input[start + 3] >= 128 {
            return true;
        }
        if self.has_four {
            let four = slice_range(input, start, 4);
            if contains_bit(self.ascii_four_hash.as_slice(), prefix_hash_index(four.as_slice(), 524288)) {
                return true;
            }
        }
        if input.len() - start < 5 {
            return false;
        }
        if input[start + 4] >= 128 {
            return true;
        }
        if self.has_five {
            let five = slice_range(input, start, 5);
            contains_bit(self.ascii_five_hash.as_slice(), prefix_hash_index(five.as_slice(), 1048576))
        } else {
            false
        }
    }

    /// Marks every admitted start of `starts_from..starts_to` that leaves
    /// room for a triple.
    pub fn scan_starts(
        &self,
        input: &[u16],
        starts_from: usize,
        starts_to: usize,
        candidates: &mut CandidateBitmap,
        admissions: &mut u64,
    )
        requires
            self.well_shaped(),
            old(candidates).well_formed(),
            starts_to <= old(candidates).bit_len_spec(),
            starts_to <= input@.len(),
        ensures
            final(candidates).well_formed(),
            final(candidates).bit_len_spec() == old(candidates).bit_len_spec(),
            forall|i: int|
                0 <= i < final(candidates)@.len() ==> #[trigger] final(candidates)@[i] == (old(candidates)@[i] || (
                starts_from <= i < starts_to && i + 3 <= input@.len() && self.admits(input@, i))),
    {
        let mut start = starts_from;
        let ghost prior = candidates@;
        while start < starts_to
            invariant
                self.well_shaped(),
                candidates.well_formed(),
                candidates.bit_len_spec() == old(candidates).bit_len_spec(),
                prior == old(candidates)@,
                starts_to <= candidates.bit_len_spec(),
                starts_to <= input@.len(),
                starts_from <= start,
                forall|i: int|
                    0 <= i < candidates@.len() ==> #[trigger] candidates@[i] == (prior[i] || (
                    starts_from <= i < start && i < starts_to && i + 3 <= input@.len() && self.admits(input@, i))),
            decreases starts_to - start,
        {
            if input.len() - start >= 3 && self.prefix_allows(input, start) {
                *admissions = crate::cache::bump(*admissions);
                candidates.insert(start);
            }
            start = start + 1;
        }
    }

    /// Bytes held by the tables.
    pub fn retained_bytes(&self) -> (bytes: usize)
        ensures
            bytes == 72 + 8 * (ASCII_TRIPLE_WORDS + FOUR_PREFIX_HASH_WORDS + FIVE_PREFIX_HASH_WORDS)
                + 16 * self.mapping_count() || bytes == usize::MAX,
    {
        let mappings = self.prefix_mappings.len();
        let fixed: usize = 72 + 8 * (ASCII_TRIPLE_WORDS + FOUR_PREFIX_HASH_WORDS + FIVE_PREFIX_HASH_WORDS);
        if mappings > (usize::MAX - fixed) / 16 {
            usize::MAX
        } else {
            fixed + 16 * mappings
        }
    }

    /// Ordinals whose literal begins with the three units of `prefix`.
    pub fn patterns_for_prefix(&self, prefix: &[u16]) -> (ordinals: Vec<usize>)
        requires
            prefix@.len() >= 3,
        ensures
            ordinals@ == mapped_ordinals(self.mappings_spec(), key_of(prefix@)),
    {
        let key = prefix_key(prefix[0], prefix[1], prefix[2]);
        let mut ordinals: Vec<usize> = Vec::new();
        let mut i: usize = 0;
        while i < self.prefix_mappings.len()
            invariant
                i <= self.prefix_mappings@.len(),
                key == key_of(prefix@),
                ordinals@ == mapped_ordinals(self.prefix_mappings@.take(i as int), key),
            decreases self.prefix_mappings@.len() - i,
        {
            let (candidate, ordinal) = self.prefix_mappings[i];
            proof {
                assert(self.prefix_mappings@.take(i + 1).drop_last() =~= self.prefix_mappings@.take(i as int));
            }
            if candidate == key {
                ordinals.push(ordinal);
            }
            i = i + 1;
        }
        proof {
            assert(self.prefix_mappings@.take(i as int) =~= self.prefix_mappings@);
        }
        ordinals
    }
}

/// The first `count` units of `s`.
fn slice_prefix(s: &[u16], count: usize) -> (prefix: Vec<u16>)
    requires
        count <= s@.len(),
    ensures
        prefix@ == s@.take(count as int),
{
    slice_range(s, 0, count)
}

/// The `count` units of `s` from `start`.
pub(crate) fn slice_range(s: &[u16], start: usize, count: usize) -> (part: Vec<u16>)
    requires
        start + count <= s@.len(),
    ensures
        part@ == s@.subrange(start as int, start + count),
{
    let mut part: Vec<u16> = Vec::new();
    let total = s.len();
    let mut i: usize = 0;
    while i < count
        invariant
            i <= count,
            total == s@.len(),
            start + count <= s@.len(),
            part@ == s@.subrange(start as int, start + i),
        decreases count - i,
    {
        part.push(s[start + i]);
        proof {
            assert(part@ =~= s@.subrange(start as int, start + i + 1));
        }
        i = i + 1;
    }
    part
}

/// A necessary literal occurring at a start is always admitted.
pub proof fn lemma_literal_admitted(filter: LiteralPrefilter, units: Seq<u16>, input: Seq<u16>, start: int)
    requires
        filter.records(units),
        3 <= units.len(),
        0 <= start,
        start + units.len() <= input.len(),
        input.subrange(start, start + units.len()) == units,
    ensures
        filter.admits(input, start),
{
    let triple = input.subrange(start, start + 3);
    assert forall|k: int| 0 <= k < 3 implies triple[k] == units[k] by {
        assert(input.subrange(start, start + units.len())[k] == units[k]);
    }
    if all_ascii(triple) {
        if units.len() == 3 {
            assert(triple =~= units);
        } else {
            assert(input[start + 3] == units[3]);
            let four = input.subrange(start, start + 4);
            if units.len() == 4 {
                assert(four =~= units);
                if input[start + 3] < 128 {
                    assert(all_ascii(units));
                }
            } else {
                assert(input[start + 4] == units[4]);
                let five = input.subrange(start, start + 5);
                assert(five =~= units.take(5));
                if input[start + 3] < 128 && input[start + 4] < 128 {
                    assert(all_ascii(units.take(5)));
                }
            }
        }
    }
}

/// Every set entry's position is listed.
pub proof fn lemma_set_positions_contain(bits: Seq<bool>, k: int)
    requires
        0 <= k < bits.len(),
        bits[k],
    ensures
        set_positions(bits).contains(k),
    decreases bits.len(),
{
    let rest = bits.drop_last();
    if k == bits.len() - 1 {
        assert(set_positions(bits).last() == k);
        assert(set_positions(bits)[set_positions(bits).len() - 1] == k);
    } else {
        assert(rest[k] == bits[k]);
        lemma_set_positions_contain(rest, k);
        let r = choose|r: int| 0 <= r < set_positions(rest).len() && set_positions(rest)[r] == k;
        if bits.last() {
            assert(set_positions(bits)[r] == k);
        }
    }
}

/// Positions of the set entries of `bits`, ascending.
pub open spec fn set_positions(bits: Seq<bool>) -> Seq<int>
    decreases bits.len(),
{
    if bits.len() == 0 {
        seq![]
    } else if bits.last() {
        set_positions(bits.drop_last()).push(bits.len() - 1)
    } else {
        set_positions(bits.drop_last())
    }
}

/// Number of set entries of `bits`.
pub open spec fn count_set(bits: Seq<bool>) -> nat
    decreases bits.len(),
{
    if bits.len() == 0 {
        0
    } else {
        count_set(bits.drop_last()) + if bits.last() {
            1nat
        } else {
            0nat
        }
    }
}

proof fn lemma_count_set_update(bits: Seq<bool>, i: int)
    requires
        0 <= i < bits.len(),
        !bits[i],
    ensures
        count_set(bits.update(i, true)) == count_set(bits) + 1,
        count_set(bits) < bits.len(),
    decreases bits.len(),
{
    let updated = bits.update(i, true);
    if i < bits.len() - 1 {
        assert(updated.drop_last() =~= bits.drop_last().update(i, true));
        lemma_count_set_update(bits.drop_last(), i);
    } else {
        assert(updated.drop_last() =~= bits.drop_last());
        lemma_count_set_bound(bits.drop_last());
    }
}

pub proof fn lemma_count_set_bound(bits: Seq<bool>)
    ensures
        count_set(bits) <= bits.len(),
    decreases bits.len(),
{
    if bits.len() > 0 {
        lemma_count_set_bound(bits.drop_last());
    }
}

/// A bit set over candidate start positions.
pub struct CandidateBitmap {
    words: Vec<u64>,
    start_count: usize,
    bit_len: usize,
}

impl View for CandidateBitmap {
    type V = Seq<bool>;

    closed spec fn view(&self) -> Seq<bool> {
        Seq::new(self.bit_len as nat, |i: int| bit_at(self.words@, i))
    }
}

impl CandidateBitmap {
    /// Number of words held.
    pub closed spec fn word_count(&self) -> nat {
        self.words@.len()
    }

    /// Number of positions.
    pub closed spec fn bit_len_spec(&self) -> nat {
        self.bit_len as nat
    }

    /// Words cover the positions and the count is exact.
    pub closed spec fn well_formed(&self) -> bool {
        &&& self.words@.len() == (self.bit_len + 63) / 64
        &&& self.start_count == count_set(self@)
        &&& self@.len() == self.bit_len
    }

    /// A well-formed bitmap holds one word per started block of 64 positions.
    pub proof fn lemma_word_count(&self)
        requires
            self.well_formed(),
        ensures
            self.word_count() == (self.bit_len_spec() + 63) / 64,
    {
    }

    /// An empty bitmap over `bit_len` positions.
    pub fn new(bit_len: usize) -> (bitmap: CandidateBitmap)
        ensures
            bitmap.well_formed(),
            bitmap.bit_len_spec() == bit_len,
            bitmap@ == Seq::new(bit_len as nat, |i: int| false),
    {
        let count = bit_len / 64 + if bit_len % 64 == 0 {
            0
        } else {
            1
        };
        let words = zero_words(count);
        let bitmap = CandidateBitmap { words, start_count: 0, bit_len };
        proof {
            assert(bitmap@ =~= Seq::new(bit_len as nat, |i: int| false));
            lemma_count_none(bitmap@);
        }
        bitmap
    }

    /// Adds `start`.
    pub fn insert(&mut self, start: usize)
        requires
            old(self).well_formed(),
            start < old(self).bit_len_spec(),
        ensures
            final(self).well_formed(),
            final(self).bit_len_spec() == old(self).bit_len_spec(),
            final(self)@ == old(self)@.update(start as int, true),
    {
        let ghost before = self@;
        if !contains_bit(self.words.as_slice(), start) {
            set_bit(&mut self.words, start);
            proof {
                lemma_count_set_update(before, start as int);
                assert(self@ =~= before.update(start as int, true));
            }
            self.start_count = self.start_count + 1;
        } else {
            proof {
                assert(self@ =~= before.update(start as int, true));
            }
        }
    }

    /// Number of positions present.
    pub fn count(&self) -> (count: usize)
        requires
            self.well_formed(),
        ensures
            count == count_set(self@),
    {
        self.start_count
    }

    /// Present positions, ascending.
    pub fn positions(&self) -> (positions: Vec<usize>)
        requires
            self.well_formed(),
        ensures
            positions@.map_values(|p: usize| p as int) == set_positions(self@),
    {
        let mut positions: Vec<usize> = Vec::new();
        let mut bit: usize = 0;
        while bit < self.bit_len
            invariant
                self.well_formed(),
                bit <= self.bit_len,
                positions@.map_values(|p: usize| p as int) == set_positions(self@.take(bit as int)),
            decreases self.bit_len - bit,
        {
            proof {
                assert(self@.take(bit + 1).drop_last() =~= self@.take(bit as int));
            }
            if contains_bit(self.words.as_slice(), bit) {
                positions.push(bit);
                proof {
                    assert(positions@.map_values(|p: usize| p as int) =~= set_positions(self@.take(bit as int)).push(bit as int));
                }
            }
            bit = bit + 1;
        }
        proof {
            assert(self@.take(bit as int) =~= self@);
        }
        positions
    }

    /// Bytes held by the words.
    pub fn retained_bytes(&self) -> (bytes: usize)
        ensures
            bytes == crate::nfa::saturate(8 * self.word_count() as int),
    {
        let count = self.words.len();
        if count > usize::MAX / 8 {
            proof {
                assert(8 * count > usize::MAX) by (nonlinear_arith)
                    requires
                        count > usize::MAX / 8,
                ;
            }
            usize::MAX
        } else {
            count * 8
        }
    }
}

proof fn lemma_count_none(bits: Seq<bool>)
    requires
        forall|i: int| 0 <= i < bits.len() ==> !bits[i],
    ensures
        count_set(bits) == 0,
    decreases bits.len(),
{
    if bits.len() > 0 {
        lemma_count_none(bits.drop_last());
    }
}

proof fn lemma_mask_bound(h: u64, m: u64)
    ensures
        h & m <= m,
{
    assert(h & m <= m) by (bit_vector);
}

proof fn lemma_records_monotone(before: LiteralPrefilter, after: LiteralPrefilter, units: Seq<u16>)
    requires
        before.records(units),
        before.well_shaped(),
        after.well_shaped(),
        before.has_three ==> after.has_three,
        before.has_four ==> after.has_four,
        before.has_five ==> after.has_five,
        forall|b: int| 0 <= b < 64 * ASCII_TRIPLE_WORDS && bit_at(before.ascii_three_exact@, b) ==> #[trigger] bit_at(after.ascii_three_exact@, b),
        forall|b: int| 0 <= b < 64 * FOUR_PREFIX_HASH_WORDS && bit_at(before.ascii_four_hash@, b) ==> #[trigger] bit_at(after.ascii_four_hash@, b),
        forall|b: int| 0 <= b < 64 * FIVE_PREFIX_HASH_WORDS && bit_at(before.ascii_five_hash@, b) ==> #[trigger] bit_at(after.ascii_five_hash@, b),
    ensures
        after.records(units),
{
    if units.len() == 4 {
        lemma_mask_bound(fnv_spec(units), 524287);
    }
    if units.len() >= 5 {
        lemma_mask_bound(fnv_spec(units.take(5)), 1048575);
    }
}

/// Which start positions a scan visits.
#[derive(Clone, Copy, Debug, PartialEq, Eq, Structural)]
pub enum PrefilterPath {
    AllStarts,
    StartTable,
    Literal,
    MixedParallel,
}

impl PrefilterPath {
    /// The report label of a path.
    pub open spec fn label_spec(self) -> &'static str {
        match self {
            PrefilterPath::AllStarts => "all-starts",
            PrefilterPath::StartTable => "start-table",
            PrefilterPath::Literal => "literal-prefilter",
            PrefilterPath::MixedParallel => "mixed-parallel",
        }
    }

    /// Report label.
    pub fn label(self) -> (label: &'static str)
        ensures
            label == self.label_spec(),
    {
        match self {
            PrefilterPath::AllStarts => "all-starts",
            PrefilterPath::StartTable => "start-table",
            PrefilterPath::Literal => "literal-prefilter",
            PrefilterPath::MixedParallel => "mixed-parallel",
        }
    }
}

/// Why the literal filter was not used.
#[derive(Clone, Copy, Debug, PartialEq, Eq, Structural)]
pub enum PrefilterBypass {
    NoBypass,
    Disabled,
    LiteralDisabled,
    Assertions,
    PatternCount,
    InputSize,
    Unfilterable,
    DenseSample,
    MixedParallel,
}

impl PrefilterBypass {
    /// The report label of a bypass reason.
    pub open spec fn label_spec(self) -> &'static str {
        match self {
            PrefilterBypass::NoBypass => "none",
            PrefilterBypass::Disabled => "disabled",
            PrefilterBypass::LiteralDisabled => "literal-disabled",
            PrefilterBypass::Assertions => "assertions",
            PrefilterBypass::PatternCount => "pattern-count",
            PrefilterBypass::InputSize => "input-size",
            PrefilterBypass::Unfilterable => "unfilterable",
            PrefilterBypass::DenseSample => "dense-sample",
            PrefilterBypass::MixedParallel => "mixed-parallel",
        }
    }

    /// Report label.
    pub fn label(self) -> (label: &'static str)
        ensures
            label == self.label_spec(),
    {
        match self {
            PrefilterBypass::NoBypass => "none",
            PrefilterBypass::Disabled => "disabled",
            PrefilterBypass::LiteralDisabled => "literal-disabled",
            PrefilterBypass::Assertions => "assertions",
            PrefilterBypass::PatternCount => "pattern-count",
            PrefilterBypass::InputSize => "input-size",
            PrefilterBypass::Unfilterable => "unfilterable",
            PrefilterBypass::DenseSample => "dense-sample",
            PrefilterBypass::MixedParallel => "mixed-parallel",
        }
    }
}

impl CandidateBitmap {
    /// Copies the positions of `prefix` into this empty bitmap.
    pub fn copy_prefix(&mut self, prefix: &CandidateBitmap)
        requires
            old(self).well_formed(),
            prefix.well_formed(),
            prefix.bit_len_spec() <= old(self).bit_len_spec(),
            forall|i: int| 0 <= i < old(self)@.len() ==> !#[trigger] old(self)@[i],
        ensures
            final(self).well_formed(),
            final(self).bit_len_spec() == old(self).bit_len_spec(),
            forall|i: int| 0 <= i < final(self)@.len() ==> #[trigger] final(self)@[i] == (i < prefix@.len() && prefix@[i]),
    {
        let mut bit: usize = 0;
        while bit < prefix.bit_len
            invariant
                self.well_formed(),
                prefix.well_formed(),
                self.bit_len_spec() == old(self).bit_len_spec(),
                bit <= prefix.bit_len,
                prefix.bit_len_spec() <= self.bit_len_spec(),
                forall|i: int| 0 <= i < self@.len() ==> #[trigger] self@[i] == (i < bit && prefix@[i]),
            decreases prefix.bit_len - bit,
        {
            if contains_bit(prefix.words.as_slice(), bit) {
                self.insert(bit);
            }
            bit = bit + 1;
        }
    }
}

/// The starts a literal filter admits in `input`.
pub open spec fn admitted_starts(filter: LiteralPrefilter, input: Seq<u16>) -> Seq<bool> {
    Seq::new(input.len(), |i: int| i + 3 <= input.len() && filter.admits(input, i))
}

/// How a scan chooses its start positions.
pub enum ScanPlan {
    All { bypass: PrefilterBypass, retained_bytes: usize },
    StartTable { bypass: PrefilterBypass, retained_bytes: usize },
    Candidates { candidates: CandidateBitmap, admissions: u64, retained_bytes: usize },
}

impl ScanPlan {
    /// The start selection the plan uses.
    pub open spec fn path_spec(&self) -> PrefilterPath {
        match self {
            ScanPlan::All { .. } => PrefilterPath::AllStarts,
            ScanPlan::StartTable { .. } => PrefilterPath::StartTable,
            ScanPlan::Candidates { .. } => PrefilterPath::Literal,
        }
    }

    /// Why the literal filter was not used.
    pub open spec fn bypass_spec(&self) -> PrefilterBypass {
        match self {
            ScanPlan::All { bypass, .. } => *bypass,
            ScanPlan::StartTable { bypass, .. } => *bypass,
            ScanPlan::Candidates { .. } => PrefilterBypass::NoBypass,
        }
    }

    /// The start selection used.
    pub fn path(&self) -> (path: PrefilterPath)
        ensures
            path == match self {
                ScanPlan::All { .. } => PrefilterPath::AllStarts,
                ScanPlan::StartTable { .. } => PrefilterPath::StartTable,
                ScanPlan::Candidates { .. } => PrefilterPath::Literal,
            },
    {
        match self {
            ScanPlan::All { .. } => PrefilterPath::AllStarts,
            ScanPlan::StartTable { .. } => PrefilterPath::StartTable,
            ScanPlan::Candidates { .. } => PrefilterPath::Literal,
        }
    }

    /// Why the literal filter was not used.
    pub fn bypass(&self) -> (bypass: PrefilterBypass)
        ensures
            bypass == match self {
                ScanPlan::All { bypass, .. } => *bypass,
                ScanPlan::StartTable { bypass, .. } => *bypass,
                ScanPlan::Candidates { .. } => PrefilterBypass::NoBypass,
            },
    {
        match self {
            ScanPlan::All { bypass, .. } => *bypass,
            ScanPlan::StartTable { bypass, .. } => *bypass,
            ScanPlan::Candidates { .. } => PrefilterBypass::NoBypass,
        }
    }

    /// Literal admissions counted while planning.
    pub fn admissions(&self) -> (admissions: u64)
        ensures
            admissions == match self {
                ScanPlan::Candidates { admissions, .. } => *admissions,
                _ => 0,
            },
    {
        match self {
            ScanPlan::Candidates { admissions, .. } => *admissions,
            _ => 0,
        }
    }

    /// Number of candidate starts.
    pub fn candidate_count(&self) -> (count: usize)
        requires
            self matches ScanPlan::Candidates { candidates, .. } ==> candidates.well_formed(),
        ensures
            count == match self {
                ScanPlan::Candidates { candidates, .. } => count_set(candidates@),
                _ => 0,
            },
    {
        match self {
            ScanPlan::Candidates { candidates, .. } => candidates.count(),
            _ => 0,
        }
    }

    /// Bytes retained by the prefilter.
    pub fn retained_bytes(&self) -> (bytes: usize)
        ensures
            bytes == match self {
                ScanPlan::All { retained_bytes, .. } => *retained_bytes,
                ScanPlan::StartTable { retained_bytes, .. } => *retained_bytes,
                ScanPlan::Candidates { retained_bytes, .. } => *retained_bytes,
            },
    {
        match self {
            ScanPlan::All { retained_bytes, .. } => *retained_bytes,
            ScanPlan::StartTable { retained_bytes, .. } => *retained_bytes,
            ScanPlan::Candidates { retained_bytes, .. } => *retained_bytes,
        }
    }

    /// Bytes held by the candidate bitmap.
    pub fn candidate_bytes(&self) -> (bytes: usize)
        ensures
            match self {
                ScanPlan::Candidates { candidates, .. } => bytes == 8 * candidates.word_count() || bytes == usize::MAX,
                _ => bytes == 0,
            },
    {
        match self {
            ScanPlan::Candidates { candidates, .. } => candidates.retained_bytes(),
            _ => 0,
        }
    }
}

/// Start selection compiled once per matcher.
pub struct Prefilter {
    start_table: Option<StartTable>,
    literal: Option<LiteralPrefilter>,
    literal_unavailable: PrefilterBypass,
    retained_bytes: usize,
}

/// A sum that saturates at the top of `usize`.
pub open spec fn saturating_sum(a: int, b: int) -> int {
    if a + b > usize::MAX {
        usize::MAX as int
    } else {
        a + b
    }
}

impl Prefilter {
    /// The prefilter's tables agree with `db` and with `patterns`.
    pub closed spec fn valid(&self, db: PatternDatabase, patterns: Seq<HirPattern>) -> bool {
        &&& self.fits(db)
        &&& (self.literal matches Some(f) ==> forall|i: int| 0 <= i < patterns.len() ==> f.records(
            necessary_prefix_spec(#[trigger] patterns[i].expression_spec()),
        ) && 3 <= necessary_prefix_spec(patterns[i].expression_spec()).len())
    }

    /// A valid literal filter records the necessary prefix of every pattern,
    /// each at least three units long.
    pub proof fn lemma_literal_records(&self, db: PatternDatabase, patterns: Seq<HirPattern>, i: int)
        requires
            self.valid(db, patterns),
            self.literal_spec() is Some,
            0 <= i < patterns.len(),
        ensures
            self.literal_spec()->0.records(necessary_prefix_spec(patterns[i].expression_spec())),
            3 <= necessary_prefix_spec(patterns[i].expression_spec()).len(),
    {
    }

    /// The prefilter's tables can drive a scan of `db`: a start table, when
    /// present, was built from `db`, and neither layer exists for a
    /// database with zero-width assertions.
    pub closed spec fn fits(&self, db: PatternDatabase) -> bool {
        &&& (db.uses_assertions_spec() ==> self.start_table is None && self.literal is None)
        &&& (self.start_table matches Some(t) ==> t.valid(db))
        &&& (self.literal matches Some(f) ==> f.well_shaped() && !db.uses_assertions_spec())
    }

    /// The start table, when one was built.
    pub closed spec fn start_table_spec(&self) -> Option<StartTable> {
        self.start_table
    }

    /// The literal filter, when one was built.
    pub closed spec fn literal_spec(&self) -> Option<LiteralPrefilter> {
        self.literal
    }

    /// The reason recorded for a missing literal filter.
    pub closed spec fn literal_unavailable_spec(&self) -> PrefilterBypass {
        self.literal_unavailable
    }

    /// Bytes retained.
    pub closed spec fn retained_bytes_spec(&self) -> usize {
        self.retained_bytes
    }

    /// A prefilter that filters nothing.
    pub fn empty() -> (prefilter: Prefilter)
        ensures
            prefilter.start_table_spec() is None,
            prefilter.literal_spec() is None,
            prefilter.literal_unavailable_spec() == PrefilterBypass::Disabled,
            prefilter.retained_bytes_spec() == 0,
            forall|db: PatternDatabase| #[trigger] prefilter.fits(db),
    {
        Prefilter {
            start_table: None,
            literal: None,
            literal_unavailable: PrefilterBypass::Disabled,
            retained_bytes: 0,
        }
    }

    /// Compiles the start table and, for large pattern sets whose every
    /// pattern has a necessary literal, the literal filter.
    pub fn compile(patterns: &[HirPattern], db: &PatternDatabase) -> (prefilter: Prefilter)
        requires
            db.well_formed(),
        ensures
            prefilter.valid(*db, patterns@),
            db.uses_assertions_spec() ==> prefilter.literal_unavailable_spec() == PrefilterBypass::Assertions,
            !db.uses_assertions_spec() && patterns@.len() < MIN_LITERAL_PATTERN_COUNT ==> prefilter.literal_spec() is None
                && prefilter.literal_unavailable_spec() == PrefilterBypass::PatternCount,
            !db.uses_assertions_spec() && patterns@.len() >= MIN_LITERAL_PATTERN_COUNT ==> (prefilter.literal_spec() is None
                <==> exists|i: int| 0 <= i < patterns@.len() && necessary_prefix_spec(#[trigger] patterns@[i].expression_spec()).len() < 3),
            prefilter.literal_spec() is None && !db.uses_assertions_spec() && patterns@.len() >= MIN_LITERAL_PATTERN_COUNT
                ==> prefilter.literal_unavailable_spec() == PrefilterBypass::Unfilterable,
            prefilter.literal_spec() is Some ==> prefilter.literal_unavailable_spec() == PrefilterBypass::NoBypass,
    {
        if db.uses_assertions() {
            return Prefilter {
                start_table: None,
                literal: None,
                literal_unavailable: PrefilterBypass::Assertions,
                retained_bytes: 0,
            };
        }
        let start_table = StartTable::compile(db);
        let (literal, literal_unavailable) = if patterns.len() < MIN_LITERAL_PATTERN_COUNT {
            (None, PrefilterBypass::PatternCount)
        } else {
            let mut hints: Vec<NecessaryLiteral> = Vec::new();
            let mut ordinal: usize = 0;
            let mut filterable = true;
            while ordinal < patterns.len() && filterable
                invariant
                    ordinal <= patterns@.len(),
                    filterable ==> hints@.len() == ordinal,
                    forall|i: int| 0 <= i < hints@.len() ==> (#[trigger] hints@[i]).units@ == necessary_prefix_spec(patterns@[i].expression_spec())
                        && 3 <= hints@[i].units@.len() <= 32,
                    !filterable ==> exists|i: int| 0 <= i < patterns@.len() && necessary_prefix_spec(#[trigger] patterns@[i].expression_spec()).len() < 3,
                decreases patterns@.len() - ordinal, if filterable { 1int } else { 0int },
            {
                match NecessaryLiteral::from_pattern(ordinal, patterns[ordinal].expression()) {
                    Some(hint) => {
                        hints.push(hint);
                        ordinal = ordinal + 1;
                    },
                    None => {
                        filterable = false;
                    },
                }
            }
            if filterable {
                let filter = LiteralPrefilter::compile(&hints);
                proof {
                    assert(hints@.len() == patterns@.len());
                    assert forall|i: int| 0 <= i < patterns@.len() implies filter.records(
                        necessary_prefix_spec(#[trigger] patterns@[i].expression_spec()),
                    ) && 3 <= necessary_prefix_spec(patterns@[i].expression_spec()).len() by {
                        assert(filter.records(hints@[i].units@));
                    }
                }
                (Some(filter), PrefilterBypass::NoBypass)
            } else {
                (None, PrefilterBypass::Unfilterable)
            }
        };
        let table_bytes: usize = match &start_table {
            Some(table) => table.retained_bytes(),
            None => 0,
        };
        let literal_bytes: usize = match &literal {
            Some(filter) => filter.retained_bytes(),
            None => 0,
        };
        let retained_bytes = if literal_bytes > usize::MAX - table_bytes {
            usize::MAX
        } else {
            table_bytes + literal_bytes
        };
        Prefilter { start_table, literal, literal_unavailable, retained_bytes }
    }

    fn start_or_all(&self, bypass: PrefilterBypass) -> (plan: ScanPlan)
        ensures
            self.start_table is Some ==> plan == (ScanPlan::StartTable { bypass, retained_bytes: self.retained_bytes }),
            self.start_table is None ==> plan == (ScanPlan::All { bypass, retained_bytes: self.retained_bytes }),
    {
        match &self.start_table {
            Some(_) => ScanPlan::StartTable { bypass, retained_bytes: self.retained_bytes },
            None => ScanPlan::All { bypass, retained_bytes: self.retained_bytes },
        }
    }

    /// Length of the density sample taken from an input of `n` units.
    pub open spec fn sample_len_spec(n: nat) -> int {
        if n < DENSITY_SAMPLE_UNITS {
            n as int
        } else {
            DENSITY_SAMPLE_UNITS as int
        }
    }

    /// At least half of the sampled starts are literal candidates.
    pub open spec fn dense_spec(filter: LiteralPrefilter, input: Seq<u16>) -> bool {
        let sample = Self::sample_len_spec(input.len());
        let sampled = count_set(admitted_starts(filter, input).take(sample)) as int;
        sampled >= sample || sampled >= sample - sampled
    }

    /// The start selection a scan of `input` uses under these switches.
    pub open spec fn planned_path(&self, input: Seq<u16>, enabled: bool, literal_enabled: bool) -> PrefilterPath {
        if !enabled {
            PrefilterPath::AllStarts
        } else if literal_enabled && self.literal_spec() is Some && input.len() >= MIN_LITERAL_INPUT_UNITS
            && !Self::dense_spec(self.literal_spec()->0, input) {
            PrefilterPath::Literal
        } else if self.start_table_spec() is Some {
            PrefilterPath::StartTable
        } else {
            PrefilterPath::AllStarts
        }
    }

    /// Chooses how a scan of `input` selects its starts.
    pub fn plan(&self, input: &[u16], enabled: bool, literal_enabled: bool) -> (plan: ScanPlan)
        requires
            self.literal_spec() matches Some(f) ==> f.well_shaped(),
        ensures
            !enabled ==> plan == (ScanPlan::All { bypass: PrefilterBypass::Disabled, retained_bytes: self.retained_bytes_spec() }),
            plan is StartTable ==> self.start_table_spec() is Some,
            plan is All && enabled ==> self.start_table_spec() is None,
            enabled && !literal_enabled ==> plan.bypass_spec() == PrefilterBypass::LiteralDisabled,
            enabled && literal_enabled && self.literal_spec() is None ==> plan.bypass_spec() == self.literal_unavailable_spec(),
            enabled && literal_enabled && self.literal_spec() is Some && input@.len() < MIN_LITERAL_INPUT_UNITS
                ==> plan.bypass_spec() == PrefilterBypass::InputSize,
            plan matches ScanPlan::Candidates { candidates, .. } ==> candidates.well_formed()
                && self.literal_spec() is Some && candidates@ == admitted_starts(self.literal_spec()->0, input@),
            plan is Candidates ==> enabled && literal_enabled && input@.len() >= MIN_LITERAL_INPUT_UNITS,
            plan.path_spec() == self.planned_path(input@, enabled, literal_enabled),
    {
        if !enabled {
            return ScanPlan::All { bypass: PrefilterBypass::Disabled, retained_bytes: self.retained_bytes };
        }
        if !literal_enabled {
            return self.start_or_all(PrefilterBypass::LiteralDisabled);
        }
        let filter = match &self.literal {
            Some(filter) => filter,
            None => return self.start_or_all(self.literal_unavailable),
        };
        if input.len() < MIN_LITERAL_INPUT_UNITS {
            return self.start_or_all(PrefilterBypass::InputSize);
        }
        let sample_len = if input.len() < DENSITY_SAMPLE_UNITS {
            input.len()
        } else {
            DENSITY_SAMPLE_UNITS
        };
        let mut sample = CandidateBitmap::new(sample_len);
        let mut admissions: u64 = 0;
        filter.scan_starts(input, 0, sample_len, &mut sample, &mut admissions);
        proof {
            assert(sample@ =~= admitted_starts(*filter, input@).take(sample_len as int));
        }
        let sampled = sample.count();
        if sampled >= sample_len || sampled >= sample_len - sampled {
            return self.start_or_all(PrefilterBypass::DenseSample);
        }
        let mut candidates = CandidateBitmap::new(input.len());
        candidates.copy_prefix(&sample);
        filter.scan_starts(input, sample_len, input.len(), &mut candidates, &mut admissions);
        proof {
            assert(candidates@ =~= admitted_starts(*filter, input@));
        }
        ScanPlan::Candidates { candidates, admissions, retained_bytes: self.retained_bytes }
    }

    /// Bytes retained.
    pub fn retained_bytes(&self) -> (bytes: usize)
        ensures
            bytes == self.retained_bytes_spec(),
    {
        self.retained_bytes
    }

    /// Whether a start is admitted by the literal filter shared across
    /// partitions.
    pub fn shared_allows_start(&self, input: &[u16], start: usize) -> (allowed: bool)
        requires
            self.literal_spec() matches Some(f) ==> f.well_shaped(),
        ensures
            allowed == (start + 3 <= input@.len() && (match self.literal_spec() {
                Some(f) => f.admits(input@, start as int),
                None => false,
            })),
    {
        if start > input.len() || input.len() - start < 3 {
            return false;
        }
        match &self.literal {
            Some(filter) => filter.prefix_allows(input, start),
            None => false,
        }
    }

    /// Whether a start table was built.
    pub fn has_start_table(&self) -> (present: bool)
        ensures
            present == self.start_table_spec() is Some,
    {
        self.start_table.is_some()
    }

    /// The table's verdict on `start`; without a table every start passes.
    pub fn table_allows(&self, input: &[u16], start: usize) -> (allowed: bool)
        requires
            self.start_table_spec() matches Some(t) ==> t.well_shaped(),
            start < input@.len(),
        ensures
            allowed == match self.start_table_spec() {
                Some(t) => t.allows_spec(input@, start as int),
                None => true,
            },
    {
        match &self.start_table {
            Some(table) => table.allows(input, start),
            None => true,
        }
    }

    /// A valid prefilter's tables are well shaped.
    pub proof fn lemma_fits_shaped(&self, db: PatternDatabase)
        requires
            self.fits(db),
        ensures
            self.start_table_spec() matches Some(t) ==> t.well_shaped() && t.valid(db),
            self.literal_spec() matches Some(f) ==> f.well_shaped(),
            db.uses_assertions_spec() ==> self.start_table_spec() is None && self.literal_spec() is None,
            self.literal_spec() is Some ==> !db.uses_assertions_spec(),
    {
    }

    /// A prefilter valid for some pattern list fits its database.
    pub proof fn lemma_valid_fits(&self, db: PatternDatabase, patterns: Seq<HirPattern>)
        requires
            self.valid(db, patterns),
        ensures
            self.fits(db),
    {
    }
}

} // verus!
