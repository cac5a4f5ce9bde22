//! Thompson-style NFA compilation and the immutable pattern database.
use vstd::prelude::*;

use crate::error::Error;
use crate::hir::{
    any_uses_assertions, hir_well_formed, lemma_item_decreases, uses_assertions_spec, Assertion,
    Hir, HirPattern,
};
use crate::language::{
    alternation_covers, alternation_matches, covers, edge_spells, lemma_alternation_covers_mono,
    lemma_covers_mono, lemma_edge_covers, lemma_reaches_refl, lemma_reaches_step,
    lemma_reaches_trans, lemma_repeat_covers_mono, lemma_sequence_covers_mono, matches_spec,
    literal_units, reaches, repeat_covers, repeat_matches, reported_in, sequence_covers,
    sequence_matches, sequences_nonempty, tables_extend,
};
use crate::predicate::SymbolPredicate;
use crate::types::PatternId;

verus! {

/// Dense identifier of an NFA state.
#[derive(Clone, Copy, Debug, PartialEq, Eq, Structural)]
pub struct StateId(pub u32);

impl StateId {
    /// The identifier for a state index, if it fits the identifier width.
    pub fn for_index(index: usize) -> (id: Result<StateId, Error>)
        ensures
            index <= u32::MAX ==> id == Ok::<StateId, Error>(StateId(index as u32)),
            index > u32::MAX ==> id == Err::<StateId, Error>(Error::PatternSetTooLarge),
    {
        if index <= 0xffff_ffff {
            Ok(StateId(index as u32))
        } else {
            Err(Error::PatternSetTooLarge)
        }
    }

    /// The state's index.
    pub fn index(self) -> (index: usize)
        ensures
            index == self.0,
    {
        self.0 as usize
    }
}

/// Dense identifier of an interned predicate.
#[derive(Clone, Copy, Debug, PartialEq, Eq, Structural)]
pub struct PredicateId(pub u32);

/// What an edge requires of the input.
#[derive(Clone, Copy, Debug, PartialEq, Eq, Structural)]
pub enum EdgeKind {
    Epsilon,
    Assertion(Assertion),
    Symbol(u16),
    Predicate(PredicateId),
}

/// A labelled transition to `target`.
#[derive(Clone, Copy, Debug, PartialEq, Eq, Structural)]
pub struct Edge {
    pub kind: EdgeKind,
    pub target: StateId,
}

/// The compiled, immutable automaton shared by every scan.
#[derive(Debug)]
pub struct PatternDatabase {
    root: StateId,
    edges: Vec<Vec<Edge>>,
    terminals: Vec<Vec<usize>>,
    predicates: Vec<SymbolPredicate>,
    pattern_ids: Vec<PatternId>,
    uses_assertions: bool,
}

/// Every edge in `table` leads to an existing state and names an existing
/// predicate.
pub open spec fn edges_valid(table: Seq<Seq<Edge>>, predicate_count: nat) -> bool {
    forall|s: int, i: int|
        #![trigger table[s][i]]
        0 <= s < table.len() && 0 <= i < table[s].len() ==> {
            &&& (table[s][i].target.0 as int) < table.len()
            &&& (table[s][i].kind matches EdgeKind::Predicate(p) ==> (p.0 as int) < predicate_count)
        }
}

/// No edge in `table` is an assertion.
pub open spec fn assertion_free(table: Seq<Seq<Edge>>) -> bool {
    forall|s: int, i: int|
        #![trigger table[s][i]]
        0 <= s < table.len() && 0 <= i < table[s].len() ==> !(table[s][i].kind is Assertion)
}

/// Every terminal ordinal in `table` names a registered pattern.
pub open spec fn terminals_valid(table: Seq<Seq<usize>>, pattern_count: nat) -> bool {
    forall|s: int, i: int|
        #![trigger table[s][i]]
        0 <= s < table.len() && 0 <= i < table[s].len() ==> (table[s][i] as int) < pattern_count
}

impl PatternDatabase {
    /// Outgoing edges of every state.
    pub closed spec fn edge_table(&self) -> Seq<Seq<Edge>> {
        self.edges@.map_values(|v: Vec<Edge>| v@)
    }

    /// Pattern ordinals accepted at every state.
    pub closed spec fn terminal_table(&self) -> Seq<Seq<usize>> {
        self.terminals@.map_values(|v: Vec<usize>| v@)
    }

    /// Interned predicates, by predicate identifier.
    pub closed spec fn predicate_table(&self) -> Seq<SymbolPredicate> {
        self.predicates@
    }

    /// Caller identities, by registration ordinal.
    pub closed spec fn pattern_table(&self) -> Seq<PatternId> {
        self.pattern_ids@
    }

    /// The start state.
    pub closed spec fn root_spec(&self) -> StateId {
        self.root
    }

    /// Whether any pattern holds an assertion.
    pub closed spec fn uses_assertions_spec(&self) -> bool {
        self.uses_assertions
    }

    /// Number of states.
    pub open spec fn state_count_spec(&self) -> nat {
        self.edge_table().len()
    }

    /// The database invariant: dense, in-range identifiers everywhere.
    pub open spec fn well_formed(&self) -> bool {
        &&& self.terminal_table().len() == self.state_count_spec()
        &&& self.state_count_spec() <= u32::MAX + 1
        &&& (self.root_spec().0 as int) < self.state_count_spec()
        &&& edges_valid(self.edge_table(), self.predicate_table().len())
        &&& terminals_valid(self.terminal_table(), self.pattern_table().len())
        &&& (forall|p: int|
            0 <= p < self.predicate_table().len() ==> #[trigger] self.predicate_table()[p].well_formed())
        &&& (!self.uses_assertions_spec() ==> assertion_free(self.edge_table()))
    }

    /// Whether an edge of `kind` consumes `symbol`.
    pub open spec fn edge_matches_spec(&self, kind: EdgeKind, symbol: u16) -> bool {
        match kind {
            EdgeKind::Symbol(expected) => expected == symbol,
            EdgeKind::Predicate(p) => self.predicate_table()[p.0 as int].contains(symbol),
            _ => false,
        }
    }

    /// The start state.
    pub fn root(&self) -> (root: StateId)
        ensures
            root == self.root_spec(),
    {
        self.root
    }

    /// Number of states.
    pub fn state_count(&self) -> (count: usize)
        ensures
            count == self.state_count_spec(),
    {
        proof {
            assert(self.edge_table().len() == self.edges@.len());
        }
        self.edges.len()
    }

    /// Number of registered patterns.
    pub fn pattern_count(&self) -> (count: usize)
        ensures
            count == self.pattern_table().len(),
    {
        self.pattern_ids.len()
    }

    /// Number of interned predicates.
    pub fn predicate_count(&self) -> (count: usize)
        ensures
            count == self.predicate_table().len(),
    {
        self.predicates.len()
    }

    /// Whether any pattern holds an assertion.
    pub fn uses_assertions(&self) -> (uses: bool)
        ensures
            uses == self.uses_assertions_spec(),
    {
        self.uses_assertions
    }

    /// Outgoing edges of `state`.
    pub fn edges_from(&self, state: StateId) -> (edges: &[Edge])
        requires
            self.well_formed(),
            (state.0 as int) < self.state_count_spec(),
        ensures
            edges@ == self.edge_table()[state.0 as int],
    {
        self.edges[state.0 as usize].as_slice()
    }

    /// Pattern ordinals accepted at `state`.
    pub fn terminals_at(&self, state: StateId) -> (terminals: &[usize])
        requires
            self.well_formed(),
            (state.0 as int) < self.state_count_spec(),
        ensures
            terminals@ == self.terminal_table()[state.0 as int],
    {
        self.terminals[state.0 as usize].as_slice()
    }

    /// The caller identity of registration `ordinal`.
    pub fn pattern_id(&self, ordinal: usize) -> (id: PatternId)
        requires
            ordinal < self.pattern_table().len(),
        ensures
            id == self.pattern_table()[ordinal as int],
    {
        self.pattern_ids[ordinal]
    }

    /// Whether an edge of `kind` consumes `symbol`.
    pub fn edge_matches(&self, kind: EdgeKind, symbol: u16) -> (matched: bool)
        requires
            self.well_formed(),
            kind matches EdgeKind::Predicate(p) ==> (p.0 as int) < self.predicate_table().len(),
        ensures
            matched == self.edge_matches_spec(kind, symbol),
    {
        match kind {
            EdgeKind::Epsilon => false,
            EdgeKind::Assertion(_) => false,
            EdgeKind::Symbol(expected) => expected == symbol,
            EdgeKind::Predicate(predicate) => self.predicates[predicate.0 as usize].matches(symbol),
        }
    }

    /// Total number of edges.
    pub fn edge_count(&self) -> (count: usize)
        ensures
            edge_total(self.edge_table()) >= 0,
            count == saturate(edge_total(self.edge_table())),
    {
        let mut total: usize = 0;
        let mut state: usize = 0;
        while state < self.edges.len()
            invariant
                state <= self.edges@.len(),
                edge_total(self.edge_table().take(state as int)) >= 0,
                total == saturate(edge_total(self.edge_table().take(state as int))),
                self.edge_table().len() == self.edges@.len(),
            decreases self.edges@.len() - state,
        {
            proof {
                assert(self.edge_table().take(state + 1).drop_last() =~= self.edge_table().take(
                    state as int,
                ));
            }
            let count = self.edges[state].len();
            if total < usize::MAX {
                total = if count > usize::MAX - total {
                    usize::MAX
                } else {
                    total + count
                };
            }
            state = state + 1;
        }
        proof {
            assert(self.edge_table().take(state as int) =~= self.edge_table());
        }
        total
    }

    /// Total number of terminal entries.
    pub fn terminal_count(&self) -> (count: usize)
        ensures
            terminal_total(self.terminal_table()) >= 0,
            count == saturate(terminal_total(self.terminal_table())),
    {
        let mut total: usize = 0;
        let mut state: usize = 0;
        while state < self.terminals.len()
            invariant
                state <= self.terminals@.len(),
                terminal_total(self.terminal_table().take(state as int)) >= 0,
                total == saturate(terminal_total(self.terminal_table().take(state as int))),
                self.terminal_table().len() == self.terminals@.len(),
            decreases self.terminals@.len() - state,
        {
            proof {
                assert(self.terminal_table().take(state + 1).drop_last() =~= self.terminal_table().take(
                    state as int,
                ));
            }
            let count = self.terminals[state].len();
            if total < usize::MAX {
                total = if count > usize::MAX - total {
                    usize::MAX
                } else {
                    total + count
                };
            }
            state = state + 1;
        }
        proof {
            assert(self.terminal_table().take(state as int) =~= self.terminal_table());
        }
        total
    }
}

/// `x`, or the largest `usize` where `x` exceeds it.
pub open spec fn saturate(x: int) -> int {
    if x > usize::MAX {
        usize::MAX as int
    } else {
        x
    }
}

/// Bytes accounted for a database of these sizes, saturating.
pub open spec fn database_bytes(states: int, edges: int, terminals: int, predicates: int, patterns: int) -> int {
    saturate(48 * states + 12 * edges + 8 * terminals + 40 * predicates + 4 * patterns)
}

impl PatternDatabase {
    /// Bytes accounted for the database's tables: 48 per state, 12 per
    /// edge, 8 per terminal entry, 40 per predicate and 4 per pattern.
    pub open spec fn retained_bytes_spec(&self) -> int {
        database_bytes(
            self.state_count_spec() as int,
            edge_total(self.edge_table()),
            terminal_total(self.terminal_table()),
            self.predicate_table().len() as int,
            self.pattern_table().len() as int,
        )
    }

    /// Bytes accounted for the database's tables, saturating.
    pub fn retained_bytes(&self) -> (bytes: usize)
        ensures
            bytes == self.retained_bytes_spec(),
            self.state_count_spec() > 0 ==> bytes > 0,
    {
        let states = self.state_count();
        let edges = self.edge_count();
        let terminals = self.terminal_count();
        let predicates = self.predicate_count();
        let patterns = self.pattern_count();
        let total = crate::hir::saturating_mul(states, 48);
        let total = crate::engine::add_usize(total, crate::hir::saturating_mul(edges, 12));
        let total = crate::engine::add_usize(total, crate::hir::saturating_mul(terminals, 8));
        let total = crate::engine::add_usize(total, crate::hir::saturating_mul(predicates, 40));
        let total = crate::engine::add_usize(total, crate::hir::saturating_mul(patterns, 4));
        total
    }
}

/// Number of edges in a table.
pub open spec fn edge_total(table: Seq<Seq<Edge>>) -> int
    decreases table.len(),
{
    if table.len() == 0 {
        0
    } else {
        edge_total(table.drop_last()) + table.last().len()
    }
}

/// Number of terminal entries in a table.
pub open spec fn terminal_total(table: Seq<Seq<usize>>) -> int
    decreases table.len(),
{
    if table.len() == 0 {
        0
    } else {
        terminal_total(table.drop_last()) + table.last().len()
    }
}

/// The states compiling `h` adds besides the two it runs between.
pub open spec fn state_need(h: Hir) -> nat
    decreases h,
{
    match h {
        Hir::Sequence(v) => if v@.len() == 0 {
            0
        } else {
            items_state_need(v@) + (v@.len() - 1) as nat
        },
        Hir::Alternation(v) => items_state_need(v@),
        Hir::Repeat { expression, min, max } => repeat_state_need(state_need(*expression), min as nat, max),
        _ => 0,
    }
}

/// The states the expressions of `s` add, together.
pub open spec fn items_state_need(s: Seq<Hir>) -> nat
    decreases s,
{
    if s.len() == 0 {
        0
    } else {
        items_state_need(s.drop_last()) + state_need(s.last())
    }
}

/// The states a repetition adds, when one copy adds `inner`: a state after
/// each required copy but a last one that ends the repetition, the optional
/// copies likewise, or one loop state.
pub open spec fn repeat_state_need(inner: nat, min: nat, max: Option<u16>) -> nat {
    let required = (if min > 0 && max == Some(min as u16) {
        (min - 1) as nat
    } else {
        min
    }) + min * inner;
    match max {
        Some(limit) => if limit as nat <= min {
            required
        } else {
            required + ((limit - min - 1) as nat) + ((limit - min) as nat) * inner
        },
        None => required + 1 + inner,
    }
}

/// The predicates compiling `h` may intern, at most.
pub open spec fn predicate_need(h: Hir) -> nat
    decreases h,
{
    match h {
        Hir::Predicate(_) => 1,
        Hir::Sequence(v) => items_predicate_need(v@),
        Hir::Alternation(v) => items_predicate_need(v@),
        Hir::Repeat { expression, min, max } => repeat_copies(min as nat, max) * predicate_need(*expression),
        _ => 0,
    }
}

/// The predicates the expressions of `s` may intern, together.
pub open spec fn items_predicate_need(s: Seq<Hir>) -> nat
    decreases s,
{
    if s.len() == 0 {
        0
    } else {
        items_predicate_need(s.drop_last()) + predicate_need(s.last())
    }
}

/// How many copies of its expression a repetition compiles.
pub open spec fn repeat_copies(min: nat, max: Option<u16>) -> nat {
    match max {
        Some(limit) => if limit as nat <= min {
            min
        } else {
            limit as nat
        },
        None => min + 1,
    }
}

/// The needs of a prefix grow by the needs of the next expression.
proof fn lemma_items_need_step(s: Seq<Hir>, i: int)
    requires
        0 <= i < s.len(),
    ensures
        items_state_need(s.take(i + 1)) == items_state_need(s.take(i)) + state_need(s[i]),
        items_predicate_need(s.take(i + 1)) == items_predicate_need(s.take(i)) + predicate_need(s[i]),
{
    assert(s.take(i + 1).drop_last() =~= s.take(i));
    assert(s.take(i + 1).last() == s[i]);
}

/// A prefix needs no more than the whole list.
proof fn lemma_items_need_prefix(s: Seq<Hir>, i: int)
    requires
        0 <= i <= s.len(),
    ensures
        items_state_need(s.take(i)) <= items_state_need(s),
        items_predicate_need(s.take(i)) <= items_predicate_need(s),
    decreases s.len() - i,
{
    if i == s.len() {
        assert(s.take(i) =~= s);
    } else {
        lemma_items_need_step(s, i);
        lemma_items_need_prefix(s, i + 1);
    }
}

/// Products with a common factor keep the order of the other factors.
proof fn lemma_mul_le(a: int, b: int, c: int)
    requires
        0 <= a <= b,
        0 <= c,
    ensures
        a * c <= b * c,
        (a + 1) * c == a * c + c,
        0 <= a * c,
{
    assert(a * c <= b * c) by (nonlinear_arith)
        requires
            0 <= a <= b,
            0 <= c,
    ;
    assert((a + 1) * c == a * c + c) by (nonlinear_arith);
    assert(0 <= a * c) by (nonlinear_arith)
        requires
            0 <= a,
            0 <= c,
    ;
}

/// The state a literal's unit `m` leads to: fresh states from `base` on,
/// and `end` after the last unit.
pub open spec fn chain_target(base: int, end: int, k: int, m: int) -> int {
    if m == k - 1 {
        end
    } else {
        base + m
    }
}

/// `edge` consumes `unit` and leads to state `target`.
pub open spec fn chain_edge(edge: Edge, unit: u16, target: int) -> bool {
    edge.kind == EdgeKind::Symbol(unit) && edge.target.0 == target
}

/// Compiling a literal spelling `units` from `start` to `end` appended one
/// edge to `start` and added `units.len() - 1` fresh states, each with the
/// one edge that consumes the next unit; nothing else changed.
pub open spec fn literal_chain(
    before: Seq<Seq<Edge>>,
    after: Seq<Seq<Edge>>,
    start: int,
    end: int,
    units: Seq<u16>,
) -> bool {
    let base = before.len() as int;
    let k = units.len() as int;
    &&& after.len() == base + k - 1
    &&& forall|s: int| 0 <= s < base && s != start ==> #[trigger] after[s] == before[s]
    &&& after[start].len() == before[start].len() + 1
    &&& after[start].drop_last() == before[start]
    &&& chain_edge(after[start].last(), units[0], chain_target(base, end, k, 0))
    &&& forall|s: int|
        base <= s < after.len() ==> (#[trigger] after[s]).len() == 1 && chain_edge(
            after[s][0],
            units[s - base + 1],
            chain_target(base, end, k, s - base + 1),
        )
}

/// The mutable automaton under construction.
struct NfaBuilder {
    edges: Vec<Vec<Edge>>,
    terminals: Vec<Vec<usize>>,
    predicates: Vec<SymbolPredicate>,
}

impl NfaBuilder {
    spec fn edge_table(&self) -> Seq<Seq<Edge>> {
        self.edges@.map_values(|v: Vec<Edge>| v@)
    }

    spec fn terminal_table(&self) -> Seq<Seq<usize>> {
        self.terminals@.map_values(|v: Vec<usize>| v@)
    }

    spec fn well_formed(&self) -> bool {
        &&& self.terminals@.len() == self.edges@.len() <= u32::MAX + 1
        &&& edges_valid(self.edge_table(), self.predicates@.len())
        &&& forall|p: int| 0 <= p < self.predicates@.len() ==> #[trigger] self.predicates@[p].well_formed()
    }

    /// What a compilation step keeps: existing states, their terminals, and
    /// assertion freedom when nothing with an assertion was compiled.
    spec fn extends(&self, before: &NfaBuilder, adds_assertions: bool) -> bool {
        &&& self.well_formed()
        &&& before.edges@.len() <= self.edges@.len()
        &&& before.terminals@.len() <= self.terminals@.len()
        &&& before.predicates@.len() <= self.predicates@.len()
        &&& self.predicates@.take(before.predicates@.len() as int) == before.predicates@
        &&& self.terminal_table().take(before.terminals@.len() as int) == before.terminal_table()
        &&& forall|s: int|
            before.terminals@.len() <= s < self.terminals@.len() ==> (#[trigger] self.terminal_table()[s]).len() == 0
        &&& forall|s: int|
            0 <= s < before.edges@.len() ==> before.edge_table()[s].len() <= (#[trigger] self.edge_table()[s]).len()
                && self.edge_table()[s].take(before.edge_table()[s].len() as int) == before.edge_table()[s]
        &&& (!adds_assertions && assertion_free(before.edge_table())) ==> assertion_free(
            self.edge_table(),
        )
    }

    fn add_state(&mut self) -> (state: Result<StateId, Error>)
        requires
            old(self).well_formed(),
        ensures
            final(self).extends(old(self), false),
            state matches Ok(id) ==> id.0 == old(self).edges@.len() && final(self).edges@.len()
                == old(self).edges@.len() + 1,
            state is Ok ==> final(self).edge_table() == old(self).edge_table().push(Seq::empty()),
            state is Err ==> *final(self) == *old(self),
            final(self).predicates@ == old(self).predicates@,
            state matches Err(e) ==> e == Error::PatternSetTooLarge,
            old(self).edges@.len() < u32::MAX ==> state is Ok,
    {
        let id = match StateId::for_index(self.edges.len()) {
            Ok(id) => id,
            Err(error) => {
                proof {
                    self.lemma_extends_self();
                }
                return Err(error);
            },
        };
        if self.edges.len() == usize::MAX {
            proof {
                self.lemma_extends_self();
            }
            return Err(Error::PatternSetTooLarge);
        }
        let ghost before = *self;
        self.edges.push(Vec::new());
        self.terminals.push(Vec::new());
        proof {
            assert(self.terminal_table().take(before.terminals@.len() as int) =~= before.terminal_table());
            assert(self.predicates@.take(before.predicates@.len() as int) =~= before.predicates@);
            assert forall|s: int|
                0 <= s < before.edges@.len() implies before.edge_table()[s].len() <= (#[trigger] self.edge_table()[s]).len()
                && self.edge_table()[s].take(before.edge_table()[s].len() as int) == before.edge_table()[s] by {
                assert(self.edge_table()[s] =~= before.edge_table()[s]);
                assert(self.edge_table()[s].take(before.edge_table()[s].len() as int)
                    =~= before.edge_table()[s]);
            }
            assert forall|s: int, i: int|
                #![trigger self.edge_table()[s][i]]
                0 <= s < self.edge_table().len() && 0 <= i < self.edge_table()[s].len() implies {
                &&& (self.edge_table()[s][i].target.0 as int) < self.edge_table().len()
                &&& (self.edge_table()[s][i].kind matches EdgeKind::Predicate(p) ==> (p.0 as int)
                    < self.predicates@.len())
            } by {
                assert(s < before.edges@.len());
                assert(self.edge_table()[s] == before.edge_table()[s]);
            }
            if assertion_free(before.edge_table()) {
                assert forall|s: int, i: int|
                    #![trigger self.edge_table()[s][i]]
                    0 <= s < self.edge_table().len() && 0 <= i < self.edge_table()[s].len() implies !(
                    self.edge_table()[s][i].kind is Assertion) by {
                    assert(self.edge_table()[s] == before.edge_table()[s]);
                }
            }
        }
        Ok(id)
    }

    proof fn lemma_extends_tables(&self, before: &NfaBuilder, adds_assertions: bool)
        requires
            self.extends(before, adds_assertions),
        ensures
            tables_extend(before.edge_table(), before.predicates@, self.edge_table(), self.predicates@),
    {
    }

    proof fn lemma_extends_self(&self)
        requires
            self.well_formed(),
        ensures
            self.extends(self, false),
    {
        assert(self.terminal_table().take(self.terminals@.len() as int) =~= self.terminal_table());
        assert(self.predicates@.take(self.predicates@.len() as int) =~= self.predicates@);
        assert forall|s: int| 0 <= s < self.edges@.len() implies self.edge_table()[s].len() <= (#[trigger] self.edge_table()[s]).len()
            && self.edge_table()[s].take(self.edge_table()[s].len() as int) == self.edge_table()[s] by {
            assert(self.edge_table()[s].take(self.edge_table()[s].len() as int) =~= self.edge_table()[s]);
        }
    }

    proof fn lemma_extends_transitive(&self, middle: &NfaBuilder, before: &NfaBuilder, a: bool, b: bool)
        requires
            middle.extends(before, a),
            self.extends(middle, b),
        ensures
            self.extends(before, a || b),
    {
        let n = before.terminals@.len() as int;
        let m = middle.terminals@.len() as int;
        assert(self.terminal_table().len() == self.terminals@.len());
        assert(middle.terminal_table().len() == middle.terminals@.len());
        assert(before.terminal_table().len() == before.terminals@.len());
        assert forall|i: int| 0 <= i < n implies self.terminal_table()[i] == before.terminal_table()[i] by {
            assert(self.terminal_table().take(m)[i] == middle.terminal_table()[i]);
            assert(middle.terminal_table().take(n)[i] == before.terminal_table()[i]);
        }
        assert(self.terminal_table().take(n) =~= before.terminal_table());
        let pn = before.predicates@.len() as int;
        let pm = middle.predicates@.len() as int;
        assert forall|q: int| 0 <= q < pn implies self.predicates@[q] == before.predicates@[q] by {
            assert(self.predicates@.take(pm)[q] == middle.predicates@[q]);
            assert(middle.predicates@.take(pn)[q] == before.predicates@[q]);
        }
        assert(self.predicates@.take(pn) =~= before.predicates@);
        assert forall|s: int|
            before.terminals@.len() <= s < self.terminals@.len() implies (#[trigger] self.terminal_table()[s]).len() == 0 by {
            if s < middle.terminals@.len() {
                assert(self.terminal_table()[s] == self.terminal_table().take(middle.terminals@.len() as int)[s]);
                assert(middle.terminal_table()[s].len() == 0);
            }
        }
        assert forall|s: int| 0 <= s < before.edges@.len() implies before.edge_table()[s].len() <= (#[trigger] self.edge_table()[s]).len()
            && self.edge_table()[s].take(before.edge_table()[s].len() as int) == before.edge_table()[s] by {
            let m = middle.edge_table()[s];
            let b = before.edge_table()[s];
            assert(self.edge_table()[s].take(m.len() as int) == m);
            assert(m.take(b.len() as int) == b);
            assert forall|i: int| 0 <= i < b.len() implies self.edge_table()[s][i] == b[i] by {
                assert(self.edge_table()[s].take(m.len() as int)[i] == m[i]);
                assert(m.take(b.len() as int)[i] == b[i]);
            }
            assert(self.edge_table()[s].take(b.len() as int) =~= b);
        }
    }

    fn add_edge(&mut self, source: StateId, kind: EdgeKind, target: StateId)
        requires
            old(self).well_formed(),
            (source.0 as int) < old(self).edges@.len(),
            (target.0 as int) < old(self).edges@.len(),
            kind matches EdgeKind::Predicate(p) ==> (p.0 as int) < old(self).predicates@.len(),
        ensures
            final(self).extends(old(self), kind is Assertion),
            final(self).edges@.len() == old(self).edges@.len(),
            final(self).predicates@ == old(self).predicates@,
            final(self).edge_table()[source.0 as int] == old(self).edge_table()[source.0 as int].push(
                Edge { kind, target },
            ),
            forall|s: int|
                0 <= s < old(self).edges@.len() && s != source.0 as int ==> #[trigger] final(self).edge_table()[s]
                    == old(self).edge_table()[s],
            final(self).terminal_table() == old(self).terminal_table(),
    {
        let ghost before = *self;
        let index = source.0 as usize;
        let mut list: Vec<Edge> = Vec::new();
        std::mem::swap(&mut list, &mut self.edges[index]);
        list.push(Edge { kind, target });
        self.edges.set(index, list);
        proof {
            assert(self.terminal_table() =~= before.terminal_table());
            assert(self.terminal_table().take(before.terminals@.len() as int) =~= before.terminal_table());
            assert(self.predicates@.take(before.predicates@.len() as int) =~= before.predicates@);
            assert forall|s: int|
                0 <= s < before.edges@.len() implies before.edge_table()[s].len() <= (#[trigger] self.edge_table()[s]).len()
                && self.edge_table()[s].take(before.edge_table()[s].len() as int) == before.edge_table()[s] by {
                if s == index {
                    assert(self.edge_table()[s].take(before.edge_table()[s].len() as int) =~= before.edge_table()[s]);
                } else {
                    assert(self.edge_table()[s] == before.edge_table()[s]);
                    assert(self.edge_table()[s].take(before.edge_table()[s].len() as int) =~= before.edge_table()[s]);
                }
            }
            assert forall|s: int, i: int|
                #![trigger self.edge_table()[s][i]]
                0 <= s < self.edge_table().len() && 0 <= i < self.edge_table()[s].len() implies {
                &&& (self.edge_table()[s][i].target.0 as int) < self.edge_table().len()
                &&& (self.edge_table()[s][i].kind matches EdgeKind::Predicate(p) ==> (p.0 as int)
                    < self.predicates@.len())
            } by {
                if s == index && i == before.edge_table()[s].len() {
                } else if s == index {
                    assert(self.edge_table()[s][i] == before.edge_table()[s][i]);
                } else {
                    assert(self.edge_table()[s] == before.edge_table()[s]);
                }
            }
            if !(kind is Assertion) && assertion_free(before.edge_table()) {
                assert forall|s: int, i: int|
                    #![trigger self.edge_table()[s][i]]
                    0 <= s < self.edge_table().len() && 0 <= i < self.edge_table()[s].len() implies !(
                    self.edge_table()[s][i].kind is Assertion) by {
                    if s == index && i == before.edge_table()[s].len() {
                    } else if s == index {
                        assert(self.edge_table()[s][i] == before.edge_table()[s][i]);
                    } else {
                        assert(self.edge_table()[s] == before.edge_table()[s]);
                    }
                }
            }
        }
    }

    /// Finds an equal predicate or appends a new one.
    fn intern_predicate(&mut self, predicate: SymbolPredicate) -> (id: Result<PredicateId, Error>)
        requires
            old(self).well_formed(),
            predicate.well_formed(),
        ensures
            final(self).extends(old(self), false),
            final(self).edges@ == old(self).edges@,
            id matches Ok(p) ==> (p.0 as int) < final(self).predicates@.len()
                && final(self).predicates@[p.0 as int]@ == predicate@,
            id matches Err(e) ==> e == Error::PatternSetTooLarge,
            final(self).predicates@.len() <= old(self).predicates@.len() + 1,
            old(self).predicates@.len() <= u32::MAX ==> id is Ok,
    {
        proof {
            self.lemma_extends_self();
        }
        let mut index: usize = 0;
        while index < self.predicates.len()
            invariant
                index <= self.predicates@.len(),
                self.extends(old(self), false),
                *self == *old(self),
            decreases self.predicates@.len() - index,
        {
            if self.predicates[index].same_as(&predicate) {
                if index <= 0xffff_ffff {
                    return Ok(PredicateId(index as u32));
                }
            }
            index = index + 1;
        }
        if self.predicates.len() > 0xffff_ffff {
            return Err(Error::PatternSetTooLarge);
        }
        let id = PredicateId(self.predicates.len() as u32);
        let ghost before = *self;
        self.predicates.push(predicate);
        proof {
            assert(self.edge_table() == before.edge_table());
            assert(self.terminal_table() == before.terminal_table());
            assert(self.predicates@.take(before.predicates@.len() as int) =~= before.predicates@);
            before.lemma_extends_self();
        }
        Ok(id)
    }

    /// Adds paths from `start` to `end` that spell `expression`.
    fn compile_expression(&mut self, expression: &Hir, start: StateId, end: StateId) -> (compiled:
        Result<(), Error>)
        requires
            old(self).well_formed(),
            hir_well_formed(*expression),
            (start.0 as int) < old(self).edges@.len(),
            (end.0 as int) < old(self).edges@.len(),
        ensures
            final(self).extends(old(self), uses_assertions_spec(*expression)),
            compiled matches Err(e) ==> e == Error::PatternSetTooLarge,
            compiled is Ok ==> final(self).edges@.len() == old(self).edges@.len() + state_need(*expression),
            final(self).predicates@.len() <= old(self).predicates@.len() + predicate_need(*expression),
            old(self).edges@.len() + state_need(*expression) <= u32::MAX && old(self).predicates@.len()
                + predicate_need(*expression) <= u32::MAX ==> compiled is Ok,
            compiled is Ok && sequences_nonempty(*expression) ==> covers(
                final(self).edge_table(),
                final(self).predicates@,
                *expression,
                start.0 as int,
                end.0 as int,
            ),
            compiled is Ok && literal_units(*expression) is Some ==> literal_chain(
                old(self).edge_table(),
                final(self).edge_table(),
                start.0 as int,
                end.0 as int,
                literal_units(*expression)->0,
            ),
        decreases *expression, 1nat,
    {
        proof {
            self.lemma_extends_self();
        }
        match expression {
            Hir::Never => {
                proof {
                    assert forall|input: Seq<u16>, origin: int, i: int, j: int|
                        #[trigger] matches_spec(*expression, input, origin, i, j) implies reaches(
                        self.edge_table(),
                        self.predicates@,
                        input,
                        origin,
                        start.0 as int,
                        i,
                        end.0 as int,
                        j,
                    ) by {}
                }
                Ok(())
            },
            Hir::Epsilon => {
                self.add_edge(start, EdgeKind::Epsilon, end);
                proof {
                    lemma_edge_covers(self.edge_table(), self.predicates@, *expression, start.0 as int, end.0 as int);
                }
                Ok(())
            },
            Hir::Assertion(assertion) => {
                self.add_edge(start, EdgeKind::Assertion(*assertion), end);
                proof {
                    lemma_edge_covers(self.edge_table(), self.predicates@, *expression, start.0 as int, end.0 as int);
                }
                Ok(())
            },
            Hir::Symbol(symbol) => {
                let ghost before = *self;
                self.add_edge(start, EdgeKind::Symbol(*symbol), end);
                proof {
                    lemma_edge_covers(self.edge_table(), self.predicates@, *expression, start.0 as int, end.0 as int);
                    let s0 = start.0 as int;
                    assert(self.edge_table()[s0].drop_last() =~= before.edge_table()[s0]);
                }
                Ok(())
            },
            Hir::Predicate(predicate) => {
                let ghost before = *self;
                let id = match self.intern_predicate(predicate.duplicate()) {
                    Ok(id) => id,
                    Err(error) => return Err(error),
                };
                let ghost middle = *self;
                self.add_edge(start, EdgeKind::Predicate(id), end);
                proof {
                    self.lemma_extends_transitive(&middle, &before, false, false);
                    lemma_edge_covers(self.edge_table(), self.predicates@, *expression, start.0 as int, end.0 as int);
                }
                Ok(())
            },
            Hir::Sequence(expressions) => {
                let ghost before = *self;
                let ghost items = expressions@;
                let ghost target = sequences_nonempty(*expression);
                let ghost lit = literal_units(*expression) is Some;
                let ghost units = literal_units(*expression)->0;
                let ghost base = before.edges@.len() as int;
                let ghost k = items.len() as int;
                let ghost e0 = before.edge_table();
                let ghost s0 = start.0 as int;
                let ghost t0 = end.0 as int;
                let ghost pbase = before.predicates@.len() as int;
                let mut current = start;
                let mut index: usize = 0;
                proof {
                    assert(items.take(0).len() == 0);
                    if lit {
                        assert(units.len() == k);
                    }
                    assert forall|input: Seq<u16>, origin: int, i: int, j: int|
                        #[trigger] sequence_matches(items.take(0), input, origin, i, j) implies reaches(
                        self.edge_table(),
                        self.predicates@,
                        input,
                        origin,
                        start.0 as int,
                        i,
                        current.0 as int,
                        j,
                    ) by {
                        assert(items.take(0).len() == 0);
                        lemma_reaches_refl(self.edge_table(), self.predicates@, input, origin, start.0 as int, i);
                    }
                }
                while index < expressions.len()
                    invariant
                        self.extends(&before, uses_assertions_spec(*expression)),
                        before.well_formed(),
                        (current.0 as int) < self.edges@.len(),
                        (end.0 as int) < before.edges@.len(),
                        index <= expressions@.len(),
                        hir_well_formed(*expression),
                        *expression matches Hir::Sequence(w) && w == *expressions,
                        before == *old(self),
                        items == expressions@,
                        target == sequences_nonempty(*expression),
                        target ==> sequence_covers(
                            self.edge_table(),
                            self.predicates@,
                            items.take(index as int),
                            start.0 as int,
                            current.0 as int,
                        ),
                        index == items.len() && index > 0 ==> current == end,
                        base == before.edges@.len(),
                        e0 == before.edge_table(),
                        s0 == start.0 as int,
                        t0 == end.0 as int,
                        k == items.len(),
                        (start.0 as int) < base,
                        lit == (literal_units(*expression) is Some),
                        lit ==> units == literal_units(*expression)->0 && units.len() == k && k > 0,
                        lit ==> self.edge_table().len() == base + (if index as int == k { k - 1 } else { index as int }),
                        lit ==> current.0 as int == (if index == 0 { s0 } else if index as int == k { t0 } else { base + index - 1 }),
                        lit ==> forall|q: int| 0 <= q < base && q != s0 ==> #[trigger] self.edge_table()[q] == e0[q],
                        lit && index == 0 ==> self.edge_table()[s0] == e0[s0],
                        lit && index >= 1 ==> self.edge_table()[s0].len() == e0[s0].len() + 1
                            && self.edge_table()[s0].drop_last() == e0[s0]
                            && chain_edge(self.edge_table()[s0].last(), units[0], chain_target(base, t0, k, 0)),
                        lit ==> forall|q: int|
                            base <= q < base + index - 1 ==> (#[trigger] self.edge_table()[q]).len() == 1 && chain_edge(
                                self.edge_table()[q][0],
                                units[q - base + 1],
                                chain_target(base, t0, k, q - base + 1),
                            ),
                        lit && 1 <= index < k ==> self.edge_table()[base + index - 1].len() == 0,
                        pbase == before.predicates@.len(),
                        self.edges@.len() == base + items_state_need(items.take(index as int)) + (if index as int == k
                            && k > 0 { k - 1 } else { index as int }),
                        self.predicates@.len() <= pbase + items_predicate_need(items.take(index as int)),
                    decreases expressions@.len() - index,
                {
                    proof {
                        lemma_items_need_step(items, index as int);
                        lemma_items_need_prefix(items, index + 1);
                    }
                    let ghost middle = *self;
                    let next = if index + 1 == expressions.len() {
                        end
                    } else {
                        match self.add_state() {
                            Ok(next) => next,
                            Err(error) => {
                                proof {
                                    self.lemma_extends_transitive(&middle, &before, uses_assertions_spec(*expression), false);
                                }
                                return Err(error);
                            },
                        }
                    };
                    proof {
                        if index + 1 != expressions.len() {
                            self.lemma_extends_transitive(&middle, &before, uses_assertions_spec(*expression), false);
                        } else {
                            middle.lemma_extends_self();
                        }
                        lemma_item_decreases(*expression, *expressions, index as int);
                        crate::hir::lemma_all_well_formed(expressions@);
                        lemma_any_uses(expressions@, index as int);
                    }
                    let ghost middle2 = *self;
                    let compiled = self.compile_expression(&expressions[index], current, next);
                    proof {
                        self.lemma_extends_transitive(&middle2, &before, uses_assertions_spec(*expression), uses_assertions_spec(expressions@[index as int]));
                    }
                    match compiled {
                        Ok(()) => {},
                        Err(error) => return Err(error),
                    }
                    proof {
                        if lit {
                            let i = index as int;
                            assert(items[i] is Symbol);
                            assert(items[i] == Hir::Symbol(units[i]));
                            assert(literal_units(items[i]) == Some(seq![units[i]]));
                            let e1 = middle2.edge_table();
                            let e2 = self.edge_table();
                            let c0 = current.0 as int;
                            assert(literal_chain(e1, e2, c0, next.0 as int, seq![units[i]]));
                            if index + 1 != expressions.len() {
                                assert(e1 == middle.edge_table().push(Seq::empty()));
                                assert(next.0 as int == base + i);
                            }
                            assert forall|q: int| 0 <= q < base && q != s0 implies #[trigger] e2[q] == e0[q] by {
                                assert(e2[q] == e1[q]);
                                assert(e1[q] == middle.edge_table()[q]);
                            }
                            if index == 0 {
                                assert(e2[s0].drop_last() == e1[s0]);
                                assert(e1[s0] == middle.edge_table()[s0]);
                            } else {
                                assert(e2[s0] == e1[s0]);
                                assert(e1[s0] == middle.edge_table()[s0]);
                            }
                            assert forall|q: int|
                                base <= q < base + (i + 1) - 1 implies (#[trigger] e2[q]).len() == 1 && chain_edge(
                                    e2[q][0],
                                    units[q - base + 1],
                                    chain_target(base, t0, k, q - base + 1),
                                ) by {
                                if q < base + i - 1 {
                                    assert(e2[q] == e1[q]);
                                    assert(e1[q] == middle.edge_table()[q]);
                                } else {
                                    assert(q == c0);
                                    assert(e1[q] == middle.edge_table()[q]);
                                    assert(e2[q].drop_last() == e1[q]);
                                    assert(e2[q].len() == 1);
                                    assert(e2[q][0] == e2[q].last());
                                }
                            }
                            if i + 1 < k {
                                assert(e2[base + i] == e1[base + i]);
                            }
                        }
                        if target {
                            let item = items[index as int];
                            crate::language::lemma_all_sequences_nonempty(items, index as int);
                            self.lemma_extends_transitive(&middle2, &middle, false, uses_assertions_spec(item));
                            self.lemma_extends_tables(&middle, false || uses_assertions_spec(item));
                            lemma_sequence_covers_mono(
                                middle.edge_table(),
                                middle.predicates@,
                                self.edge_table(),
                                self.predicates@,
                                items.take(index as int),
                                start.0 as int,
                                current.0 as int,
                            );
                            let longer = items.take(index + 1);
                            assert(longer.drop_last() =~= items.take(index as int));
                            assert(longer.last() == item);
                            assert forall|input: Seq<u16>, origin: int, i: int, j: int|
                                #[trigger] sequence_matches(longer, input, origin, i, j) implies reaches(
                                self.edge_table(),
                                self.predicates@,
                                input,
                                origin,
                                start.0 as int,
                                i,
                                next.0 as int,
                                j,
                            ) by {
                                let k = crate::language::sequence_split_point(longer, input, origin, i, j, i);
                                assert(matches_spec(item, input, origin, k, j));
                                lemma_reaches_trans(
                                    self.edge_table(),
                                    self.predicates@,
                                    input,
                                    origin,
                                    start.0 as int,
                                    i,
                                    current.0 as int,
                                    k,
                                    next.0 as int,
                                    j,
                                );
                            }
                        }
                    }
                    current = next;
                    index = index + 1;
                }
                proof {
                    assert(items.take(index as int) =~= items);
                    if target {
                        assert forall|input: Seq<u16>, origin: int, i: int, j: int|
                            #[trigger] matches_spec(*expression, input, origin, i, j) implies reaches(
                            self.edge_table(),
                            self.predicates@,
                            input,
                            origin,
                            start.0 as int,
                            i,
                            end.0 as int,
                            j,
                        ) by {
                            assert(sequence_matches(items, input, origin, i, j));
                        }
                    }
                    if lit {
                        assert(literal_chain(e0, self.edge_table(), s0, t0, units));
                    }
                }
                Ok(())
            },
            Hir::Alternation(expressions) => {
                let ghost before = *self;
                let ghost items = expressions@;
                let ghost target = sequences_nonempty(*expression);
                let ghost base = before.edges@.len() as int;
                let ghost pbase = before.predicates@.len() as int;
                let mut index: usize = 0;
                proof {
                    assert(items.take(0).len() == 0);
                    assert forall|input: Seq<u16>, origin: int, i: int, j: int|
                        #[trigger] alternation_matches(items.take(0), input, origin, i, j) implies reaches(
                        self.edge_table(),
                        self.predicates@,
                        input,
                        origin,
                        start.0 as int,
                        i,
                        end.0 as int,
                        j,
                    ) by {
                        assert(items.take(0).len() == 0);
                    }
                }
                while index < expressions.len()
                    invariant
                        self.extends(&before, uses_assertions_spec(*expression)),
                        before.well_formed(),
                        (start.0 as int) < before.edges@.len(),
                        (end.0 as int) < before.edges@.len(),
                        index <= expressions@.len(),
                        hir_well_formed(*expression),
                        *expression matches Hir::Alternation(w) && w == *expressions,
                        before == *old(self),
                        items == expressions@,
                        target == sequences_nonempty(*expression),
                        target ==> alternation_covers(
                            self.edge_table(),
                            self.predicates@,
                            items.take(index as int),
                            start.0 as int,
                            end.0 as int,
                        ),
                        base == before.edges@.len(),
                        pbase == before.predicates@.len(),
                        self.edges@.len() == base + items_state_need(items.take(index as int)),
                        self.predicates@.len() <= pbase + items_predicate_need(items.take(index as int)),
                    decreases expressions@.len() - index,
                {
                    proof {
                        lemma_items_need_step(items, index as int);
                        lemma_items_need_prefix(items, index + 1);
                        lemma_item_decreases(*expression, *expressions, index as int);
                        crate::hir::lemma_all_well_formed(expressions@);
                        lemma_any_uses(expressions@, index as int);
                    }
                    let ghost middle = *self;
                    let compiled = self.compile_expression(&expressions[index], start, end);
                    proof {
                        self.lemma_extends_transitive(&middle, &before, uses_assertions_spec(*expression), uses_assertions_spec(expressions@[index as int]));
                    }
                    match compiled {
                        Ok(()) => {},
                        Err(error) => return Err(error),
                    }
                    proof {
                        if target {
                            let item = items[index as int];
                            crate::language::lemma_all_sequences_nonempty(items, index as int);
                            self.lemma_extends_tables(&middle, uses_assertions_spec(item));
                            lemma_alternation_covers_mono(
                                middle.edge_table(),
                                middle.predicates@,
                                self.edge_table(),
                                self.predicates@,
                                items.take(index as int),
                                start.0 as int,
                                end.0 as int,
                            );
                            let longer = items.take(index + 1);
                            assert(longer.drop_last() =~= items.take(index as int));
                            assert(longer.last() == item);
                            assert forall|input: Seq<u16>, origin: int, i: int, j: int|
                                #[trigger] alternation_matches(longer, input, origin, i, j) implies reaches(
                                self.edge_table(),
                                self.predicates@,
                                input,
                                origin,
                                start.0 as int,
                                i,
                                end.0 as int,
                                j,
                            ) by {
                                if !alternation_matches(longer.drop_last(), input, origin, i, j) {
                                    assert(matches_spec(item, input, origin, i, j));
                                }
                            }
                        }
                    }
                    index = index + 1;
                }
                proof {
                    assert(items.take(index as int) =~= items);
                    if target {
                        assert forall|input: Seq<u16>, origin: int, i: int, j: int|
                            #[trigger] matches_spec(*expression, input, origin, i, j) implies reaches(
                            self.edge_table(),
                            self.predicates@,
                            input,
                            origin,
                            start.0 as int,
                            i,
                            end.0 as int,
                            j,
                        ) by {
                            assert(alternation_matches(items, input, origin, i, j));
                        }
                    }
                }
                Ok(())
            },
            Hir::Repeat { expression: inner, min, max } => {
                self.compile_repetition(Ghost(*expression), inner, *min, *max, start, end)
            },
        }
    }

    /// Unrolls the required copies, then the optional copies or a loop.
    #[verifier::rlimit(40)]
    fn compile_repetition(
        &mut self,
        Ghost(whole): Ghost<Hir>,
        expression: &Hir,
        min: u16,
        max: Option<u16>,
        start: StateId,
        end: StateId,
    ) -> (compiled: Result<(), Error>)
        requires
            old(self).well_formed(),
            hir_well_formed(whole),
            whole matches Hir::Repeat { expression: e, min: lo, max: hi } && *e == *expression && lo
                == min && hi == max,
            (start.0 as int) < old(self).edges@.len(),
            (end.0 as int) < old(self).edges@.len(),
        ensures
            final(self).extends(old(self), uses_assertions_spec(*expression)),
            compiled matches Err(e) ==> e == Error::PatternSetTooLarge,
            compiled is Ok ==> final(self).edges@.len() == old(self).edges@.len() + state_need(whole),
            final(self).predicates@.len() <= old(self).predicates@.len() + predicate_need(whole),
            old(self).edges@.len() + state_need(whole) <= u32::MAX && old(self).predicates@.len()
                + predicate_need(whole) <= u32::MAX ==> compiled is Ok,
            compiled is Ok && sequences_nonempty(whole) ==> covers(
                final(self).edge_table(),
                final(self).predicates@,
                whole,
                start.0 as int,
                end.0 as int,
            ),
        decreases whole, 0nat,
    {
        let ghost before = *self;
        let ghost ua = uses_assertions_spec(*expression);
        let ghost e = *expression;
        let ghost target = sequences_nonempty(whole);
        let ghost s0 = start.0 as int;
        let ghost t0 = end.0 as int;
        let ghost n = state_need(e) as int;
        let ghost p = predicate_need(e) as int;
        let ghost base = before.edges@.len() as int;
        let ghost pbase = before.predicates@.len() as int;
        let ghost exact = max == Some(min);
        let ghost copies = repeat_copies(min as nat, max) as int;
        let ghost total = repeat_state_need(n as nat, min as nat, max) as int;
        let ghost required_need = (if min > 0 && exact { min - 1 } else { min as int }) + min * n;
        proof {
            self.lemma_extends_self();
            assert(decreases_to!(whole => *expression));
            assert(state_need(whole) == total);
            assert(predicate_need(whole) == copies * p);
            lemma_mul_le(min as int, copies, p);
            lemma_mul_le(0, min as int, n);
            assert(total >= required_need) by {
                match max {
                    Some(limit) => {
                        if limit > min {
                            lemma_mul_le(0, limit - min, n);
                        }
                    },
                    None => {},
                }
            }
            assert(target == sequences_nonempty(e));
            crate::language::lemma_repeat_covers_zero(self.edge_table(), self.predicates@, e, s0);
        }
        let mut current = start;
        let mut required: u16 = 0;
        while required < min
            invariant
                self.extends(&before, ua),
                before.well_formed(),
                hir_well_formed(*expression),
                (current.0 as int) < self.edges@.len(),
                (end.0 as int) < before.edges@.len(),
                required <= min,
                ua == uses_assertions_spec(*expression),
                before == *old(self),
                decreases_to!(whole => *expression),
                e == *expression,
                s0 == start.0 as int,
                t0 == end.0 as int,
                target == sequences_nonempty(e),
                target ==> repeat_covers(self.edge_table(), self.predicates@, e, required as nat, s0, current.0 as int),
                required > 0 && required == min && max == Some(min) ==> current == end,
                n == state_need(e),
                p == predicate_need(e),
                base == before.edges@.len(),
                pbase == before.predicates@.len(),
                exact == (max == Some(min)),
                total >= required_need,
                state_need(whole) == total,
                predicate_need(whole) == copies * p,
                required_need == (if min > 0 && exact { min - 1 } else { min as int }) + min * n,
                copies * p >= min * p,
                n >= 0,
                p >= 0,
                self.edges@.len() == base + required * n + (if required > 0 && required == min && exact {
                    required - 1
                } else {
                    required as int
                }),
                self.predicates@.len() <= pbase + required * p,
            decreases min - required,
        {
            proof {
                lemma_mul_le(required as int, min as int, n);
                lemma_mul_le(required + 1, min as int, n);
                lemma_mul_le(required as int, min as int, p);
                lemma_mul_le(required + 1, min as int, p);
            }
            let ghost middle = *self;
            let next = if required + 1 == min && max == Some(min) {
                end
            } else {
                match self.add_state() {
                    Ok(next) => next,
                    Err(error) => {
                        proof {
                            self.lemma_extends_transitive(&middle, &before, ua, false);
                        }
                        return Err(error);
                    },
                }
            };
            proof {
                if !(required + 1 == min && max == Some(min)) {
                    self.lemma_extends_transitive(&middle, &before, ua, false);
                } else {
                    middle.lemma_extends_self();
                }
            }
            let ghost middle2 = *self;
            let compiled = self.compile_expression(expression, current, next);
            proof {
                self.lemma_extends_transitive(&middle2, &before, ua, ua);
            }
            match compiled {
                Ok(()) => {},
                Err(error) => return Err(error),
            }
            proof {
                if target {
                    self.lemma_extends_transitive(&middle2, &middle, false, ua);
                    self.lemma_extends_tables(&middle, ua);
                    lemma_repeat_covers_mono(
                        middle.edge_table(),
                        middle.predicates@,
                        self.edge_table(),
                        self.predicates@,
                        e,
                        required as nat,
                        s0,
                        current.0 as int,
                    );
                    crate::language::lemma_repeat_covers_step(
                        self.edge_table(),
                        self.predicates@,
                        e,
                        required as nat,
                        s0,
                        current.0 as int,
                        next.0 as int,
                    );
                }
            }
            current = next;
            required = required + 1;
        }
        proof {
            assert(self.edges@.len() == base + required_need);
        }
        match max {
            Some(limit) => {
                if limit == min {
                    if min == 0 {
                        let ghost middle = *self;
                        self.add_edge(start, EdgeKind::Epsilon, end);
                        proof {
                            self.lemma_extends_transitive(&middle, &before, ua, false);
                            if target {
                                let q = self.edge_table()[s0].len() - 1;
                                assert(crate::language::epsilon_edge(self.edge_table(), s0, q, t0));
                                assert forall|input: Seq<u16>, origin: int, i: int, j: int|
                                    #[trigger] matches_spec(whole, input, origin, i, j) implies reaches(
                                    self.edge_table(),
                                    self.predicates@,
                                    input,
                                    origin,
                                    s0,
                                    i,
                                    t0,
                                    j,
                                ) by {
                                    let c = crate::language::repeat_count(e, 0, 0, input, origin, i, j);
                                    assert(repeat_matches(e, 0, input, origin, i, j));
                                    crate::language::lemma_epsilon_step(self.edge_table(), self.predicates@, input, origin, s0, q, t0, i);
                                }
                            }
                        }
                    } else {
                        proof {
                            if target {
                                assert forall|input: Seq<u16>, origin: int, i: int, j: int|
                                    #[trigger] matches_spec(whole, input, origin, i, j) implies reaches(
                                    self.edge_table(),
                                    self.predicates@,
                                    input,
                                    origin,
                                    s0,
                                    i,
                                    t0,
                                    j,
                                ) by {
                                    let c = crate::language::repeat_count(e, min as nat, limit as nat, input, origin, i, j);
                                    assert(c == min);
                                    assert(repeat_matches(e, min as nat, input, origin, i, j));
                                }
                            }
                        }
                    }
                } else {
                    let mut optional: u16 = min;
                    proof {
                        assert(total == required_need + (limit - min - 1) + (limit - min) * n);
                        assert(copies == limit);
                        assert(copies * p == min * p + (limit - min) * p) by (nonlinear_arith)
                            requires
                                copies == limit,
                        ;
                        assert((optional - min) * n == 0);
                        assert((optional - min) * p == 0);
                    }
                    while optional < limit
                        invariant
                            n == state_need(e),
                            p == predicate_need(e),
                            n >= 0,
                            p >= 0,
                            base == before.edges@.len(),
                            pbase == before.predicates@.len(),
                            min < limit,
                            state_need(whole) == total,
                            predicate_need(whole) == copies * p,
                            required_need == min + min * n,
                            total == required_need + (limit - min - 1) + (limit - min) * n,
                            copies * p == min * p + (limit - min) * p,
                            self.edges@.len() == base + required_need + (optional - min) * n + (if optional == limit {
                                optional - min - 1
                            } else {
                                optional - min
                            }),
                            self.predicates@.len() <= pbase + min * p + (optional - min) * p,
                            self.extends(&before, ua),
                            before.well_formed(),
                            hir_well_formed(*expression),
                            (current.0 as int) < self.edges@.len(),
                            (end.0 as int) < before.edges@.len(),
                            min <= optional <= limit,
                            ua == uses_assertions_spec(*expression),
                            before == *old(self),
                            decreases_to!(whole => *expression),
                            e == *expression,
                            s0 == start.0 as int,
                            t0 == end.0 as int,
                            target == sequences_nonempty(e),
                            target ==> repeat_covers(self.edge_table(), self.predicates@, e, optional as nat, s0, current.0 as int),
                            target ==> forall|n: nat|
                                #![trigger repeat_covers(self.edge_table(), self.predicates@, e, n, s0, t0)]
                                min <= n < optional ==> repeat_covers(self.edge_table(), self.predicates@, e, n, s0, t0),
                            optional > min && optional == limit ==> current == end,
                        decreases limit - optional,
                    {
                        proof {
                            lemma_mul_le(optional - min, limit - min, n);
                            lemma_mul_le(optional - min + 1, limit - min, n);
                            lemma_mul_le(optional - min, limit - min, p);
                            lemma_mul_le(optional - min + 1, limit - min, p);
                        }
                        let ghost middle = *self;
                        self.add_edge(current, EdgeKind::Epsilon, end);
                        proof {
                            self.lemma_extends_transitive(&middle, &before, ua, false);
                        }
                        let ghost middle1 = *self;
                        let next = if optional + 1 == limit {
                            end
                        } else {
                            match self.add_state() {
                                Ok(next) => next,
                                Err(error) => {
                                    proof {
                                        self.lemma_extends_transitive(&middle1, &before, ua, false);
                                    }
                                    return Err(error);
                                },
                            }
                        };
                        proof {
                            if optional + 1 != limit {
                                self.lemma_extends_transitive(&middle1, &before, ua, false);
                            } else {
                                middle1.lemma_extends_self();
                            }
                        }
                        let ghost middle2 = *self;
                        let compiled = self.compile_expression(expression, current, next);
                        proof {
                            self.lemma_extends_transitive(&middle2, &before, ua, ua);
                        }
                        match compiled {
                            Ok(()) => {},
                            Err(error) => return Err(error),
                        }
                        proof {
                            if target {
                                let c0 = current.0 as int;
                                let q = middle1.edge_table()[c0].len() - 1;
                                assert(crate::language::epsilon_edge(middle1.edge_table(), c0, q, t0));
                                self.lemma_extends_transitive(&middle2, &middle1, false, ua);
                                self.lemma_extends_tables(&middle1, ua);
                                middle1.lemma_extends_tables(&middle, false);
                                self.lemma_extends_transitive(&middle1, &middle, false, ua);
                                self.lemma_extends_tables(&middle, ua);
                                crate::language::lemma_epsilon_edge_mono(
                                    middle1.edge_table(),
                                    middle1.predicates@,
                                    self.edge_table(),
                                    self.predicates@,
                                    c0,
                                    q,
                                    t0,
                                );
                                lemma_repeat_covers_mono(
                                    middle.edge_table(),
                                    middle.predicates@,
                                    self.edge_table(),
                                    self.predicates@,
                                    e,
                                    optional as nat,
                                    s0,
                                    c0,
                                );
                                crate::language::lemma_repeat_covers_epsilon(
                                    self.edge_table(),
                                    self.predicates@,
                                    e,
                                    optional as nat,
                                    s0,
                                    c0,
                                    q,
                                    t0,
                                );
                                crate::language::lemma_repeat_covers_step(
                                    self.edge_table(),
                                    self.predicates@,
                                    e,
                                    optional as nat,
                                    s0,
                                    c0,
                                    next.0 as int,
                                );
                                assert forall|n: nat|
                                    #![trigger repeat_covers(self.edge_table(), self.predicates@, e, n, s0, t0)]
                                    min <= n < optional + 1 implies repeat_covers(self.edge_table(), self.predicates@, e, n, s0, t0) by {
                                    if n < optional {
                                        assert(repeat_covers(middle.edge_table(), middle.predicates@, e, n, s0, t0));
                                        lemma_repeat_covers_mono(
                                            middle.edge_table(),
                                            middle.predicates@,
                                            self.edge_table(),
                                            self.predicates@,
                                            e,
                                            n,
                                            s0,
                                            t0,
                                        );
                                    }
                                }
                            }
                        }
                        current = next;
                        optional = optional + 1;
                    }
                    proof {
                        if target {
                            assert forall|input: Seq<u16>, origin: int, i: int, j: int|
                                #[trigger] matches_spec(whole, input, origin, i, j) implies reaches(
                                self.edge_table(),
                                self.predicates@,
                                input,
                                origin,
                                s0,
                                i,
                                t0,
                                j,
                            ) by {
                                let c = crate::language::repeat_count(e, min as nat, limit as nat, input, origin, i, j);
                                if c < limit {
                                    assert(repeat_covers(self.edge_table(), self.predicates@, e, c, s0, t0));
                                }
                            }
                        }
                    }
                }
            },
            None => {
                proof {
                    assert(total == required_need + 1 + n);
                    assert(copies * p == min * p + p) by (nonlinear_arith)
                        requires
                            copies == min + 1,
                    ;
                }
                let ghost middle = *self;
                self.add_edge(current, EdgeKind::Epsilon, end);
                proof {
                    self.lemma_extends_transitive(&middle, &before, ua, false);
                }
                let ghost middle1 = *self;
                let loop_end = match self.add_state() {
                    Ok(state) => state,
                    Err(error) => {
                        proof {
                            self.lemma_extends_transitive(&middle1, &before, ua, false);
                        }
                        return Err(error);
                    },
                };
                proof {
                    self.lemma_extends_transitive(&middle1, &before, ua, false);
                }
                let ghost middle2 = *self;
                let compiled = self.compile_expression(expression, current, loop_end);
                proof {
                    self.lemma_extends_transitive(&middle2, &before, ua, ua);
                }
                match compiled {
                    Ok(()) => {},
                    Err(error) => return Err(error),
                }
                let ghost middle3 = *self;
                self.add_edge(loop_end, EdgeKind::Epsilon, current);
                proof {
                    self.lemma_extends_transitive(&middle3, &before, ua, false);
                    if target {
                        let c0 = current.0 as int;
                        let l0 = loop_end.0 as int;
                        let q = middle1.edge_table()[c0].len() - 1;
                        let back = self.edge_table()[l0].len() - 1;
                        assert(crate::language::epsilon_edge(middle1.edge_table(), c0, q, t0));
                        assert(crate::language::epsilon_edge(self.edge_table(), l0, back, c0));
                        self.lemma_extends_transitive(&middle3, &middle2, ua, false);
                        self.lemma_extends_transitive(&middle2, &middle1, false, ua);
                        self.lemma_extends_transitive(&middle1, &middle, false, ua);
                        self.lemma_extends_tables(&middle1, ua);
                        self.lemma_extends_tables(&middle, ua);
                        self.lemma_extends_tables(&middle3, false);
                        crate::language::lemma_epsilon_edge_mono(
                            middle1.edge_table(),
                            middle1.predicates@,
                            self.edge_table(),
                            self.predicates@,
                            c0,
                            q,
                            t0,
                        );
                        lemma_repeat_covers_mono(
                            middle.edge_table(),
                            middle.predicates@,
                            self.edge_table(),
                            self.predicates@,
                            e,
                            min as nat,
                            s0,
                            c0,
                        );
                        lemma_covers_mono(
                            middle3.edge_table(),
                            middle3.predicates@,
                            self.edge_table(),
                            self.predicates@,
                            e,
                            c0,
                            l0,
                        );
                        assert forall|input: Seq<u16>, origin: int, i: int, j: int|
                            #[trigger] matches_spec(whole, input, origin, i, j) implies reaches(
                            self.edge_table(),
                            self.predicates@,
                            input,
                            origin,
                            s0,
                            i,
                            t0,
                            j,
                        ) by {
                            let most = min + (j - i);
                            let c = crate::language::repeat_count(e, min as nat, most as nat, input, origin, i, j);
                            crate::language::lemma_repeat_cycle(
                                self.edge_table(),
                                self.predicates@,
                                e,
                                min as nat,
                                c,
                                s0,
                                c0,
                                l0,
                                back,
                            );
                            crate::language::lemma_repeat_covers_epsilon(
                                self.edge_table(),
                                self.predicates@,
                                e,
                                c,
                                s0,
                                c0,
                                q,
                                t0,
                            );
                        }
                    }
                }
            },
        }
        Ok(())
    }
}

proof fn lemma_any_uses(s: Seq<Hir>, i: int)
    requires
        0 <= i < s.len(),
    ensures
        uses_assertions_spec(s[i]) ==> any_uses_assertions(s),
    decreases s.len(),
{
    if i < s.len() - 1 {
        lemma_any_uses(s.drop_last(), i);
        assert(s.drop_last()[i] == s[i]);
    }
}

/// Some state of `table` accepts ordinal `i`.
pub open spec fn accepted_somewhere(table: Seq<Seq<usize>>, i: int) -> bool {
    exists|s: int| 0 <= s < table.len() && #[trigger] table[s].contains(i as usize)
}

/// Whether some pattern of `patterns` holds an assertion.
pub open spec fn patterns_use_assertions(patterns: Seq<HirPattern>) -> bool {
    exists|i: int| 0 <= i < patterns.len() && uses_assertions_spec(#[trigger] patterns[i].expression_spec())
}

/// The first state of literal `q`'s chain when the literals `lits` are
/// compiled in order after the root.
pub open spec fn chain_base(lits: Seq<Seq<u16>>, q: int) -> int
    decreases q,
{
    if q <= 0 {
        1
    } else {
        chain_base(lits, q - 1) + lits[q - 1].len() + 1
    }
}

/// The state literal `q`'s chain reaches after `m` of its units: its first
/// state, then fresh states, and its terminal state after the last unit.
pub open spec fn chain_node(lits: Seq<Seq<u16>>, q: int, m: int) -> int {
    let base = chain_base(lits, q);
    if m == 0 {
        base
    } else if m == lits[q].len() {
        base + 1
    } else {
        base + 1 + m
    }
}

/// The database compiled from plain literals `lits`: the root's epsilon
/// edges lead to each literal's first state, each chain state has the one
/// edge that consumes the literal's next unit, and only a literal's last
/// state accepts it.
pub open spec fn literal_shape(edges: Seq<Seq<Edge>>, terminals: Seq<Seq<usize>>, lits: Seq<Seq<u16>>) -> bool {
    let n = lits.len() as int;
    &&& edges.len() == chain_base(lits, n)
    &&& terminals.len() == edges.len()
    &&& edges[0].len() == n
    &&& terminals[0].len() == 0
    &&& forall|q: int|
        0 <= q < n ==> (#[trigger] edges[0][q]).kind == EdgeKind::Epsilon && edges[0][q].target.0
            == chain_base(lits, q)
    &&& forall|q: int| 0 <= q < n ==> (#[trigger] lits[q]).len() > 0
    &&& forall|q: int, m: int|
        #![trigger chain_node(lits, q, m)]
        0 <= q < n && 0 <= m < lits[q].len() ==> {
            &&& edges[chain_node(lits, q, m)].len() == 1
            &&& chain_edge(edges[chain_node(lits, q, m)][0], lits[q][m], chain_node(lits, q, m + 1))
            &&& terminals[chain_node(lits, q, m)].len() == 0
        }
    &&& forall|q: int|
        0 <= q < n ==> edges[#[trigger] chain_node(lits, q, lits[q].len() as int)].len() == 0
            && terminals[chain_node(lits, q, lits[q].len() as int)] == seq![q as usize]
}

/// Every pattern is a plain literal.
pub open spec fn all_literal(patterns: Seq<HirPattern>) -> bool {
    forall|i: int| 0 <= i < patterns.len() ==> #[trigger] literal_units(patterns[i].expression_spec()) is Some
}

/// The units of each pattern, in order.
pub open spec fn pattern_literals(patterns: Seq<HirPattern>) -> Seq<Seq<u16>> {
    Seq::new(patterns.len(), |i: int| literal_units(patterns[i].expression_spec())->0)
}

/// A chain's states depend only on the literals before it.
pub proof fn lemma_chain_base_prefix(lits: Seq<Seq<u16>>, more: Seq<Seq<u16>>, q: int)
    requires
        0 <= q <= lits.len(),
        lits.len() <= more.len(),
        more.take(lits.len() as int) == lits,
    ensures
        chain_base(more, q) == chain_base(lits, q),
    decreases q,
{
    if q > 0 {
        lemma_chain_base_prefix(lits, more, q - 1);
        assert(more.take(lits.len() as int)[q - 1] == lits[q - 1]);
    }
}

/// Chains start after the root and do not shrink.
pub proof fn lemma_chain_base_grows(lits: Seq<Seq<u16>>, q: int, r: int)
    requires
        0 <= q <= r <= lits.len(),
    ensures
        1 <= chain_base(lits, q),
        q < r ==> chain_base(lits, q) + lits[q].len() + 1 <= chain_base(lits, r),
    decreases r,
{
    if r > 0 {
        if q == r {
            lemma_chain_base_grows(lits, q - 1, q - 1);
        } else {
            lemma_chain_base_grows(lits, q, r - 1);
        }
    }
}

/// Compiling one more literal after the root's new epsilon edge extends the
/// shape by its chain.
#[verifier::spinoff_prover]
proof fn lemma_literal_shape_step(
    e0: Seq<Seq<Edge>>,
    t0: Seq<Seq<usize>>,
    e1: Seq<Seq<Edge>>,
    e2: Seq<Seq<Edge>>,
    t2: Seq<Seq<usize>>,
    lits: Seq<Seq<u16>>,
    units: Seq<u16>,
)
    requires
        literal_shape(e0, t0, lits),
        units.len() > 0,
        e1.len() == e0.len() + 2,
        forall|s: int| 0 < s < e0.len() ==> #[trigger] e1[s] == e0[s],
        e1[0].len() == e0[0].len() + 1,
        e1[0].drop_last() == e0[0],
        e1[0].last().kind == EdgeKind::Epsilon,
        e1[0].last().target.0 == e0.len(),
        e1[e0.len() as int].len() == 0,
        e1[e0.len() as int + 1].len() == 0,
        literal_chain(e1, e2, e0.len() as int, e0.len() as int + 1, units),
        t2.len() == e2.len(),
        forall|s: int| 0 <= s < e0.len() ==> #[trigger] t2[s] == t0[s],
        t2[e0.len() as int].len() == 0,
        t2[e0.len() as int + 1] == seq![lits.len() as usize],
        forall|s: int| e0.len() + 2 <= s < t2.len() ==> (#[trigger] t2[s]).len() == 0,
    ensures
        literal_shape(e2, t2, lits.push(units)),
{
    let n = lits.len() as int;
    let more = lits.push(units);
    let base = e0.len() as int;
    let k = units.len() as int;
    assert(more.take(n) =~= lits);
    assert forall|q: int| 0 <= q <= n implies chain_base(more, q) == chain_base(lits, q) by {
        lemma_chain_base_prefix(lits, more, q);
    }
    assert(chain_base(lits, n) == base);
    assert(chain_base(more, n + 1) == base + k + 1);
    assert(e2[0] == e1[0]);
    assert(t2[0] == t0[0]);
    assert forall|q: int| 0 <= q < n + 1 implies (#[trigger] e2[0][q]).kind == EdgeKind::Epsilon && e2[0][q].target.0
        == chain_base(more, q) by {
        if q < n {
            assert(e2[0][q] == e0[0][q]);
        } else {
            assert(e2[0][q] == e1[0].last());
        }
    }
    assert forall|q: int| 0 <= q < n + 1 implies (#[trigger] more[q]).len() > 0 by {
        if q < n {
            assert(more[q] == lits[q]);
        }
    }
    assert forall|q: int, m: int|
        #![trigger chain_node(more, q, m)]
        0 <= q < n + 1 && 0 <= m < more[q].len() implies {
            &&& e2[chain_node(more, q, m)].len() == 1
            &&& chain_edge(e2[chain_node(more, q, m)][0], more[q][m], chain_node(more, q, m + 1))
            &&& t2[chain_node(more, q, m)].len() == 0
        } by {
        if q < n {
            assert(more[q] == lits[q]);
            assert(chain_node(more, q, m) == chain_node(lits, q, m));
            assert(chain_node(more, q, m + 1) == chain_node(lits, q, m + 1));
            lemma_chain_base_grows(lits, q, q + 1);
            lemma_chain_base_grows(lits, q + 1, n);
            let x = chain_node(lits, q, m);
            assert(0 < x < base);
            assert(e2[x] == e1[x]);
            assert(e1[x] == e0[x]);
        } else {
            assert(more[q] == units);
            if m == 0 {
                assert(e2[base] == e1[base].push(e2[base].last())) by {
                    assert(e2[base].drop_last() == e1[base]);
                }
                assert(e2[base][0] == e2[base].last());
            } else {
                let x = base + 1 + m;
                assert(base + 2 <= x < e2.len());
                assert(x - (base + 2) + 1 == m);
            }
        }
    }
    assert forall|q: int|
        0 <= q < n + 1 implies e2[#[trigger] chain_node(more, q, more[q].len() as int)].len() == 0
            && t2[chain_node(more, q, more[q].len() as int)] == seq![q as usize] by {
        if q < n {
            assert(more[q] == lits[q]);
            assert(chain_node(more, q, more[q].len() as int) == chain_node(lits, q, lits[q].len() as int));
            lemma_chain_base_grows(lits, q, q + 1);
            lemma_chain_base_grows(lits, q + 1, n);
            let x = chain_node(lits, q, lits[q].len() as int);
            assert(0 < x < base);
            assert(e2[x] == e1[x]);
            assert(e1[x] == e0[x]);
        } else {
            assert(more[q] == units);
            assert(e2[base + 1] == e1[base + 1]);
        }
    }
}

/// Every match of `h` is traced by a run from the root to a state that
/// accepts `ordinal`.
pub open spec fn reports_matches(db: PatternDatabase, ordinal: int, h: Hir) -> bool {
    reported_in(db.edge_table(), db.predicate_table(), db.terminal_table(), db.root_spec().0 as int, ordinal, h)
}

/// The states a database for `patterns` needs besides its root: for each
/// pattern an entry state, an accepting state and what its expression adds.
pub open spec fn patterns_state_need(patterns: Seq<HirPattern>) -> nat
    decreases patterns.len(),
{
    if patterns.len() == 0 {
        0
    } else {
        patterns_state_need(patterns.drop_last()) + 2 + state_need(patterns.last().expression_spec())
    }
}

/// The predicates a database for `patterns` interns, at most.
pub open spec fn patterns_predicate_need(patterns: Seq<HirPattern>) -> nat
    decreases patterns.len(),
{
    if patterns.len() == 0 {
        0
    } else {
        patterns_predicate_need(patterns.drop_last()) + predicate_need(patterns.last().expression_spec())
    }
}

/// Whether a database for `patterns` numbers its states and predicates
/// within 32 bits.
pub open spec fn fits_identifiers(patterns: Seq<HirPattern>) -> bool {
    1 + patterns_state_need(patterns) <= u32::MAX && patterns_predicate_need(patterns) <= u32::MAX
}

/// The needs of two lists one after the other add up.
pub proof fn lemma_patterns_need_append(a: Seq<HirPattern>, b: Seq<HirPattern>)
    ensures
        patterns_state_need(a + b) == patterns_state_need(a) + patterns_state_need(b),
        patterns_predicate_need(a + b) == patterns_predicate_need(a) + patterns_predicate_need(b),
    decreases b.len(),
{
    if b.len() == 0 {
        assert(a + b =~= a);
    } else {
        assert((a + b).drop_last() =~= a + b.drop_last());
        assert((a + b).last() == b.last());
        lemma_patterns_need_append(a, b.drop_last());
    }
}

/// A contiguous part of a list needs no more than the whole list.
pub proof fn lemma_patterns_need_subrange(s: Seq<HirPattern>, from: int, to: int)
    requires
        0 <= from <= to <= s.len(),
    ensures
        patterns_state_need(s.subrange(from, to)) <= patterns_state_need(s),
        patterns_predicate_need(s.subrange(from, to)) <= patterns_predicate_need(s),
        fits_identifiers(s) ==> fits_identifiers(s.subrange(from, to)),
{
    lemma_patterns_need_append(s.subrange(0, from), s.subrange(from, to));
    lemma_patterns_need_append(s.subrange(0, to), s.subrange(to, s.len() as int));
    assert(s.subrange(0, from) + s.subrange(from, to) =~= s.subrange(0, to));
    assert(s.subrange(0, to) + s.subrange(to, s.len() as int) =~= s);
}

/// Expressions that are all single symbols add no states and intern no
/// predicates.
proof fn lemma_symbols_need(items: Seq<Hir>)
    requires
        forall|m: int| 0 <= m < items.len() ==> #[trigger] items[m] is Symbol,
    ensures
        items_state_need(items) == 0,
        items_predicate_need(items) == 0,
    decreases items.len(),
{
    if items.len() > 0 {
        let rest = items.drop_last();
        assert forall|m: int| 0 <= m < rest.len() implies #[trigger] rest[m] is Symbol by {
            assert(rest[m] == items[m]);
        }
        lemma_symbols_need(rest);
        let last = items.last();
        assert(last is Symbol);
        match last {
            Hir::Symbol(_) => {},
            _ => {},
        }
        assert(state_need(last) == 0);
        assert(predicate_need(last) == 0);
    }
}

/// A plain literal of `n` units adds `n - 1` states and no predicates.
pub proof fn lemma_literal_need(h: Hir)
    requires
        literal_units(h) is Some,
    ensures
        state_need(h) + 1 == literal_units(h)->0.len(),
        predicate_need(h) == 0,
{
    match h {
        Hir::Sequence(v) => {
            lemma_symbols_need(v@);
        },
        _ => {},
    }
}

/// The units of the literals of `patterns`, counted together.
pub open spec fn literal_total(patterns: Seq<HirPattern>) -> nat
    decreases patterns.len(),
{
    if patterns.len() == 0 {
        0
    } else {
        literal_total(patterns.drop_last()) + literal_units(patterns.last().expression_spec())->0.len()
    }
}

/// A set of plain literals fits 32-bit identifiers exactly when its units,
/// its pattern count and the root together stay within `u32::MAX`.
pub proof fn lemma_literal_sets_fit(patterns: Seq<HirPattern>)
    requires
        all_literal(patterns),
    ensures
        patterns_state_need(patterns) == literal_total(patterns) + patterns.len(),
        patterns_predicate_need(patterns) == 0,
        fits_identifiers(patterns) <==> 1 + literal_total(patterns) + patterns.len() <= u32::MAX,
    decreases patterns.len(),
{
    if patterns.len() > 0 {
        let rest = patterns.drop_last();
        assert forall|i: int| 0 <= i < rest.len() implies #[trigger] literal_units(rest[i].expression_spec()) is Some by {
            assert(rest[i] == patterns[i]);
        }
        lemma_literal_sets_fit(rest);
        assert(literal_units(patterns[patterns.len() - 1].expression_spec()) is Some);
        lemma_literal_need(patterns.last().expression_spec());
    }
}

/// Compiles every pattern into one database; registration order is the
/// pattern ordinal. It fails only where the states or predicates would not
/// fit 32-bit identifiers.
pub fn compile(patterns: &[HirPattern]) -> (database: Result<PatternDatabase, Error>)
    requires
        forall|i: int| 0 <= i < patterns@.len() ==> hir_well_formed(#[trigger] patterns@[i].expression_spec()),
    ensures
        database matches Ok(db) ==> {
            &&& db.well_formed()
            &&& db.root_spec().0 == 0
            &&& db.pattern_table().len() == patterns@.len()
            &&& forall|i: int| 0 <= i < patterns@.len() ==> #[trigger] db.pattern_table()[i] == patterns@[i].pattern_id_spec()
            &&& db.uses_assertions_spec() == patterns_use_assertions(patterns@)
            &&& forall|i: int| 0 <= i < patterns@.len() ==> #[trigger] accepted_somewhere(db.terminal_table(), i)
            &&& forall|i: int|
                0 <= i < patterns@.len() && sequences_nonempty(#[trigger] patterns@[i].expression_spec())
                    ==> reports_matches(db, i, patterns@[i].expression_spec())
            &&& all_literal(patterns@) ==> literal_shape(db.edge_table(), db.terminal_table(), pattern_literals(patterns@))
            &&& db.state_count_spec() == 1 + patterns_state_need(patterns@)
            &&& db.predicate_table().len() <= patterns_predicate_need(patterns@)
        },
        database matches Err(e) ==> e == Error::PatternSetTooLarge,
        fits_identifiers(patterns@) ==> database is Ok,
{
    let mut builder = NfaBuilder { edges: Vec::new(), terminals: Vec::new(), predicates: Vec::new() };
    proof {
        assert(builder.edge_table() =~= Seq::empty());
    }
    let root = match builder.add_state() {
        Ok(root) => root,
        Err(error) => return Err(error),
    };
    proof {
        assert(patterns@.take(0).len() == 0);
    }
    let mut pattern_ids: Vec<PatternId> = Vec::new();
    let mut uses_assertions = false;
    let mut ordinal: usize = 0;
    proof {
        assert(pattern_literals(patterns@.take(0)) =~= Seq::<Seq<u16>>::empty());
        assert(literal_shape(builder.edge_table(), builder.terminal_table(), pattern_literals(patterns@.take(0))));
    }
    while ordinal < patterns.len()
        invariant
            builder.well_formed(),
            root.0 == 0,
            builder.edges@.len() >= 1,
            ordinal <= patterns@.len(),
            pattern_ids@.len() == ordinal,
            forall|i: int| 0 <= i < patterns@.len() ==> hir_well_formed(#[trigger] patterns@[i].expression_spec()),
            forall|i: int| 0 <= i < ordinal ==> #[trigger] pattern_ids@[i] == patterns@[i].pattern_id_spec(),
            uses_assertions == exists|i: int| 0 <= i < ordinal && uses_assertions_spec(#[trigger] patterns@[i].expression_spec()),
            !uses_assertions ==> assertion_free(builder.edge_table()),
            terminals_valid(builder.terminal_table(), ordinal as nat),
            forall|i: int| 0 <= i < ordinal ==> #[trigger] accepted_somewhere(builder.terminal_table(), i),
            forall|i: int|
                0 <= i < ordinal && sequences_nonempty(#[trigger] patterns@[i].expression_spec()) ==> reported_in(
                    builder.edge_table(),
                    builder.predicates@,
                    builder.terminal_table(),
                    0,
                    i,
                    patterns@[i].expression_spec(),
                ),
            all_literal(patterns@.take(ordinal as int)) ==> literal_shape(
                builder.edge_table(),
                builder.terminal_table(),
                pattern_literals(patterns@.take(ordinal as int)),
            ),
            builder.edges@.len() == 1 + patterns_state_need(patterns@.take(ordinal as int)),
            builder.predicates@.len() <= patterns_predicate_need(patterns@.take(ordinal as int)),
        decreases patterns@.len() - ordinal,
    {
        proof {
            let taken = patterns@.take(ordinal + 1);
            assert(taken.drop_last() =~= patterns@.take(ordinal as int));
            assert(taken.last() == patterns@[ordinal as int]);
            lemma_patterns_need_subrange(patterns@, 0, ordinal + 1);
            assert(patterns@.subrange(0, ordinal + 1) =~= taken);
        }
        let ghost before = builder;
        let first = match builder.add_state() {
            Ok(state) => state,
            Err(error) => return Err(error),
        };
        let ghost after_first = builder;
        let terminal = match builder.add_state() {
            Ok(state) => state,
            Err(error) => return Err(error),
        };
        proof {
            builder.lemma_extends_transitive(&after_first, &before, false, false);
        }
        let ghost after_terminal = builder;
        builder.add_edge(root, EdgeKind::Epsilon, first);
        proof {
            builder.lemma_extends_transitive(&after_terminal, &before, false, false);
        }
        let ghost after_edge = builder;
        let pattern = &patterns[ordinal];
        let expression = pattern.expression();
        match builder.compile_expression(expression, first, terminal) {
            Ok(()) => {},
            Err(error) => return Err(error),
        }
        let ua = expression.uses_assertions();
        proof {
            builder.lemma_extends_transitive(&after_edge, &before, false, ua);
        }
        let ghost compiled = builder;
        // The terminal state is fresh, so it has no terminals yet.
        let index = terminal.0 as usize;
        let mut list: Vec<usize> = Vec::new();
        std::mem::swap(&mut list, &mut builder.terminals[index]);
        proof {
            assert(list@ == compiled.terminals@[index as int]@);
            assert(compiled.terminal_table()[index as int] == compiled.terminals@[index as int]@);
        }
        list.push(ordinal);
        proof {
            assert(list@ =~= seq![ordinal]);
        }
        builder.terminals.set(index, list);
        proof {
            let n = before.terminals@.len() as int;
            assert(builder.edge_table() =~= compiled.edge_table());
            assert(compiled.terminal_table()[index as int].len() == 0);
            assert(builder.terminal_table() =~= compiled.terminal_table().update(index as int, seq![ordinal]));
            assert forall|s: int, i: int|
                #![trigger builder.terminal_table()[s][i]]
                0 <= s < builder.terminal_table().len() && 0 <= i < builder.terminal_table()[s].len() implies (builder.terminal_table()[s][i] as int) < ordinal + 1 by {
                if s != index {
                    if s < n {
                        assert(builder.terminal_table()[s] == compiled.terminal_table().take(n)[s]);
                        assert(before.terminal_table()[s][i] < ordinal);
                    } else {
                        assert(compiled.terminal_table()[s].len() == 0);
                    }
                }
            }
            assert(builder.terminal_table()[index as int][0] == ordinal);
            assert(builder.terminal_table()[index as int].contains(ordinal));
            assert forall|i: int| 0 <= i < ordinal + 1 implies #[trigger] accepted_somewhere(builder.terminal_table(), i) by {
                if i < ordinal {
                    assert(accepted_somewhere(before.terminal_table(), i));
                    let s = choose|s: int| 0 <= s < before.terminal_table().len() && #[trigger] before.terminal_table()[s].contains(i as usize);
                    assert(builder.terminal_table()[s] == compiled.terminal_table().take(n)[s]);
                    assert(builder.terminal_table()[s].contains(i as usize));
                } else {
                    assert(builder.terminal_table()[index as int].contains(i as usize));
                }
            }
            let h = patterns@[ordinal as int].expression_spec();
            let t0 = index as int;
            let f0 = first.0 as int;
            compiled.lemma_extends_tables(&before, false || ua);
            assert(builder.predicates@ == compiled.predicates@);
            assert(builder.terminal_table().take(n) =~= before.terminal_table()) by {
                assert forall|s: int| 0 <= s < n implies builder.terminal_table()[s] == before.terminal_table()[s] by {
                    assert(builder.terminal_table()[s] == compiled.terminal_table()[s]);
                    assert(compiled.terminal_table().take(n)[s] == before.terminal_table()[s]);
                }
            }
            assert forall|i: int|
                0 <= i < ordinal + 1 && sequences_nonempty(#[trigger] patterns@[i].expression_spec()) implies reported_in(
                    builder.edge_table(),
                    builder.predicates@,
                    builder.terminal_table(),
                    0,
                    i,
                    patterns@[i].expression_spec(),
                ) by {
                if i < ordinal {
                    crate::language::lemma_reported_mono(
                        before.edge_table(),
                        before.predicates@,
                        before.terminal_table(),
                        builder.edge_table(),
                        builder.predicates@,
                        builder.terminal_table(),
                        0,
                        i,
                        patterns@[i].expression_spec(),
                    );
                } else {
                    let q = after_edge.edge_table()[0].len() - 1;
                    assert(crate::language::epsilon_edge(after_edge.edge_table(), 0, q, f0));
                    compiled.lemma_extends_tables(&after_edge, ua);
                    crate::language::lemma_epsilon_edge_mono(
                        after_edge.edge_table(),
                        after_edge.predicates@,
                        builder.edge_table(),
                        builder.predicates@,
                        0,
                        q,
                        f0,
                    );
                    crate::language::lemma_covers_after_epsilon(
                        builder.edge_table(),
                        builder.predicates@,
                        h,
                        0,
                        q,
                        f0,
                        t0,
                    );
                    assert(builder.terminal_table()[t0].contains(i as usize));
                }
            }
            let taken = patterns@.take(ordinal + 1);
            if all_literal(taken) {
                let shorter = patterns@.take(ordinal as int);
                assert forall|i: int| 0 <= i < shorter.len() implies #[trigger] literal_units(shorter[i].expression_spec()) is Some by {
                    assert(shorter[i] == taken[i]);
                }
                assert(taken[ordinal as int] == patterns@[ordinal as int]);
                let units = literal_units(h)->0;
                let lits = pattern_literals(shorter);
                assert(pattern_literals(taken) =~= lits.push(units));
                let e0 = before.edge_table();
                let e1 = after_edge.edge_table();
                assert(after_first.edge_table() == e0.push(Seq::empty()));
                assert(after_terminal.edge_table() == after_first.edge_table().push(Seq::empty()));
                assert forall|s: int| 0 < s < e0.len() implies #[trigger] e1[s] == e0[s] by {
                    assert(e1[s] == after_terminal.edge_table()[s]);
                }
                assert(e1[0].drop_last() =~= e0[0]) by {
                    assert(e1[0] == after_terminal.edge_table()[0].push(e1[0].last()));
                    assert(after_terminal.edge_table()[0] == e0[0]);
                }
                assert(e1[n] == after_terminal.edge_table()[n]);
                assert(e1[n + 1] == after_terminal.edge_table()[n + 1]);
                assert(literal_units(h) is Some);
                let t2 = builder.terminal_table();
                assert forall|s: int| 0 <= s < n implies #[trigger] t2[s] == before.terminal_table()[s] by {
                    assert(t2[s] == compiled.terminal_table()[s]);
                    assert(compiled.terminal_table().take(n)[s] == before.terminal_table()[s]);
                }
                assert(t2[n] == compiled.terminal_table()[n]);
                assert forall|s: int| n + 2 <= s < t2.len() implies (#[trigger] t2[s]).len() == 0 by {
                    assert(t2[s] == compiled.terminal_table()[s]);
                }
                assert(t2[n + 1] =~= seq![lits.len() as usize]);
                lemma_literal_shape_step(e0, before.terminal_table(), e1, builder.edge_table(), t2, lits, units);
            }
        }
        pattern_ids.push(pattern.pattern_id());
        uses_assertions = uses_assertions || ua;
        ordinal = ordinal + 1;
    }
    let database = PatternDatabase {
        root,
        edges: builder.edges,
        terminals: builder.terminals,
        predicates: builder.predicates,
        pattern_ids,
        uses_assertions,
    };
    proof {
        assert(database.edge_table() == builder.edge_table());
        assert(database.terminal_table() == builder.terminal_table());
        assert(database.pattern_table() =~= pattern_ids@);
        assert(database.predicate_table() == builder.predicates@);
        assert(patterns@.take(patterns@.len() as int) =~= patterns@);
        assert forall|i: int|
            0 <= i < patterns@.len() && sequences_nonempty(#[trigger] patterns@[i].expression_spec())
                implies reports_matches(database, i, patterns@[i].expression_spec()) by {
            assert(reported_in(
                builder.edge_table(),
                builder.predicates@,
                builder.terminal_table(),
                0,
                i,
                patterns@[i].expression_spec(),
            ));
        }
    }
    Ok(database)
}

} // verus!
