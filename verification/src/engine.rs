//! Forward automaton scan with reusable scratch storage.
use vstd::prelude::*;

use crate::closure::{
    compute_transition, context_view, extend_closure, marked, states_in_range,
};
use crate::nfa::{PatternDatabase, StateId};
use crate::semantics::{
    accepts, active_set, closed_under, closure, consumed, context_after, context_before,
    lemma_closure_empty, lemma_dead_stays_dead, longest_end, longest_match, start_events,
};
use crate::cache::{CacheCounters, DeterministicCache, TransitionOutcome};
use crate::hir::HirPattern;
use crate::prefilter::{
    admitted_starts, lemma_start_table_scan, set_positions, table_starts, Prefilter,
    PrefilterBypass, PrefilterPath, ScanPlan,
};
use crate::semantics::{all_starts, expected_events, scan_events};
use crate::error::Error;
use crate::types::{Match, Utf16Span, Utf16Text};

verus! {

/// Default number of cached deterministic states per scan.
pub const DEFAULT_STATE_CACHE_BUDGET: usize = 8192;

/// A recorded end as the specification reads it.
pub open spec fn as_end(end: Option<int>) -> Option<u64> {
    match end {
        Some(e) => Some(e as u64),
        None => None,
    }
}

/// Events as the specification reads them.
pub open spec fn event_views(events: Seq<Match>) -> Seq<(u32, u64, u64)> {
    events.map_values(|m: Match| m@)
}

/// Reusable per-scan storage.
pub struct Scratch {
    /// The active state set.
    pub active: Vec<StateId>,
    /// The set being built for the next position.
    pub next: Vec<StateId>,
    /// Depth-first work list.
    pub stack: Vec<StateId>,
    /// Per-state visit marks; a state is in the set being built when its
    /// mark equals the current generation.
    pub marks: Vec<u32>,
    /// The current visit generation.
    pub generation: u32,
    /// Longest end recorded so far for each pattern ordinal.
    pub best_end: Vec<Option<u64>>,
}

impl Scratch {
    /// The scratch fits a database with these counts and holds no results.
    pub open spec fn fits(&self, state_count: nat, pattern_count: nat) -> bool {
        &&& self.marks@.len() == state_count
        &&& self.best_end@.len() == pattern_count
        &&& forall|i: int| 0 <= i < self.marks@.len() ==> #[trigger] self.marks@[i] <= self.generation
        &&& forall|o: int| 0 <= o < self.best_end@.len() ==> #[trigger] self.best_end@[o] is None
    }

    /// The visit marks are sized for `state_count` states and none is ahead
    /// of the generation counter.
    pub open spec fn marks_ready(&self, state_count: nat) -> bool {
        &&& self.marks@.len() == state_count
        &&& forall|i: int| 0 <= i < self.marks@.len() ==> #[trigger] self.marks@[i] <= self.generation
    }

    /// Empty scratch sized for `db`.
    pub fn new(db: &PatternDatabase) -> (scratch: Scratch)
        requires
            db.well_formed(),
        ensures
            scratch.fits(db.state_count_spec(), db.pattern_table().len()),
    {
        let states = db.state_count();
        let patterns = db.pattern_count();
        let mut marks: Vec<u32> = Vec::new();
        let mut i: usize = 0;
        while i < states
            invariant
                i <= states,
                marks@.len() == i,
                forall|k: int| 0 <= k < i ==> #[trigger] marks@[k] == 0,
            decreases states - i,
        {
            marks.push(0);
            i = i + 1;
        }
        let mut best_end: Vec<Option<u64>> = Vec::new();
        let mut o: usize = 0;
        while o < patterns
            invariant
                o <= patterns,
                best_end@.len() == o,
                forall|k: int| 0 <= k < o ==> #[trigger] best_end@[k] is None,
            decreases patterns - o,
        {
            best_end.push(None);
            o = o + 1;
        }
        Scratch {
            active: Vec::new(),
            next: Vec::new(),
            stack: Vec::new(),
            marks,
            generation: 0,
            best_end,
        }
    }

    /// Advances the visit generation so that no state is marked with it,
    /// clearing every mark when the counter wraps.
    pub fn fresh_generation(&mut self) -> (generation: u32)
        requires
            forall|i: int| 0 <= i < old(self).marks@.len() ==> #[trigger] old(self).marks@[i] <= old(self).generation,
        ensures
            generation == final(self).generation,
            generation != 0,
            final(self).marks@.len() == old(self).marks@.len(),
            final(self).best_end == old(self).best_end,
            final(self).active == old(self).active,
            final(self).next == old(self).next,
            final(self).stack == old(self).stack,
            forall|i: int| 0 <= i < final(self).marks@.len() ==> #[trigger] final(self).marks@[i] < generation,
            old(self).generation == u32::MAX ==> generation == 1 && forall|i: int|
                0 <= i < final(self).marks@.len() ==> #[trigger] final(self).marks@[i] == 0,
            old(self).generation < u32::MAX ==> generation == old(self).generation + 1
                && final(self).marks@ == old(self).marks@,
    {
        if self.generation < u32::MAX {
            self.generation = self.generation + 1;
        } else {
            let mut i: usize = 0;
            while i < self.marks.len()
                invariant
                    i <= self.marks@.len(),
                    self.marks@.len() == old(self).marks@.len(),
                    self.best_end == old(self).best_end,
                    self.active == old(self).active,
                    self.next == old(self).next,
                    self.stack == old(self).stack,
                    forall|k: int| 0 <= k < i ==> #[trigger] self.marks@[k] == 0,
                decreases self.marks@.len() - i,
            {
                self.marks.set(i, 0);
                i = i + 1;
            }
            self.generation = 1;
        }
        self.generation
    }
}

/// Records `end` for every ordinal accepted by a state of `states`.
fn record_terminals(db: &PatternDatabase, states: &[StateId], end: u64, best_end: &mut Vec<Option<u64>>)
    requires
        db.well_formed(),
        states_in_range(states@, db.state_count_spec()),
        old(best_end)@.len() == db.pattern_table().len(),
    ensures
        final(best_end)@.len() == old(best_end)@.len(),
        forall|o: int|
            0 <= o < final(best_end)@.len() ==> #[trigger] final(best_end)@[o] == if accepts(
                *db,
                states@.to_set(),
                o,
            ) {
                Some(end)
            } else {
                old(best_end)@[o]
            },
{
    let ghost prior = best_end@;
    let mut i: usize = 0;
    while i < states.len()
        invariant
            db.well_formed(),
            states_in_range(states@, db.state_count_spec()),
            i <= states@.len(),
            best_end@.len() == prior.len(),
            prior.len() == db.pattern_table().len(),
            forall|o: int|
                0 <= o < best_end@.len() ==> #[trigger] best_end@[o] == prior[o] || (best_end@[o]
                    == Some(end) && accepts(*db, states@.to_set(), o)),
            forall|a: int, t: int|
                #![trigger db.terminal_table()[states@[a].0 as int][t]]
                0 <= a < i && 0 <= t < db.terminal_table()[states@[a].0 as int].len()
                    ==> best_end@[db.terminal_table()[states@[a].0 as int][t] as int] == Some(end),
        decreases states@.len() - i,
    {
        let state = states[i];
        let terminals = db.terminals_at(state);
        let mut t: usize = 0;
        while t < terminals.len()
            invariant
                db.well_formed(),
                states_in_range(states@, db.state_count_spec()),
                i < states@.len(),
                state == states@[i as int],
                terminals@ == db.terminal_table()[state.0 as int],
                t <= terminals@.len(),
                best_end@.len() == prior.len(),
                prior.len() == db.pattern_table().len(),
                forall|o: int|
                    0 <= o < best_end@.len() ==> #[trigger] best_end@[o] == prior[o] || (best_end@[o]
                        == Some(end) && accepts(*db, states@.to_set(), o)),
                forall|a: int, u: int|
                    #![trigger db.terminal_table()[states@[a].0 as int][u]]
                    0 <= a < i && 0 <= u < db.terminal_table()[states@[a].0 as int].len()
                        ==> best_end@[db.terminal_table()[states@[a].0 as int][u] as int] == Some(end),
                forall|u: int| 0 <= u < t ==> best_end@[#[trigger] terminals@[u] as int] == Some(end),
            decreases terminals@.len() - t,
        {
            let ordinal = terminals[t];
            proof {
                assert(db.terminal_table()[state.0 as int][t as int] == ordinal);
                assert(states@.to_set().contains(state));
                assert(db.terminal_table()[state.0 as int].contains((ordinal as int) as usize));
                assert(accepts(*db, states@.to_set(), ordinal as int));
            }
            best_end.set(ordinal, Some(end));
            t = t + 1;
        }
        proof {
            assert forall|a: int, u: int|
                #![trigger db.terminal_table()[states@[a].0 as int][u]]
                0 <= a < i + 1 && 0 <= u < db.terminal_table()[states@[a].0 as int].len()
                    implies best_end@[db.terminal_table()[states@[a].0 as int][u] as int] == Some(end) by {
                if a == i {
                    assert(terminals@[u] == db.terminal_table()[states@[a].0 as int][u]);
                }
            }
        }
        i = i + 1;
    }
    let total = best_end.len();
    proof {
        assert forall|o: int| 0 <= o < best_end@.len() implies #[trigger] best_end@[o] == if accepts(
            *db,
            states@.to_set(),
            o,
        ) {
            Some(end)
        } else {
            prior[o]
        } by {
            if accepts(*db, states@.to_set(), o) {
                let s = choose|s: StateId| states@.to_set().contains(s) && #[trigger] db.terminal_table()[s.0 as int].contains(
                    o as usize,
                );
                assert(states@.contains(s));
                assert(o <= total);
                let a = choose|a: int| 0 <= a < states@.len() && states@[a] == s;
                let u = choose|u: int| 0 <= u < db.terminal_table()[s.0 as int].len() && db.terminal_table()[s.0 as int][u] == o as usize;
                assert(db.terminal_table()[states@[a].0 as int][u] == o as usize);
                assert(best_end@[(o as usize) as int] == Some(end));
            }
        }
    }
}

/// Reports, in ordinal order, one event for every recorded end and clears
/// the record.
fn emit_events(
    db: &PatternDatabase,
    Ghost(input): Ghost<Seq<u16>>,
    start: usize,
    best_end: &mut Vec<Option<u64>>,
    events: &mut Vec<Match>,
)
    requires
        db.well_formed(),
        old(best_end)@.len() == db.pattern_table().len(),
        start < input.len() <= usize::MAX,
        forall|o: int|
            0 <= o < old(best_end)@.len() ==> #[trigger] old(best_end)@[o] == as_end(
                longest_match(*db, input, start as int, o),
            ),
    ensures
        final(best_end)@.len() == old(best_end)@.len(),
        forall|o: int| 0 <= o < final(best_end)@.len() ==> #[trigger] final(best_end)@[o] is None,
        event_views(final(events)@) == event_views(old(events)@) + start_events(
            *db,
            input,
            start as int,
            db.pattern_table().len(),
        ),
{
    let ghost prior = best_end@;
    let ghost prior_events = events@;
    let count = db.pattern_count();
    let mut o: usize = 0;
    while o < count
        invariant
            db.well_formed(),
            count == db.pattern_table().len(),
            o <= count,
            start < input.len() <= usize::MAX,
            best_end@.len() == count,
            prior.len() == count,
            forall|k: int| o <= k < count ==> #[trigger] best_end@[k] == prior[k],
            forall|k: int| 0 <= k < o ==> #[trigger] best_end@[k] is None,
            forall|k: int|
                0 <= k < count ==> #[trigger] prior[k] == as_end(
                    longest_match(*db, input, start as int, k),
                ),
            event_views(events@) == event_views(prior_events) + start_events(
                *db,
                input,
                start as int,
                o as nat,
            ),
        decreases count - o,
    {
        let ghost before = events@;
        proof {
            crate::semantics::lemma_longest_end_bounds(*db, input, start as int, o as int, (input.len() - start) as nat);
        }
        proof {
            assert(best_end@[o as int] == prior[o as int]);
            assert(prior[o as int] == as_end(longest_match(*db, input, start as int, o as int)));
        }
        match best_end[o] {
            Some(end) => {
                proof {
                    let e = longest_match(*db, input, start as int, o as int)->0;
                    assert(start < e <= input.len());
                    assert(end == e as u64);
                }
                events.push(Match::new(db.pattern_id(o), Utf16Span::from_bounds(start as u64, end)));
                best_end.set(o, None);
            },
            None => {},
        }
        proof {
            assert(prior[o as int] == best_end@[o as int] || best_end@[o as int] is None);
            match longest_match(*db, input, start as int, o as int) {
                Some(e) => {
                    assert(event_views(events@) =~= event_views(before).push(
                        (db.pattern_table()[o as int]@, start as u64, e as u64),
                    ));
                },
                None => {
                    assert(events@ == before);
                },
            }
            assert(start_events(*db, input, start as int, (o + 1) as nat) == start_events(
                *db,
                input,
                start as int,
                o as nat,
            ) + match longest_match(*db, input, start as int, o as int) {
                Some(end) => seq![(db.pattern_table()[o as int]@, start as u64, end as u64)],
                None => seq![],
            });
            assert(event_views(events@) =~= event_views(prior_events) + start_events(
                *db,
                input,
                start as int,
                (o + 1) as nat,
            ));
        }
        o = o + 1;
    }
}

/// Reports every longest match that starts at `start`, stepping the
/// automaton's state set one unit at a time.
pub fn scan_start(
    db: &PatternDatabase,
    input: &[u16],
    start: usize,
    scratch: &mut Scratch,
    events: &mut Vec<Match>,
)
    requires
        db.well_formed(),
        start < input@.len(),
        old(scratch).fits(db.state_count_spec(), db.pattern_table().len()),
    ensures
        final(scratch).fits(db.state_count_spec(), db.pattern_table().len()),
        event_views(final(events)@) == event_views(old(events)@) + start_events(
            *db,
            input@,
            start as int,
            db.pattern_table().len(),
        ),
{
    let ghost n = db.state_count_spec();
    let ghost p = db.pattern_table().len();
    let generation = scratch.fresh_generation();
    let context = if db.uses_assertions() {
        Some((start, false))
    } else {
        None
    };
    scratch.active.clear();
    proof {
        assert(scratch.active@.to_set() =~= Set::<StateId>::empty());
        assert(marked(scratch.marks@, generation) =~= Set::<StateId>::empty());
        lemma_closure_empty(*db, input@, context_view(context));
        assert(closed_under(*db, input@, context_view(context), Set::<StateId>::empty()));
        assert(context_view(context) == context_before(*db, start as int));
    }
    extend_closure(
        db,
        input,
        context,
        db.root(),
        &mut scratch.active,
        &mut scratch.marks,
        generation,
        &mut scratch.stack,
    );
    proof {
        assert(Set::<StateId>::empty().union(
            closure(*db, input@, context_view(context), set![db.root_spec()]),
        ) =~= active_set(*db, input@, start as int, 0));
        assert forall|o: int| 0 <= o < scratch.best_end@.len() implies #[trigger] scratch.best_end@[o]
            == as_end(longest_end(*db, input@, start as int, o, 0)) by {}
        assert forall|i: int| 0 <= i < scratch.marks@.len() implies #[trigger] scratch.marks@[i] <= scratch.generation by {}
    }
    let mut position = start;
    while position < input.len()
        invariant
            db.well_formed(),
            n == db.state_count_spec(),
            p == db.pattern_table().len(),
            start <= position <= input@.len(),
            scratch.marks@.len() == n,
            scratch.best_end@.len() == p,
            forall|i: int| 0 <= i < scratch.marks@.len() ==> #[trigger] scratch.marks@[i] <= scratch.generation,
            states_in_range(scratch.active@, n),
            scratch.active@.to_set() == active_set(*db, input@, start as int, (position - start) as nat),
            forall|o: int|
                0 <= o < p ==> #[trigger] scratch.best_end@[o] == as_end(
                    longest_end(*db, input@, start as int, o, (position - start) as nat),
                ),
        ensures
            db.well_formed(),
            scratch.marks@.len() == n,
            scratch.best_end@.len() == p,
            forall|i: int| 0 <= i < scratch.marks@.len() ==> #[trigger] scratch.marks@[i] <= scratch.generation,
            forall|o: int|
                0 <= o < p ==> #[trigger] scratch.best_end@[o] == as_end(
                    longest_match(*db, input@, start as int, o),
                ),
        decreases input@.len() - position,
    {
        let generation = scratch.fresh_generation();
        let context = if db.uses_assertions() {
            Some((position + 1, true))
        } else {
            None
        };
        let symbol = input[position];
        scratch.next.clear();
        proof {
            assert(marked(scratch.marks@, generation) =~= Set::<StateId>::empty());
        }
        compute_transition(
            db,
            input,
            context,
            scratch.active.as_slice(),
            symbol,
            &mut scratch.next,
            &mut scratch.marks,
            generation,
            &mut scratch.stack,
        );
        let ghost k = (position - start) as nat;
        proof {
            assert(context_view(context) == context_after(*db, start + k + 1));
            assert(scratch.next@.to_set() == active_set(*db, input@, start as int, k + 1));
        }
        let end = (position + 1) as u64;
        record_terminals(db, scratch.next.as_slice(), end, &mut scratch.best_end);
        proof {
            assert forall|o: int| 0 <= o < p implies #[trigger] scratch.best_end@[o] == as_end(
                longest_end(*db, input@, start as int, o, k + 1),
            ) by {}
            assert forall|i: int| 0 <= i < scratch.marks@.len() implies #[trigger] scratch.marks@[i] <= scratch.generation by {}
        }
        std::mem::swap(&mut scratch.active, &mut scratch.next);
        position = position + 1;
        if scratch.active.len() == 0 {
            proof {
                assert(scratch.active@.to_set() =~= Set::<StateId>::empty());
                assert forall|o: int| 0 <= o < p implies #[trigger] scratch.best_end@[o] == as_end(
                    longest_match(*db, input@, start as int, o),
                ) by {
                    lemma_dead_stays_dead(
                        *db,
                        input@,
                        start as int,
                        o,
                        (position - start) as nat,
                        (input@.len() - start) as nat,
                    );
                }
            }
            break;
        }
    }
    proof {
        assert(input@.len() == input.len());
    }
    emit_events(db, Ghost(input@), start, &mut scratch.best_end, events);
}

/// Records `end` for every ordinal listed in `ordinals`.
fn record_ordinals(ordinals: &[usize], end: u64, best_end: &mut Vec<Option<u64>>)
    requires
        forall|k: int| 0 <= k < ordinals@.len() ==> (#[trigger] ordinals@[k] as int) < old(best_end)@.len(),
    ensures
        final(best_end)@.len() == old(best_end)@.len(),
        forall|o: int|
            0 <= o < final(best_end)@.len() ==> #[trigger] final(best_end)@[o] == if ordinals@.contains(
                o as usize,
            ) {
                Some(end)
            } else {
                old(best_end)@[o]
            },
{
    let ghost prior = best_end@;
    let total = best_end.len();
    let mut i: usize = 0;
    while i < ordinals.len()
        invariant
            i <= ordinals@.len(),
            prior.len() == total,
            best_end@.len() == prior.len(),
            forall|k: int| 0 <= k < ordinals@.len() ==> (#[trigger] ordinals@[k] as int) < prior.len(),
            forall|o: int|
                0 <= o < best_end@.len() ==> #[trigger] best_end@[o] == if exists|k: int|
                    0 <= k < i && ordinals@[k] == o as usize {
                    Some(end)
                } else {
                    prior[o]
                },
        decreases ordinals@.len() - i,
    {
        let ordinal = ordinals[i];
        best_end.set(ordinal, Some(end));
        proof {
            assert forall|o: int| 0 <= o < best_end@.len() implies #[trigger] best_end@[o] == if exists|k: int|
                0 <= k < i + 1 && ordinals@[k] == o as usize {
                Some(end)
            } else {
                prior[o]
            } by {
                if o == ordinal as int {
                    assert(ordinals@[i as int] == o as usize);
                } else if exists|k: int| 0 <= k < i + 1 && ordinals@[k] == o as usize {
                    let k = choose|k: int| 0 <= k < i + 1 && ordinals@[k] == o as usize;
                    assert(k < i);
                }
            }
        }
        i = i + 1;
    }
}

/// Where the cached scan of one start stands.
#[derive(Clone, Copy, Debug, PartialEq, Eq, Structural)]
enum ScanCursor {
    Cached(u32),
    Uncached,
}

/// Like `scan_start`, stepping through cached deterministic states where
/// the cache holds them.
pub fn scan_start_cached(
    db: &PatternDatabase,
    input: &[u16],
    start: usize,
    cache: &mut DeterministicCache,
    scratch: &mut Scratch,
    counters: &mut CacheCounters,
    events: &mut Vec<Match>,
)
    requires
        db.well_formed(),
        !db.uses_assertions_spec(),
        start < input@.len(),
        old(cache).valid(*db, input@),
        old(scratch).fits(db.state_count_spec(), db.pattern_table().len()),
    ensures
        final(cache).valid(*db, input@),
        final(cache).budget_spec() == old(cache).budget_spec(),
        old(cache).len_spec() <= final(cache).len_spec(),
        final(scratch).fits(db.state_count_spec(), db.pattern_table().len()),
        event_views(final(events)@) == event_views(old(events)@) + start_events(
            *db,
            input@,
            start as int,
            db.pattern_table().len(),
        ),
{
    let ghost n = db.state_count_spec();
    let ghost p = db.pattern_table().len();
    let mut cursor = ScanCursor::Cached(0);
    let mut position = start;
    proof {
        cache.lemma_root(*db, input@);
        assert(cache.set_of(0) == active_set(*db, input@, start as int, 0));
        assert forall|o: int| 0 <= o < p implies #[trigger] scratch.best_end@[o] == as_end(
            longest_end(*db, input@, start as int, o, 0),
        ) by {}
    }
    let ghost initial_len = cache.len_spec();
    let ghost budget = cache.budget_spec();
    while position < input.len()
        invariant
            db.well_formed(),
            !db.uses_assertions_spec(),
            n == db.state_count_spec(),
            p == db.pattern_table().len(),
            start <= position <= input@.len(),
            cache.valid(*db, input@),
            cache.budget_spec() == budget,
            initial_len <= cache.len_spec(),
            scratch.marks@.len() == n,
            scratch.best_end@.len() == p,
            forall|i: int| 0 <= i < scratch.marks@.len() ==> #[trigger] scratch.marks@[i] <= scratch.generation,
            match cursor {
                ScanCursor::Cached(d) => (d as int) < cache.len_spec() && cache.set_of(d as int)
                    == active_set(*db, input@, start as int, (position - start) as nat),
                ScanCursor::Uncached => states_in_range(scratch.active@, n) && scratch.active@.to_set()
                    == active_set(*db, input@, start as int, (position - start) as nat),
            },
            forall|o: int|
                0 <= o < p ==> #[trigger] scratch.best_end@[o] == as_end(
                    longest_end(*db, input@, start as int, o, (position - start) as nat),
                ),
        ensures
            cache.valid(*db, input@),
            cache.budget_spec() == budget,
            initial_len <= cache.len_spec(),
            scratch.marks@.len() == n,
            scratch.best_end@.len() == p,
            forall|i: int| 0 <= i < scratch.marks@.len() ==> #[trigger] scratch.marks@[i] <= scratch.generation,
            forall|o: int|
                0 <= o < p ==> #[trigger] scratch.best_end@[o] == as_end(
                    longest_match(*db, input@, start as int, o),
                ),
        decreases input@.len() - position,
    {
        let symbol = input[position];
        let ghost k = (position - start) as nat;
        let ghost target = active_set(*db, input@, start as int, k + 1);
        proof {
            assert(context_after(*db, start + k + 1) == None::<(int, bool)>);
        }
        let outcome = match cursor {
            ScanCursor::Cached(d) => {
                let ghost before = *cache;
                let outcome = cache.transition(db, input, d, symbol, scratch, counters);
                proof {
                    assert(cache.set_of(d as int) == before.set_of(d as int));
                }
                outcome
            },
            ScanCursor::Uncached => {
                counters.fallbacks = crate::cache::bump(counters.fallbacks);
                let generation = scratch.fresh_generation();
                scratch.next.clear();
                proof {
                    assert(marked(scratch.marks@, generation) =~= Set::<StateId>::empty());
                }
                compute_transition(
                    db,
                    input,
                    None,
                    scratch.active.as_slice(),
                    symbol,
                    &mut scratch.next,
                    &mut scratch.marks,
                    generation,
                    &mut scratch.stack,
                );
                scratch.next = crate::cache::canonical_states(&scratch.marks, generation);
                proof {
                    assert forall|i: int| 0 <= i < scratch.marks@.len() implies #[trigger] scratch.marks@[i] <= scratch.generation by {}
                }
                if scratch.next.len() == 0 {
                    proof {
                        assert(scratch.next@.to_set() =~= Set::<StateId>::empty());
                    }
                    TransitionOutcome::Dead
                } else {
                    proof {
                        cache.lemma_valid_indexed(*db, input@);
                    }
                    match cache.lookup(scratch.next.as_slice()) {
                        Some(d) => TransitionOutcome::Cached(d),
                        None => TransitionOutcome::Uncached,
                    }
                }
            },
        };
        let end = (position + 1) as u64;
        match outcome {
            TransitionOutcome::Dead => {
                proof {
                    assert(active_set(*db, input@, start as int, k + 1) == Set::<StateId>::empty());
                    assert forall|o: int| 0 <= o < p implies #[trigger] scratch.best_end@[o] == as_end(
                        longest_match(*db, input@, start as int, o),
                    ) by {
                        assert(!accepts(*db, active_set(*db, input@, start as int, k + 1), o));
                        lemma_dead_stays_dead(
                            *db,
                            input@,
                            start as int,
                            o,
                            k + 1,
                            (input@.len() - start) as nat,
                        );
                    }
                }
                break;
            },
            TransitionOutcome::Cached(d) => {
                let ordinals = cache.terminals(db, Ghost(input@), d);
                record_ordinals(ordinals, end, &mut scratch.best_end);
                proof {
                    assert forall|o: int| 0 <= o < p implies #[trigger] scratch.best_end@[o] == as_end(
                        longest_end(*db, input@, start as int, o, k + 1),
                    ) by {
                        assert(ordinals@.contains(o as usize) <==> accepts(*db, cache.set_of(d as int), o));
                    }
                }
                cursor = ScanCursor::Cached(d);
            },
            TransitionOutcome::Uncached => {
                record_terminals(db, scratch.next.as_slice(), end, &mut scratch.best_end);
                std::mem::swap(&mut scratch.active, &mut scratch.next);
                cursor = ScanCursor::Uncached;
            },
        }
        position = position + 1;
    }
    proof {
        assert(input@.len() == input.len());
    }
    emit_events(db, Ghost(input@), start, &mut scratch.best_end, events);
}

/// What one scan did, for diagnostics.
#[derive(Clone, Copy, Debug, PartialEq, Eq, Structural)]
pub struct ScanStats {
    pub cache_states: usize,
    pub cache_hits: u64,
    pub cache_misses: u64,
    pub fallback_transitions: u64,
    pub cache_table_bytes: usize,
    pub assertion_bypasses: u64,
    pub prefilter_path: PrefilterPath,
    pub prefilter_bypass: PrefilterBypass,
    pub prefilter_retained_bytes: usize,
    pub prefilter_candidate_bytes: usize,
    pub prefilter_admissions: u64,
    pub prefilter_candidate_starts: usize,
    pub prefilter_starts_scanned: usize,
    pub prefilter_starts_skipped: usize,
}

/// Saturating `usize` addition.
pub fn add_usize(a: usize, b: usize) -> (sum: usize)
    ensures
        sum == if a + b > usize::MAX {
            usize::MAX as int
        } else {
            a + b
        },
{
    if b > usize::MAX - a {
        usize::MAX
    } else {
        a + b
    }
}

/// Saturating `u64` addition.
pub fn add_u64(a: u64, b: u64) -> (sum: u64)
    ensures
        sum == if a + b > u64::MAX {
            u64::MAX as int
        } else {
            a + b
        },
{
    if b > u64::MAX - a {
        u64::MAX
    } else {
        a + b
    }
}

impl ScanStats {
    /// Counters before any work.
    pub fn zero() -> (stats: ScanStats)
        ensures
            stats.cache_states == 0 && stats.cache_hits == 0 && stats.cache_misses == 0
                && stats.fallback_transitions == 0 && stats.cache_table_bytes == 0
                && stats.assertion_bypasses == 0 && stats.prefilter_path == PrefilterPath::AllStarts
                && stats.prefilter_bypass == PrefilterBypass::NoBypass
                && stats.prefilter_retained_bytes == 0 && stats.prefilter_candidate_bytes == 0
                && stats.prefilter_admissions == 0 && stats.prefilter_candidate_starts == 0
                && stats.prefilter_starts_scanned == 0 && stats.prefilter_starts_skipped == 0,
    {
        ScanStats {
            cache_states: 0,
            cache_hits: 0,
            cache_misses: 0,
            fallback_transitions: 0,
            cache_table_bytes: 0,
            assertion_bypasses: 0,
            prefilter_path: PrefilterPath::AllStarts,
            prefilter_bypass: PrefilterBypass::NoBypass,
            prefilter_retained_bytes: 0,
            prefilter_candidate_bytes: 0,
            prefilter_admissions: 0,
            prefilter_candidate_starts: 0,
            prefilter_starts_scanned: 0,
            prefilter_starts_skipped: 0,
        }
    }

    /// Folds another partition's counters into these: counts add, and
    /// differing paths or bypass reasons become mixed.
    pub fn merge_partition(&mut self, other: ScanStats)
        ensures
            final(self).cache_states == add_spec(old(self).cache_states as int, other.cache_states as int),
            final(self).cache_hits == add64_spec(old(self).cache_hits as int, other.cache_hits as int),
            final(self).cache_misses == add64_spec(old(self).cache_misses as int, other.cache_misses as int),
            final(self).fallback_transitions == add64_spec(old(self).fallback_transitions as int, other.fallback_transitions as int),
            final(self).cache_table_bytes == add_spec(old(self).cache_table_bytes as int, other.cache_table_bytes as int),
            final(self).assertion_bypasses == add64_spec(old(self).assertion_bypasses as int, other.assertion_bypasses as int),
            final(self).prefilter_path == if old(self).prefilter_path == other.prefilter_path {
                other.prefilter_path
            } else {
                PrefilterPath::MixedParallel
            },
            final(self).prefilter_bypass == if old(self).prefilter_bypass == other.prefilter_bypass {
                other.prefilter_bypass
            } else {
                PrefilterBypass::MixedParallel
            },
            final(self).prefilter_retained_bytes == add_spec(old(self).prefilter_retained_bytes as int, other.prefilter_retained_bytes as int),
            final(self).prefilter_candidate_bytes == add_spec(old(self).prefilter_candidate_bytes as int, other.prefilter_candidate_bytes as int),
            final(self).prefilter_admissions == add64_spec(old(self).prefilter_admissions as int, other.prefilter_admissions as int),
            final(self).prefilter_candidate_starts == add_spec(old(self).prefilter_candidate_starts as int, other.prefilter_candidate_starts as int),
            final(self).prefilter_starts_scanned == add_spec(old(self).prefilter_starts_scanned as int, other.prefilter_starts_scanned as int),
            final(self).prefilter_starts_skipped == add_spec(old(self).prefilter_starts_skipped as int, other.prefilter_starts_skipped as int),
    {
        self.cache_states = add_usize(self.cache_states, other.cache_states);
        self.cache_hits = add_u64(self.cache_hits, other.cache_hits);
        self.cache_misses = add_u64(self.cache_misses, other.cache_misses);
        self.fallback_transitions = add_u64(self.fallback_transitions, other.fallback_transitions);
        self.cache_table_bytes = add_usize(self.cache_table_bytes, other.cache_table_bytes);
        self.assertion_bypasses = add_u64(self.assertion_bypasses, other.assertion_bypasses);
        if self.prefilter_path != other.prefilter_path {
            self.prefilter_path = PrefilterPath::MixedParallel;
        }
        if self.prefilter_bypass != other.prefilter_bypass {
            self.prefilter_bypass = PrefilterBypass::MixedParallel;
        }
        self.prefilter_retained_bytes = add_usize(self.prefilter_retained_bytes, other.prefilter_retained_bytes);
        self.prefilter_candidate_bytes = add_usize(self.prefilter_candidate_bytes, other.prefilter_candidate_bytes);
        self.prefilter_admissions = add_u64(self.prefilter_admissions, other.prefilter_admissions);
        self.prefilter_candidate_starts = add_usize(self.prefilter_candidate_starts, other.prefilter_candidate_starts);
        self.prefilter_starts_scanned = add_usize(self.prefilter_starts_scanned, other.prefilter_starts_scanned);
        self.prefilter_starts_skipped = add_usize(self.prefilter_starts_skipped, other.prefilter_starts_skipped);
    }
}

/// Saturating `usize` sum.
pub open spec fn add_spec(a: int, b: int) -> int {
    if a + b > usize::MAX {
        usize::MAX as int
    } else {
        a + b
    }
}

/// Saturating `u64` sum.
pub open spec fn add64_spec(a: int, b: int) -> int {
    if a + b > u64::MAX {
        u64::MAX as int
    } else {
        a + b
    }
}

/// Events for the starts of `starts` in order, one start after another.
proof fn lemma_scan_events_push(db: PatternDatabase, input: Seq<u16>, starts: Seq<int>, start: int)
    ensures
        scan_events(db, input, starts.push(start)) == scan_events(db, input, starts) + start_events(
            db,
            input,
            start,
            db.pattern_table().len(),
        ),
{
    assert(starts.push(start).drop_last() =~= starts);
}

/// The starts a scan visits for a plan's path.
pub open spec fn planned_starts(db: PatternDatabase, prefilter: Prefilter, input: Seq<u16>, path: PrefilterPath) -> Seq<int> {
    if path == PrefilterPath::Literal {
        set_positions(admitted_starts(prefilter.literal_spec()->0, input))
    } else {
        all_starts(input.len() as int)
    }
}

/// How many starts a scan of `input` visits on `path`: every start when the
/// database uses assertions; otherwise the admitted starts on the literal
/// path, the starts that the start table lets through on the start-table
/// path, and every start on the all-starts path.
pub open spec fn visited_start_count(db: PatternDatabase, prefilter: Prefilter, input: Seq<u16>, path: PrefilterPath) -> int {
    if db.uses_assertions_spec() {
        input.len() as int
    } else if path == PrefilterPath::Literal {
        set_positions(admitted_starts(prefilter.literal_spec()->0, input)).len() as int
    } else if path == PrefilterPath::StartTable {
        crate::prefilter::table_starts(prefilter.start_table_spec()->0, input, input.len() as int).len() as int
    } else {
        input.len() as int
    }
}

/// What a scan of `input` reports and how it selected its starts. The
/// state-cache budget plays no part.
pub open spec fn scan_outcome(
    db: PatternDatabase,
    prefilter: Prefilter,
    input: Seq<u16>,
    prefilter_enabled: bool,
    literal_prefilter_enabled: bool,
    events: Seq<Match>,
    stats: ScanStats,
) -> bool {
    &&& stats.prefilter_path == prefilter.planned_path(input, prefilter_enabled, literal_prefilter_enabled)
    &&& event_views(events) == scan_events(db, input, planned_starts(db, prefilter, input, stats.prefilter_path))
}

/// Cache pressure never changes matching semantics: two scans of one input
/// under the same start selection report the same events, whatever state
/// budgets they ran with.
pub proof fn lemma_cache_budget_preserves_events(
    db: PatternDatabase,
    prefilter: Prefilter,
    input: Seq<u16>,
    prefilter_enabled: bool,
    literal_prefilter_enabled: bool,
    first_events: Seq<Match>,
    first_stats: ScanStats,
    second_events: Seq<Match>,
    second_stats: ScanStats,
)
    requires
        scan_outcome(db, prefilter, input, prefilter_enabled, literal_prefilter_enabled, first_events, first_stats),
        scan_outcome(db, prefilter, input, prefilter_enabled, literal_prefilter_enabled, second_events, second_stats),
    ensures
        event_views(first_events) == event_views(second_events),
        first_stats.prefilter_path == second_stats.prefilter_path,
{
}

/// Reports every longest match of every pattern, visiting the starts the
/// prefilter's plan selects. Without the literal filter this is every
/// match; the cache budget changes only the counters.
pub fn collect_with_stats(
    db: &PatternDatabase,
    prefilter: &Prefilter,
    input: &[u16],
    state_cache_budget: usize,
    prefilter_enabled: bool,
    literal_prefilter_enabled: bool,
) -> (result: (Vec<Match>, ScanStats))
    requires
        db.well_formed(),
        prefilter.fits(*db),
    ensures
        scan_outcome(*db, *prefilter, input@, prefilter_enabled, literal_prefilter_enabled, result.0@, result.1),
        event_views(result.0@) == scan_events(*db, input@, planned_starts(*db, *prefilter, input@, result.1.prefilter_path)),
        result.1.prefilter_path != PrefilterPath::Literal ==> event_views(result.0@) == expected_events(*db, input@),
        result.1.prefilter_path == PrefilterPath::Literal ==> prefilter_enabled && literal_prefilter_enabled
            && prefilter.literal_spec() is Some && !db.uses_assertions_spec()
            && input@.len() >= crate::prefilter::MIN_LITERAL_INPUT_UNITS,
        result.1.prefilter_path != PrefilterPath::MixedParallel,
        !prefilter_enabled ==> result.1.prefilter_path == PrefilterPath::AllStarts
            && result.1.prefilter_bypass == PrefilterBypass::Disabled,
        db.uses_assertions_spec() ==> result.1.assertion_bypasses == 1 && result.1.cache_states == 0
            && result.1.cache_hits == 0 && result.1.cache_misses == 0,
        !db.uses_assertions_spec() ==> result.1.assertion_bypasses == 0,
        state_cache_budget == 0 ==> result.1.cache_states == 0,
        result.1.prefilter_starts_scanned <= input@.len(),
        result.1.prefilter_starts_skipped == input@.len() - result.1.prefilter_starts_scanned,
        result.1.prefilter_starts_scanned == visited_start_count(*db, *prefilter, input@, result.1.prefilter_path),
{
    proof {
        prefilter.lemma_fits_shaped(*db);
    }
    let n = input.len();
    let plan = prefilter.plan(input, prefilter_enabled, literal_prefilter_enabled);
    let mut stats = ScanStats::zero();
    stats.prefilter_path = plan.path();
    stats.prefilter_bypass = plan.bypass();
    stats.prefilter_retained_bytes = plan.retained_bytes();
    stats.prefilter_candidate_bytes = plan.candidate_bytes();
    stats.prefilter_admissions = plan.admissions();
    stats.prefilter_candidate_starts = plan.candidate_count();
    let mut events: Vec<Match> = Vec::new();
    let mut scratch = Scratch::new(db);
    let mut counters = CacheCounters { hits: 0, misses: 0, fallbacks: 0 };
    let ghost p = db.pattern_table().len();
    if db.uses_assertions() {
        let mut start: usize = 0;
        while start < n
            invariant
                db.well_formed(),
                n == input@.len(),
                start <= n,
                scratch.fits(db.state_count_spec(), p),
                p == db.pattern_table().len(),
                event_views(events@) == scan_events(*db, input@, all_starts(start as int)),
            decreases n - start,
        {
            proof {
                lemma_scan_events_push(*db, input@, all_starts(start as int), start as int);
                assert(all_starts(start + 1) =~= all_starts(start as int).push(start as int));
            }
            scan_start(db, input, start, &mut scratch, &mut events);
            start = start + 1;
        }
        stats.assertion_bypasses = 1;
        stats.prefilter_starts_scanned = n;
        proof {
            assert(plan is All);
        }
    } else {
        let mut cache = if state_cache_budget > 0 {
            Some(DeterministicCache::new(db, input, state_cache_budget, &mut scratch))
        } else {
            None
        };
        let mut scanned: usize = 0;
        match &plan {
            ScanPlan::Candidates { candidates, .. } => {
                let positions = candidates.positions();
                let mut k: usize = 0;
                while k < positions.len()
                    invariant
                        db.well_formed(),
                        !db.uses_assertions_spec(),
                        n == input@.len(),
                        k <= positions@.len(),
                        positions@.map_values(|q: usize| q as int) == set_positions(candidates@),
                        candidates@.len() == n,
                        scratch.fits(db.state_count_spec(), p),
                        p == db.pattern_table().len(),
                        cache matches Some(c) ==> c.valid(*db, input@),
                        cache is None <==> state_cache_budget == 0,
                        event_views(events@) == scan_events(*db, input@, positions@.map_values(|q: usize| q as int).take(k as int)),
                    decreases positions@.len() - k,
                {
                    let start = positions[k];
                    proof {
                        lemma_positions_in_range(candidates@, k as int);
                        assert(positions@.map_values(|q: usize| q as int)[k as int] == start as int);
                        assert(positions@.map_values(|q: usize| q as int).take(k + 1) =~= positions@.map_values(|q: usize| q as int).take(k as int).push(start as int));
                        lemma_scan_events_push(*db, input@, positions@.map_values(|q: usize| q as int).take(k as int), start as int);
                    }
                    match &mut cache {
                        Some(c) => scan_start_cached(db, input, start, c, &mut scratch, &mut counters, &mut events),
                        None => scan_start(db, input, start, &mut scratch, &mut events),
                    }
                    k = k + 1;
                }
                scanned = positions.len();
                proof {
                    assert(positions@.map_values(|q: usize| q as int).len() == positions@.len());
                    assert(positions@.map_values(|q: usize| q as int).take(k as int) =~= positions@.map_values(|q: usize| q as int));
                    lemma_positions_len(candidates@);
                }
            },
            _ => {
                let use_table = matches!(plan, ScanPlan::StartTable { .. });
                let ghost table = if use_table {
                    prefilter.start_table_spec()
                } else {
                    None
                };
                let mut start: usize = 0;
                while start < n
                    invariant
                        db.well_formed(),
                        !db.uses_assertions_spec(),
                        n == input@.len(),
                        start <= n,
                        scanned <= start,
                        scratch.fits(db.state_count_spec(), p),
                        p == db.pattern_table().len(),
                        table == (if use_table {
                            prefilter.start_table_spec()
                        } else {
                            None
                        }),
                        use_table ==> prefilter.start_table_spec() is Some,
                        table matches Some(t) ==> t.well_shaped() && t.valid(*db),
                        cache matches Some(c) ==> c.valid(*db, input@),
                        cache is None <==> state_cache_budget == 0,
                        table is None ==> event_views(events@) == scan_events(*db, input@, all_starts(start as int)),
                        table matches Some(t) ==> event_views(events@) == scan_events(*db, input@, table_starts(t, input@, start as int)),
                        table is None ==> scanned == start,
                        table matches Some(t) ==> scanned == table_starts(t, input@, start as int).len(),
                    decreases n - start,
                {
                    if !use_table || prefilter.table_allows(input, start) {
                        proof {
                            lemma_scan_events_push(*db, input@, all_starts(start as int), start as int);
                            assert(all_starts(start + 1) =~= all_starts(start as int).push(start as int));
                            if let Some(t) = table {
                                lemma_scan_events_push(*db, input@, table_starts(t, input@, start as int), start as int);
                            }
                        }
                        match &mut cache {
                            Some(c) => scan_start_cached(db, input, start, c, &mut scratch, &mut counters, &mut events),
                            None => scan_start(db, input, start, &mut scratch, &mut events),
                        }
                        scanned = scanned + 1;
                    }
                    start = start + 1;
                }
                proof {
                    if let Some(t) = table {
                        lemma_start_table_scan(t, *db, input@, n as int);
                    }
                }
            },
        }
        stats.prefilter_starts_scanned = scanned;
        match &cache {
            Some(c) => {
                stats.cache_states = c.len();
                stats.cache_table_bytes = c.table_bytes();
            },
            None => {},
        }
        stats.cache_hits = counters.hits;
        stats.cache_misses = counters.misses;
        stats.fallback_transitions = counters.fallbacks;
    }
    stats.prefilter_starts_skipped = n - stats.prefilter_starts_scanned;
    (events, stats)
}

pub(crate) proof fn lemma_positions_in_range(bits: Seq<bool>, k: int)
    requires
        0 <= k < set_positions(bits).len(),
    ensures
        0 <= set_positions(bits)[k] < bits.len(),
    decreases bits.len(),
{
    if bits.len() > 0 {
        if bits.last() && k == set_positions(bits).len() - 1 {
        } else {
            lemma_positions_in_range(bits.drop_last(), k);
        }
    }
}

proof fn lemma_positions_len(bits: Seq<bool>)
    ensures
        set_positions(bits).len() <= bits.len(),
    decreases bits.len(),
{
    if bits.len() > 0 {
        lemma_positions_len(bits.drop_last());
    }
}

/// Hands every event to `sink`, in order.
pub fn deliver<F: FnMut(Match)>(events: Vec<Match>, sink: F)
    requires
        forall|m: Match| call_requires(sink, (m,)),
{
    let mut sink = sink;
    let mut i: usize = 0;
    while i < events.len()
        invariant
            i <= events@.len(),
            forall|m: Match| call_requires(sink, (m,)),
        decreases events@.len() - i,
    {
        sink(events[i]);
        i = i + 1;
    }
}

/// Scans `input`, hands the events of `collect_with_stats` to `sink` in the
/// same order, and returns the scan's counters.
pub fn scan_with_stats<F: FnMut(Match)>(
    db: &PatternDatabase,
    prefilter: &Prefilter,
    input: &Utf16Text,
    state_cache_budget: usize,
    prefilter_enabled: bool,
    literal_prefilter_enabled: bool,
    sink: F,
) -> (result: Result<ScanStats, Error>)
    requires
        db.well_formed(),
        prefilter.fits(*db),
        forall|m: Match| call_requires(sink, (m,)),
    ensures
        result is Ok,
        result matches Ok(stats) ==> {
            &&& stats.prefilter_path != PrefilterPath::MixedParallel
            &&& (!prefilter_enabled ==> stats.prefilter_path == PrefilterPath::AllStarts
                && stats.prefilter_bypass == PrefilterBypass::Disabled)
            &&& (db.uses_assertions_spec() ==> stats.assertion_bypasses == 1 && stats.cache_states == 0
                && stats.cache_hits == 0 && stats.cache_misses == 0)
            &&& (!db.uses_assertions_spec() ==> stats.assertion_bypasses == 0)
            &&& (state_cache_budget == 0 ==> stats.cache_states == 0)
            &&& stats.prefilter_starts_scanned <= input@.len()
            &&& stats.prefilter_starts_skipped == input@.len() - stats.prefilter_starts_scanned
        },
{
    let (events, stats) = collect_with_stats(
        db,
        prefilter,
        input.as_units(),
        state_cache_budget,
        prefilter_enabled,
        literal_prefilter_enabled,
    );
    deliver(events, sink);
    Ok(stats)
}

/// Scans `input` and hands every event to `sink`, as `scan_with_stats` does.
pub fn scan<F: FnMut(Match)>(
    db: &PatternDatabase,
    prefilter: &Prefilter,
    input: &Utf16Text,
    state_cache_budget: usize,
    prefilter_enabled: bool,
    literal_prefilter_enabled: bool,
    sink: F,
) -> (result: Result<(), Error>)
    requires
        db.well_formed(),
        prefilter.fits(*db),
        forall|m: Match| call_requires(sink, (m,)),
    ensures
        result is Ok,
{
    match scan_with_stats(
        db,
        prefilter,
        input,
        state_cache_budget,
        prefilter_enabled,
        literal_prefilter_enabled,
        sink,
    ) {
        Ok(_) => Ok(()),
        Err(error) => Err(error),
    }
}

/// Reports, in order, the longest matches at each of `starts`.
pub fn collect_at_starts(db: &PatternDatabase, input: &[u16], starts: &[usize]) -> (events: Vec<Match>)
    requires
        db.well_formed(),
        forall|k: int| 0 <= k < starts@.len() ==> #[trigger] starts@[k] < input@.len(),
    ensures
        event_views(events@) == scan_events(*db, input@, starts@.map_values(|q: usize| q as int)),
{
    let mut scratch = Scratch::new(db);
    let mut events: Vec<Match> = Vec::new();
    let ghost p = db.pattern_table().len();
    let ghost all = starts@.map_values(|q: usize| q as int);
    let mut k: usize = 0;
    while k < starts.len()
        invariant
            db.well_formed(),
            k <= starts@.len(),
            all == starts@.map_values(|q: usize| q as int),
            forall|j: int| 0 <= j < starts@.len() ==> #[trigger] starts@[j] < input@.len(),
            scratch.fits(db.state_count_spec(), p),
            p == db.pattern_table().len(),
            event_views(events@) == scan_events(*db, input@, all.take(k as int)),
        decreases starts@.len() - k,
    {
        let start = starts[k];
        proof {
            assert(all[k as int] == start as int);
            assert(all.take(k + 1) =~= all.take(k as int).push(start as int));
            lemma_scan_events_push(*db, input@, all.take(k as int), start as int);
        }
        scan_start(db, input, start, &mut scratch, &mut events);
        k = k + 1;
    }
    proof {
        assert(all.take(k as int) =~= all);
    }
    events
}

} // verus!
