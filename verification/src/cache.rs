//! A bounded cache of deterministic states over the automaton, built lazily
//! during one scan of patterns without assertions.
use std::collections::HashMap;
use vstd::prelude::*;

use crate::closure::{compute_transition, context_view, extend_closure, marked, states_in_range};
use crate::nfa::{PatternDatabase, StateId};
use crate::semantics::{accepts, closed_under, closure, consumed, lemma_closure_empty};

verus! {

broadcast use vstd::std_specs::hash::group_hash_axioms;

/// No transition computed yet.
pub const UNKNOWN_TRANSITION: u32 = 0xffff_ffff;

/// The transition leads to the empty set.
pub const DEAD_TRANSITION: u32 = 0xffff_fffe;

/// The target set did not fit the budget; it is recomputed on each use.
pub const FALLBACK_TRANSITION: u32 = 0xffff_fffd;

/// One cached state: a set of automaton states with its accepted ordinals
/// and the transitions computed so far.
pub struct DeterministicState {
    nfa_states: Vec<StateId>,
    terminals: Vec<usize>,
    ascii_transitions: Vec<u32>,
    non_ascii_transitions: Vec<(u16, u32)>,
}

/// What a cached transition step produced.
#[derive(Clone, Copy, Debug, PartialEq, Eq, Structural)]
pub enum TransitionOutcome {
    /// No state survives.
    Dead,
    /// The cached state with this index.
    Cached(u32),
    /// The target set is in the scratch's `next` list.
    Uncached,
}

/// Counters a cached scan reports.
#[derive(Clone, Copy, Debug, PartialEq, Eq, Structural)]
pub struct CacheCounters {
    pub hits: u64,
    pub misses: u64,
    pub fallbacks: u64,
}

/// Adds one to a counter, saturating.
pub fn bump(counter: u64) -> (next: u64)
    ensures
        counter < u64::MAX ==> next == counter + 1,
        counter == u64::MAX ==> next == counter,
{
    if counter < u64::MAX {
        counter + 1
    } else {
        counter
    }
}

impl DeterministicState {
    pub closed spec fn set_spec(&self) -> Set<StateId> {
        self.nfa_states@.to_set()
    }

    /// The automaton states in the order they were listed.
    pub closed spec fn list_spec(&self) -> Seq<StateId> {
        self.nfa_states@
    }

    pub closed spec fn terminals_spec(&self) -> Seq<usize> {
        self.terminals@
    }

    /// The entry recorded for `symbol`.
    pub closed spec fn transition_spec(&self, symbol: u16) -> u32 {
        if symbol < 128 {
            self.ascii_transitions@[symbol as int]
        } else {
            first_entry(self.non_ascii_transitions@, symbol)
        }
    }

    pub closed spec fn shape_ok(&self, state_count: nat) -> bool {
        &&& self.ascii_transitions@.len() == 128
        &&& states_in_range(self.nfa_states@, state_count)
        &&& forall|i: int|
            0 <= i < self.non_ascii_transitions@.len() ==> (#[trigger] self.non_ascii_transitions@[i]).1
                != UNKNOWN_TRANSITION
    }

    fn new(db: &PatternDatabase, nfa_states: Vec<StateId>) -> (state: Self)
        requires
            db.well_formed(),
            states_in_range(nfa_states@, db.state_count_spec()),
        ensures
            state.shape_ok(db.state_count_spec()),
            state.set_spec() == nfa_states@.to_set(),
            state.list_spec() == nfa_states@,
            forall|o: int|
                0 <= o < db.pattern_table().len() ==> (#[trigger] state.terminals_spec().contains(o as usize)
                    <==> accepts(*db, nfa_states@.to_set(), o)),
            forall|c: u16| #[trigger] state.transition_spec(c) == UNKNOWN_TRANSITION,
            forall|k: int| 0 <= k < state.terminals_spec().len() ==> (#[trigger] state.terminals_spec()[k] as int) < db.pattern_table().len(),
    {
        let mut terminals: Vec<usize> = Vec::new();
        let mut i: usize = 0;
        while i < nfa_states.len()
            invariant
                db.well_formed(),
                states_in_range(nfa_states@, db.state_count_spec()),
                i <= nfa_states@.len(),
                forall|k: int| 0 <= k < terminals@.len() ==> (#[trigger] terminals@[k] as int) < db.pattern_table().len(),
                forall|o: int|
                    #![trigger terminals@.contains(o as usize)]
                    0 <= o <= usize::MAX ==> (terminals@.contains(o as usize) <==> exists|a: int|
                        0 <= a < i && #[trigger] db.terminal_table()[nfa_states@[a].0 as int].contains(
                            o as usize,
                        )),
            decreases nfa_states@.len() - i,
        {
            let ghost before = terminals@;
            let found = db.terminals_at(nfa_states[i]);
            let mut t: usize = 0;
            while t < found.len()
                invariant
                    db.well_formed(),
                    states_in_range(nfa_states@, db.state_count_spec()),
                    i < nfa_states@.len(),
                    forall|k: int| 0 <= k < terminals@.len() ==> (#[trigger] terminals@[k] as int) < db.pattern_table().len(),
                    found@ == db.terminal_table()[nfa_states@[i as int].0 as int],
                    t <= found@.len(),
                    forall|x: usize| #[trigger] terminals@.contains(x) <==> before.contains(x) || exists|u: int| 0 <= u < t && found@[u] == x,
                decreases found@.len() - t,
            {
                let ghost prior = terminals@;
                proof {
                    assert(db.terminal_table()[nfa_states@[i as int].0 as int][t as int] == found@[t as int]);
                }
                terminals.push(found[t]);
                proof {
                    assert forall|x: usize| #[trigger] terminals@.contains(x) <==> before.contains(x) || exists|u: int| 0 <= u < t + 1 && found@[u] == x by {
                        if terminals@.contains(x) {
                            let k = choose|k: int| 0 <= k < terminals@.len() && terminals@[k] == x;
                            if k < prior.len() {
                                assert(prior[k] == x);
                                assert(prior.contains(x));
                            }
                        }
                        if exists|u: int| 0 <= u < t + 1 && found@[u] == x {
                            let u = choose|u: int| 0 <= u < t + 1 && found@[u] == x;
                            if u == t {
                                assert(terminals@[terminals@.len() - 1] == x);
                            } else {
                                assert(prior.contains(x));
                                let k = choose|k: int| 0 <= k < prior.len() && prior[k] == x;
                                assert(terminals@[k] == x);
                            }
                        }
                        if before.contains(x) {
                            assert(prior.contains(x));
                            let k = choose|k: int| 0 <= k < prior.len() && prior[k] == x;
                            assert(terminals@[k] == x);
                        }
                    }
                }
                t = t + 1;
            }
            proof {
                assert forall|o: int|
                    #![trigger terminals@.contains(o as usize)]
                    0 <= o <= usize::MAX implies (terminals@.contains(o as usize) <==> exists|a: int|
                        0 <= a < i + 1 && #[trigger] db.terminal_table()[nfa_states@[a].0 as int].contains(
                            o as usize,
                        )) by {
                    if db.terminal_table()[nfa_states@[i as int].0 as int].contains(o as usize) {
                        let u = choose|u: int| 0 <= u < found@.len() && found@[u] == o as usize;
                        assert(terminals@.contains(o as usize));
                    }
                    if terminals@.contains(o as usize) && !before.contains(o as usize) {
                        let u = choose|u: int| 0 <= u < t && found@[u] == o as usize;
                        assert(db.terminal_table()[nfa_states@[i as int].0 as int].contains(o as usize));
                    }
                }
            }
            i = i + 1;
        }
        let mut ascii_transitions: Vec<u32> = Vec::new();
        let mut c: usize = 0;
        while c < 128
            invariant
                c <= 128,
                ascii_transitions@.len() == c,
                forall|k: int| 0 <= k < c ==> #[trigger] ascii_transitions@[k] == UNKNOWN_TRANSITION,
            decreases 128 - c,
        {
            ascii_transitions.push(UNKNOWN_TRANSITION);
            c = c + 1;
        }
        let pattern_count = db.pattern_count();
        let state = DeterministicState {
            nfa_states,
            terminals,
            ascii_transitions,
            non_ascii_transitions: Vec::new(),
        };
        proof {
            assert forall|o: int|
                0 <= o < db.pattern_table().len() implies (state.terminals_spec().contains(o as usize)
                    <==> accepts(*db, state.nfa_states@.to_set(), o)) by {
                assert(o <= pattern_count);
                if state.terminals_spec().contains(o as usize) {
                    let a = choose|a: int|
                        0 <= a < state.nfa_states@.len() && #[trigger] db.terminal_table()[state.nfa_states@[a].0 as int].contains(
                            o as usize,
                        );
                    assert(state.nfa_states@.contains(state.nfa_states@[a]));
                    assert(state.nfa_states@.to_set().contains(state.nfa_states@[a]));
                }
                if accepts(*db, state.nfa_states@.to_set(), o) {
                    let s = choose|s: StateId| state.nfa_states@.to_set().contains(s) && #[trigger] db.terminal_table()[s.0 as int].contains(
                        o as usize,
                    );
                    let a = choose|a: int| 0 <= a < state.nfa_states@.len() && state.nfa_states@[a] == s;
                    assert(db.terminal_table()[state.nfa_states@[a].0 as int].contains(o as usize));
                }
            }
        }
        state
    }

    fn transition(&self, symbol: u16) -> (transition: u32)
        requires
            self.ascii_transitions@.len() == 128,
        ensures
            transition == self.transition_spec(symbol),
    {
        if symbol < 128 {
            self.ascii_transitions[symbol as usize]
        } else {
            let mut i: usize = 0;
            proof {
                assert(self.non_ascii_transitions@.skip(0) =~= self.non_ascii_transitions@);
            }
            while i < self.non_ascii_transitions.len()
                invariant
                    symbol >= 128,
                    i <= self.non_ascii_transitions@.len(),
                    first_entry(self.non_ascii_transitions@, symbol) == first_entry(
                        self.non_ascii_transitions@.skip(i as int),
                        symbol,
                    ),
                decreases self.non_ascii_transitions@.len() - i,
            {
                let (candidate, transition) = self.non_ascii_transitions[i];
                proof {
                    let rest = self.non_ascii_transitions@.skip(i as int);
                    assert(rest[0] == (candidate, transition));
                    assert(rest.drop_first() =~= self.non_ascii_transitions@.skip(i + 1));
                }
                if candidate == symbol {
                    proof {
                        let rest = self.non_ascii_transitions@.skip(i as int);
                        assert(rest.len() > 0);
                        assert(first_entry(rest, symbol) == transition);
                        assert(self.transition_spec(symbol) == first_entry(self.non_ascii_transitions@, symbol));
                    }
                    return transition;
                }
                i = i + 1;
            }
            proof {
                assert(self.non_ascii_transitions@.skip(i as int) =~= Seq::<(u16, u32)>::empty());
            }
            UNKNOWN_TRANSITION
        }
    }

    fn set_transition(&mut self, symbol: u16, transition: u32)
        requires
            old(self).ascii_transitions@.len() == 128,
            forall|i: int|
                0 <= i < old(self).non_ascii_transitions@.len() ==> (#[trigger] old(self).non_ascii_transitions@[i]).1
                    != UNKNOWN_TRANSITION,
            old(self).transition_spec(symbol) == UNKNOWN_TRANSITION,
            transition != UNKNOWN_TRANSITION,
        ensures
            final(self).ascii_transitions@.len() == 128,
            forall|i: int|
                0 <= i < final(self).non_ascii_transitions@.len() ==> (#[trigger] final(self).non_ascii_transitions@[i]).1
                    != UNKNOWN_TRANSITION,
            final(self).nfa_states == old(self).nfa_states,
            final(self).terminals == old(self).terminals,
            final(self).transition_spec(symbol) == transition,
            forall|c: u16| c != symbol ==> #[trigger] final(self).transition_spec(c) == old(self).transition_spec(c),
    {
        if symbol < 128 {
            self.ascii_transitions.set(symbol as usize, transition);
        } else {
            let ghost before = self.non_ascii_transitions@;
            proof {
                lemma_first_entry_absent(before, symbol);
            }
            self.non_ascii_transitions.push((symbol, transition));
            proof {
                assert forall|c: u16| c != symbol implies #[trigger] self.transition_spec(c)
                    == old(self).transition_spec(c) by {
                    if c >= 128 {
                        lemma_first_entry_push(before, symbol, transition, c);
                    }
                }
                lemma_first_entry_push(before, symbol, transition, symbol);
            }
        }
    }
}

/// The states marked with `generation`, in index order.
pub fn canonical_states(marks: &Vec<u32>, generation: u32) -> (states: Vec<StateId>)
    requires
        marks@.len() <= u32::MAX + 1,
    ensures
        states@.no_duplicates(),
        states_in_range(states@, marks@.len()),
        states@.to_set() == marked(marks@, generation),
{
    let mut states: Vec<StateId> = Vec::new();
    let mut index: usize = 0;
    while index < marks.len()
        invariant
            index <= marks@.len() <= u32::MAX + 1,
            states@.no_duplicates(),
            states_in_range(states@, marks@.len()),
            forall|k: int| 0 <= k < states@.len() ==> (#[trigger] states@[k].0 as int) < index,
            forall|s: StateId| #[trigger] states@.contains(s) <==> ((s.0 as int) < index && marks@[s.0 as int] == generation),
        decreases marks@.len() - index,
    {
        if marks[index] == generation {
            let ghost before = states@;
            states.push(StateId(index as u32));
            proof {
                assert forall|s: StateId| #[trigger] states@.contains(s) <==> ((s.0 as int) < index + 1 && marks@[s.0 as int] == generation) by {
                    if states@.contains(s) {
                        let k = choose|k: int| 0 <= k < states@.len() && states@[k] == s;
                        if k < before.len() {
                            assert(before[k] == s);
                            assert(before.contains(s));
                        }
                    }
                    if (s.0 as int) < index + 1 && marks@[s.0 as int] == generation {
                        if (s.0 as int) < index {
                            assert(before.contains(s));
                            let k = choose|k: int| 0 <= k < before.len() && before[k] == s;
                            assert(states@[k] == s);
                        } else {
                            assert(states@[states@.len() - 1] == s);
                        }
                    }
                }
                assert forall|a: int, b: int| 0 <= a < b < states@.len() implies states@[a] != states@[b] by {
                    if b == states@.len() - 1 {
                        assert((states@[a].0 as int) < index);
                    }
                }
            }
        } else {
            proof {
                assert forall|s: StateId| #[trigger] states@.contains(s) <==> ((s.0 as int) < index + 1 && marks@[s.0 as int] == generation) by {
                    if states@.contains(s) {
                        let k = choose|k: int| 0 <= k < states@.len() && states@[k] == s;
                        assert((states@[k].0 as int) < index);
                    }
                }
            }
        }
        index = index + 1;
    }
    proof {
        assert(states@.to_set() =~= marked(marks@, generation));
    }
    states
}

/// The multiplier of the FNV-1a hash.
pub const FNV_PRIME: u64 = 0x0000_0100_0000_01b3;

/// The starting value of the FNV-1a hash.
pub const FNV_OFFSET: u64 = 0xcbf2_9ce4_8422_2325;

/// FNV-1a from `hash` over the `count` low bytes of `value`, lowest first.
pub open spec fn hash_bytes(hash: u64, value: u64, count: u64) -> u64
    decreases count,
{
    if count == 0 {
        hash
    } else {
        let before = hash_bytes(hash, value, (count - 1) as u64);
        (before ^ ((value >> ((8 * (count - 1)) as u64)) & 0xff)).wrapping_mul(FNV_PRIME)
    }
}

/// FNV-1a over the eight little-endian bytes of each state's index, in
/// list order.
pub open spec fn state_list_hash(states: Seq<StateId>) -> u64
    decreases states.len(),
{
    if states.len() == 0 {
        FNV_OFFSET
    } else {
        hash_bytes(state_list_hash(states.drop_last()), states.last().0 as u64, 8)
    }
}

/// Hash of a list of states, used to find equal cached sets.
fn state_set_hash(states: &[StateId]) -> (hash: u64)
    ensures
        hash == state_list_hash(states@),
{
    let mut hash: u64 = FNV_OFFSET;
    let mut i: usize = 0;
    proof {
        assert(states@.take(0) =~= Seq::<StateId>::empty());
    }
    while i < states.len()
        invariant
            i <= states@.len(),
            hash == state_list_hash(states@.take(i as int)),
        decreases states@.len() - i,
    {
        let value = states[i].0 as u64;
        let ghost start = hash;
        let mut b: u64 = 0;
        while b < 8
            invariant
                b <= 8,
                hash == hash_bytes(start, value, b),
            decreases 8 - b,
        {
            let byte = (value >> (8 * b)) & 0xff;
            hash = hash ^ byte;
            hash = hash.wrapping_mul(FNV_PRIME);
            proof {
                assert((8 * ((b + 1) - 1)) as u64 == 8 * b);
            }
            b = b + 1;
        }
        proof {
            assert(states@.take(i + 1).drop_last() =~= states@.take(i as int));
            assert(states@.take(i + 1).last() == states@[i as int]);
        }
        i = i + 1;
    }
    proof {
        assert(states@.take(i as int) =~= states@);
    }
    hash
}

/// Whether two lists hold the same states in the same order.
fn same_states(left: &[StateId], right: &[StateId]) -> (same: bool)
    ensures
        same == (left@ == right@),
{
    if left.len() != right.len() {
        return false;
    }
    let mut i: usize = 0;
    while i < left.len()
        invariant
            left@.len() == right@.len(),
            i <= left@.len(),
            forall|k: int| 0 <= k < i ==> left@[k] == right@[k],
        decreases left@.len() - i,
    {
        if left[i] != right[i] {
            proof {
                assert(left@[i as int] != right@[i as int]);
            }
            return false;
        }
        i = i + 1;
    }
    proof {
        assert(left@ =~= right@);
    }
    true
}

/// Lazily built deterministic states of one scan.
pub struct DeterministicCache {
    budget: usize,
    states: Vec<DeterministicState>,
    hash_buckets: HashMap<u64, Vec<u32>>,
}

impl DeterministicCache {
    /// Number of cached states.
    pub closed spec fn len_spec(&self) -> nat {
        self.states@.len()
    }

    /// The automaton states cached state `d` stands for.
    pub closed spec fn set_of(&self, d: int) -> Set<StateId> {
        self.states@[d].set_spec()
    }

    /// The automaton states cached state `d` lists, in order.
    pub closed spec fn list_of(&self, d: int) -> Seq<StateId> {
        self.states@[d].list_spec()
    }

    /// Whether some cached state lists exactly `list`.
    pub open spec fn has_list(&self, list: Seq<StateId>) -> bool {
        exists|d: int| 0 <= d < self.len_spec() && #[trigger] self.list_of(d) == list
    }

    /// Every cached state is filed in the bucket of its list's hash.
    pub closed spec fn indexed(&self) -> bool {
        &&& self.states@.len() <= FALLBACK_TRANSITION
        &&& forall|d: int|
            #![trigger self.list_of(d)]
            0 <= d < self.states@.len() ==> {
                &&& self.hash_buckets@.contains_key(state_list_hash(self.list_of(d)))
                &&& self.hash_buckets@[state_list_hash(self.list_of(d))]@.contains(d as u32)
            }
    }

    /// The cache budget.
    pub closed spec fn budget_spec(&self) -> nat {
        self.budget as nat
    }

    spec fn transition_valid(&self, db: PatternDatabase, input: Seq<u16>, d: int, c: u16) -> bool {
        let t = self.states@[d].transition_spec(c);
        let target = closure(db, input, None, consumed(db, self.set_of(d), c));
        ||| t == UNKNOWN_TRANSITION
        ||| t == FALLBACK_TRANSITION
        ||| (t == DEAD_TRANSITION && target == Set::<StateId>::empty())
        ||| ((t as int) < self.states@.len() && self.set_of(t as int) == target)
    }

    /// Every cached state, transition, and accepted ordinal agrees with the
    /// automaton on `input`.
    pub closed spec fn valid(&self, db: PatternDatabase, input: Seq<u16>) -> bool {
        &&& self.indexed()
        &&& 1 <= self.states@.len() <= self.budget
        &&& self.states@.len() <= FALLBACK_TRANSITION
        &&& self.set_of(0) == closure(db, input, None, set![db.root_spec()])
        &&& forall|d: int| 0 <= d < self.states@.len() ==> (#[trigger] self.states@[d]).shape_ok(
            db.state_count_spec(),
        )
        &&& forall|d: int, o: int|
            0 <= d < self.states@.len() && 0 <= o < db.pattern_table().len() ==> (
            #[trigger] self.states@[d].terminals_spec().contains(o as usize) <==> accepts(
                db,
                self.set_of(d),
                o,
            ))
        &&& forall|d: int, c: u16|
            0 <= d < self.states@.len() ==> #[trigger] self.transition_valid(db, input, d, c)
        &&& forall|d: int, k: int|
            0 <= d < self.states@.len() && 0 <= k < self.states@[d].terminals_spec().len() ==> (
            #[trigger] self.states@[d].terminals_spec()[k] as int) < db.pattern_table().len()
    }

    /// States present before stay as they were.
    pub closed spec fn grows_from(&self, before: &DeterministicCache) -> bool {
        &&& before.states@.len() <= self.states@.len()
        &&& forall|d: int| 0 <= d < before.states@.len() ==> #[trigger] self.set_of(d) == before.set_of(d)
        &&& self.budget == before.budget
    }

    pub closed spec fn keeps_states(&self, before: &DeterministicCache) -> bool {
        forall|d: int| 0 <= d < before.states@.len() ==> #[trigger] self.states@[d] == before.states@[d]
    }

    /// Creates a cache holding the root closure.
    pub fn new(
        db: &PatternDatabase,
        input: &[u16],
        budget: usize,
        scratch: &mut crate::engine::Scratch,
    ) -> (cache: DeterministicCache)
        requires
            db.well_formed(),
            budget > 0,
            old(scratch).fits(db.state_count_spec(), db.pattern_table().len()),
        ensures
            cache.valid(*db, input@),
            cache.len_spec() == 1,
            cache.budget_spec() == budget,
            final(scratch).fits(db.state_count_spec(), db.pattern_table().len()),
    {
        let generation = scratch.fresh_generation();
        let mut found: Vec<StateId> = Vec::new();
        proof {
            assert(found@.to_set() =~= Set::<StateId>::empty());
            assert(marked(scratch.marks@, generation) =~= Set::<StateId>::empty());
            lemma_closure_empty(*db, input@, None);
            assert(closed_under(*db, input@, None, Set::<StateId>::empty()));
        }
        extend_closure(
            db,
            input,
            None,
            db.root(),
            &mut found,
            &mut scratch.marks,
            generation,
            &mut scratch.stack,
        );
        proof {
            assert(found@.to_set() =~= closure(*db, input@, None, set![db.root_spec()]));
            assert forall|i: int| 0 <= i < scratch.marks@.len() implies #[trigger] scratch.marks@[i] <= scratch.generation by {}
        }
        let root_list = canonical_states(&scratch.marks, generation);
        let key = state_set_hash(root_list.as_slice());
        let root = DeterministicState::new(db, root_list);
        let mut states: Vec<DeterministicState> = Vec::new();
        states.push(root);
        let mut first: Vec<u32> = Vec::new();
        first.push(0);
        let mut hash_buckets: HashMap<u64, Vec<u32>> = HashMap::new();
        hash_buckets.insert(key, first);
        let cache = DeterministicCache { budget, states, hash_buckets };
        proof {
            assert(cache.states@[0] == root);
            assert(cache.list_of(0) == root_list@);
            assert(first@[0] == 0u32);
            assert(cache.hash_buckets@[key]@.contains(0u32));
            assert forall|d: int, c: u16| 0 <= d < cache.states@.len() implies #[trigger] cache.transition_valid(*db, input@, d, c) by {
                assert(cache.states@[d].transition_spec(c) == UNKNOWN_TRANSITION);
            }
        }
        cache
    }

    /// A valid cache files every state under its hash.
    pub proof fn lemma_valid_indexed(&self, db: PatternDatabase, input: Seq<u16>)
        requires
            self.valid(db, input),
        ensures
            self.indexed(),
    {
    }

    /// A valid cache holds the root closure as its first state.
    pub proof fn lemma_root(&self, db: PatternDatabase, input: Seq<u16>)
        requires
            self.valid(db, input),
        ensures
            self.len_spec() >= 1,
            self.set_of(0) == closure(db, input, None, set![db.root_spec()]),
    {
    }

    /// Number of cached states.
    pub fn len(&self) -> (count: usize)
        ensures
            count == self.len_spec(),
    {
        self.states.len()
    }

    /// Bytes held by the direct ASCII transition tables.
    pub fn table_bytes(&self) -> (bytes: usize)
        ensures
            bytes == 512 * self.len_spec() || bytes == usize::MAX,
    {
        let count = self.states.len();
        if count > usize::MAX / 512 {
            usize::MAX
        } else {
            count * 512
        }
    }

    /// Ordinals accepted by cached state `d`.
    pub fn terminals(&self, db: &PatternDatabase, Ghost(input): Ghost<Seq<u16>>, d: u32) -> (terminals: &[usize])
        requires
            self.valid(*db, input),
            (d as int) < self.len_spec(),
        ensures
            forall|o: int|
                0 <= o < db.pattern_table().len() ==> (#[trigger] terminals@.contains(o as usize)
                    <==> accepts(*db, self.set_of(d as int), o)),
            forall|k: int| 0 <= k < terminals@.len() ==> (#[trigger] terminals@[k] as int) < db.pattern_table().len(),
    {
        let terminals = self.states[d as usize].terminals.as_slice();
        proof {
            assert(terminals@ == self.states@[d as int].terminals_spec());
            assert forall|o: int|
                0 <= o < db.pattern_table().len() implies (#[trigger] terminals@.contains(o as usize)
                    <==> accepts(*db, self.set_of(d as int), o)) by {
                assert(self.states@[d as int].terminals_spec().contains(o as usize) <==> accepts(*db, self.set_of(d as int), o));
            }
        }
        terminals
    }

    /// Finds a cached state listing exactly `nfa_states`.
    pub fn lookup(&self, nfa_states: &[StateId]) -> (found: Option<u32>)
        requires
            self.indexed(),
        ensures
            found matches Some(d) ==> (d as int) < self.len_spec() && self.list_of(d as int) == nfa_states@
                && self.set_of(d as int) == nfa_states@.to_set(),
            found is None <==> !self.has_list(nfa_states@),
    {
        let key = state_set_hash(nfa_states);
        match self.hash_buckets.get(&key) {
            None => {
                proof {
                    assert forall|d: int| 0 <= d < self.len_spec() implies #[trigger] self.list_of(d) != nfa_states@ by {
                        if self.list_of(d) == nfa_states@ {
                            assert(self.hash_buckets@.contains_key(state_list_hash(self.list_of(d))));
                        }
                    }
                }
                None
            },
            Some(candidates) => {
                let mut i: usize = 0;
                while i < candidates.len()
                    invariant
                        i <= candidates@.len(),
                        self.indexed(),
                        key == state_list_hash(nfa_states@),
                        self.hash_buckets@.contains_key(key) && self.hash_buckets@[key] == *candidates,
                        forall|k: int|
                            0 <= k < i ==> (candidates@[k] as int) >= self.states@.len() || #[trigger] self.list_of(
                                candidates@[k] as int,
                            ) != nfa_states@,
                    decreases candidates@.len() - i,
                {
                    let candidate = candidates[i];
                    if (candidate as usize) < self.states.len() && same_states(
                        self.states[candidate as usize].nfa_states.as_slice(),
                        nfa_states,
                    ) {
                        proof {
                            assert(self.list_of(candidate as int) == nfa_states@);
                        }
                        return Some(candidate);
                    }
                    proof {
                        if (candidate as int) < self.states@.len() {
                            assert(self.list_of(candidate as int) == self.states@[candidate as int].nfa_states@);
                        }
                    }
                    i = i + 1;
                }
                proof {
                    assert forall|d: int| 0 <= d < self.len_spec() implies #[trigger] self.list_of(d) != nfa_states@ by {
                        if self.list_of(d) == nfa_states@ {
                            assert(self.hash_buckets@[state_list_hash(self.list_of(d))]@.contains(d as u32));
                            assert(state_list_hash(self.list_of(d)) == key);
                            assert(self.hash_buckets@[key]@ == candidates@);
                            assert(candidates@.contains(d as u32));
                            let k = choose|k: int| 0 <= k < candidates@.len() && candidates@[k] == d as u32;
                            assert(k < i);
                            assert((candidates@[k] as int) >= self.states@.len() || self.list_of(candidates@[k] as int) != nfa_states@);
                            assert(candidates@[k] as int == d);
                        }
                    }
                }
                None
            },
        }
    }

    /// Finds or adds the cached state for `nfa_states`, unless the budget is
    /// spent.
    pub fn intern(&mut self, db: &PatternDatabase, Ghost(input): Ghost<Seq<u16>>, nfa_states: &[StateId]) -> (found: Option<u32>)
        requires
            db.well_formed(),
            old(self).valid(*db, input),
            states_in_range(nfa_states@, db.state_count_spec()),
        ensures
            final(self).valid(*db, input),
            final(self).grows_from(old(self)),
            final(self).keeps_states(old(self)),
            found matches Some(d) ==> (d as int) < final(self).len_spec() && final(self).set_of(d as int)
                == nfa_states@.to_set() && final(self).list_of(d as int) == nfa_states@,
            found is None ==> final(self).len_spec() == old(self).len_spec(),
            old(self).has_list(nfa_states@) ==> found is Some && (found->0 as int) < old(self).len_spec()
                && *final(self) == *old(self),
            !old(self).has_list(nfa_states@) && old(self).len_spec() < old(self).budget_spec()
                && old(self).len_spec() < FALLBACK_TRANSITION ==> found == Some(old(self).len_spec() as u32)
                && final(self).len_spec() == old(self).len_spec() + 1,
            !old(self).has_list(nfa_states@) && !(old(self).len_spec() < old(self).budget_spec()
                && old(self).len_spec() < FALLBACK_TRANSITION) ==> found is None && *final(self) == *old(self),
    {
        if let Some(state) = self.lookup(nfa_states) {
            return Some(state);
        }
        if self.states.len() >= self.budget || self.states.len() >= FALLBACK_TRANSITION as usize {
            return None;
        }
        let state = self.states.len() as u32;
        let mut copy: Vec<StateId> = Vec::new();
        let mut i: usize = 0;
        while i < nfa_states.len()
            invariant
                i <= nfa_states@.len(),
                copy@ == nfa_states@.subrange(0, i as int),
            decreases nfa_states@.len() - i,
        {
            copy.push(nfa_states[i]);
            proof {
                assert(copy@ =~= nfa_states@.subrange(0, i + 1));
            }
            i = i + 1;
        }
        proof {
            assert(copy@ =~= nfa_states@);
        }
        let ghost copy_view = copy@;
        let entry = DeterministicState::new(db, copy);
        let ghost before = *self;
        self.states.push(entry);
        let key = state_set_hash(nfa_states);
        let ghost buckets_before = self.hash_buckets@;
        let mut bucket: Vec<u32> = match self.hash_buckets.remove(&key) {
            Some(existing) => existing,
            None => Vec::new(),
        };
        let ghost old_bucket = bucket@;
        bucket.push(state);
        self.hash_buckets.insert(key, bucket);
        proof {
            assert(self.hash_buckets@ == buckets_before.insert(key, bucket));
            assert(self.list_of(state as int) == nfa_states@);
            assert forall|d: int|
                #![trigger self.list_of(d)]
                0 <= d < self.states@.len() implies {
                &&& self.hash_buckets@.contains_key(state_list_hash(self.list_of(d)))
                &&& self.hash_buckets@[state_list_hash(self.list_of(d))]@.contains(d as u32)
            } by {
                if d < before.states@.len() {
                    assert(self.states@[d] == before.states@[d]);
                    assert(self.list_of(d) == before.list_of(d));
                    let h = state_list_hash(before.list_of(d));
                    assert(buckets_before.contains_key(h) && buckets_before[h]@.contains(d as u32));
                    if h == key {
                        assert(old_bucket == buckets_before[h]@);
                        let k = choose|k: int| 0 <= k < old_bucket.len() && old_bucket[k] == d as u32;
                        assert(bucket@[k] == d as u32);
                    }
                } else {
                    assert(d == state);
                    assert(bucket@[bucket@.len() - 1] == state);
                }
            }
            assert(self.states@[state as int] == entry);
            assert forall|d: int| 0 <= d < before.states@.len() implies #[trigger] self.set_of(d) == before.set_of(d) by {
                assert(self.states@[d] == before.states@[d]);
            }
            assert forall|d: int| 0 <= d < self.states@.len() implies (#[trigger] self.states@[d]).shape_ok(
                db.state_count_spec(),
            ) by {
                if d < before.states@.len() {
                    assert(self.states@[d] == before.states@[d]);
                }
            }
            assert forall|d: int, o: int|
                0 <= d < self.states@.len() && 0 <= o < db.pattern_table().len() implies (
                #[trigger] self.states@[d].terminals_spec().contains(o as usize) <==> accepts(
                    *db,
                    self.set_of(d),
                    o,
                )) by {
                if d < before.states@.len() {
                    assert(self.states@[d] == before.states@[d]);
                } else {
                    assert(self.states@[d] == entry);
                    assert(entry.terminals_spec().contains(o as usize) <==> accepts(*db, copy_view.to_set(), o));
                    assert(self.set_of(d) == copy_view.to_set());
                }
            }
            assert forall|d: int, c: u16| 0 <= d < self.states@.len() implies #[trigger] self.transition_valid(*db, input, d, c) by {
                if d < before.states@.len() {
                    assert(self.states@[d] == before.states@[d]);
                    assert(before.transition_valid(*db, input, d, c));
                    let t = before.states@[d].transition_spec(c);
                    if (t as int) < before.states@.len() {
                        assert(self.states@[t as int] == before.states@[t as int]);
                    }
                } else {
                    assert(self.states@[d].transition_spec(c) == UNKNOWN_TRANSITION);
                }
            }
            assert(self.states@[0] == before.states@[0]);
            assert(self.keeps_states(&before));
        }
        Some(state)
    }

    /// Moves from cached state `d` on `symbol`, computing and caching the
    /// target on a miss.
    pub fn transition(
        &mut self,
        db: &PatternDatabase,
        input: &[u16],
        d: u32,
        symbol: u16,
        scratch: &mut crate::engine::Scratch,
        counters: &mut CacheCounters,
    ) -> (outcome: TransitionOutcome)
        requires
            db.well_formed(),
            old(self).valid(*db, input@),
            (d as int) < old(self).len_spec(),
            old(scratch).marks_ready(db.state_count_spec()),
        ensures
            final(self).valid(*db, input@),
            final(self).grows_from(old(self)),
            old(self).len_spec() <= final(self).len_spec(),
            forall|e: int| 0 <= e < old(self).len_spec() ==> #[trigger] final(self).set_of(e) == old(self).set_of(e),
            final(self).budget_spec() == old(self).budget_spec(),
            final(scratch).marks_ready(db.state_count_spec()),
            final(scratch).best_end == old(scratch).best_end,
            final(scratch).active == old(scratch).active,
            ({
                let target = closure(*db, input@, None, consumed(*db, old(self).set_of(d as int), symbol));
                match outcome {
                    TransitionOutcome::Dead => target == Set::<StateId>::empty(),
                    TransitionOutcome::Cached(e) => (e as int) < final(self).len_spec()
                        && final(self).set_of(e as int) == target,
                    TransitionOutcome::Uncached => final(scratch).next@.to_set() == target
                        && states_in_range(final(scratch).next@, db.state_count_spec()),
                }
            }),
    {
        let ghost target = closure(*db, input@, None, consumed(*db, self.set_of(d as int), symbol));
        proof {
            assert(self.states@[d as int].shape_ok(db.state_count_spec()));
            assert(self.transition_valid(*db, input@, d as int, symbol));
        }
        let known = self.states[d as usize].transition(symbol);
        if known == UNKNOWN_TRANSITION {
            counters.misses = bump(counters.misses);
            self.compute_into_next(db, input, d, symbol, scratch);
            let transition = if scratch.next.len() == 0 {
                proof {
                    assert(scratch.next@.to_set() =~= Set::<StateId>::empty());
                }
                DEAD_TRANSITION
            } else {
                let ghost before = *self;
                match self.intern(db, Ghost(input@), scratch.next.as_slice()) {
                    Some(state) => state,
                    None => FALLBACK_TRANSITION,
                }
            };
            let ghost middle = *self;
            proof {
                assert(self.set_of(d as int) == old(self).set_of(d as int));
                assert(self.states@[d as int].shape_ok(db.state_count_spec()));
                assert(self.states@[d as int].transition_spec(symbol) == known);
            }
            self.set_state_transition(db, Ghost(input@), d, symbol, transition);
            if transition == DEAD_TRANSITION {
                TransitionOutcome::Dead
            } else if transition == FALLBACK_TRANSITION {
                counters.fallbacks = bump(counters.fallbacks);
                TransitionOutcome::Uncached
            } else {
                TransitionOutcome::Cached(transition)
            }
        } else if known == FALLBACK_TRANSITION {
            counters.fallbacks = bump(counters.fallbacks);
            self.compute_into_next(db, input, d, symbol, scratch);
            TransitionOutcome::Uncached
        } else {
            counters.hits = bump(counters.hits);
            if known == DEAD_TRANSITION {
                TransitionOutcome::Dead
            } else {
                TransitionOutcome::Cached(known)
            }
        }
    }

    /// Computes the target set of `d` on `symbol` into the scratch's `next`
    /// list, in index order.
    fn compute_into_next(
        &self,
        db: &PatternDatabase,
        input: &[u16],
        d: u32,
        symbol: u16,
        scratch: &mut crate::engine::Scratch,
    )
        requires
            db.well_formed(),
            self.valid(*db, input@),
            (d as int) < self.len_spec(),
            old(scratch).marks_ready(db.state_count_spec()),
        ensures
            final(scratch).marks_ready(db.state_count_spec()),
            final(scratch).best_end == old(scratch).best_end,
            final(scratch).active == old(scratch).active,
            final(scratch).next@.to_set() == closure(*db, input@, None, consumed(*db, self.set_of(d as int), symbol)),
            states_in_range(final(scratch).next@, db.state_count_spec()),
    {
        proof {
            assert(self.states@[d as int].shape_ok(db.state_count_spec()));
        }
        let generation = scratch.fresh_generation();
        scratch.next.clear();
        proof {
            assert(marked(scratch.marks@, generation) =~= Set::<StateId>::empty());
        }
        compute_transition(
            db,
            input,
            None,
            self.states[d as usize].nfa_states.as_slice(),
            symbol,
            &mut scratch.next,
            &mut scratch.marks,
            generation,
            &mut scratch.stack,
        );
        scratch.next = canonical_states(&scratch.marks, generation);
        proof {
            assert forall|i: int| 0 <= i < scratch.marks@.len() implies #[trigger] scratch.marks@[i] <= scratch.generation by {}
        }
    }

    fn set_state_transition(
        &mut self,
        db: &PatternDatabase,
        Ghost(input): Ghost<Seq<u16>>,
        d: u32,
        symbol: u16,
        transition: u32,
    )
        requires
            old(self).valid(*db, input),
            (d as int) < old(self).len_spec(),
            old(self).states@[d as int].transition_spec(symbol) == UNKNOWN_TRANSITION,
            transition != UNKNOWN_TRANSITION,
            ({
                let target = closure(*db, input, None, consumed(*db, old(self).set_of(d as int), symbol));
                ||| transition == FALLBACK_TRANSITION
                ||| (transition == DEAD_TRANSITION && target == Set::<StateId>::empty())
                ||| ((transition as int) < old(self).len_spec() && old(self).set_of(transition as int) == target)
            }),
        ensures
            final(self).valid(*db, input),
            final(self).grows_from(old(self)),
            final(self).len_spec() == old(self).len_spec(),
            final(self).states@[d as int].transition_spec(symbol) == transition,
    {
        let ghost before = *self;
        proof {
            assert(self.states@[d as int].shape_ok(db.state_count_spec()));
        }
        self.states[d as usize].set_transition(symbol, transition);
        proof {
            assert forall|e: int| #![trigger self.list_of(e)] 0 <= e < self.states@.len() implies self.list_of(e) == before.list_of(e) by {
                if e != d {
                    assert(self.states@[e] == before.states@[e]);
                }
            }
            assert(self.indexed()) by {
                assert forall|e: int|
                    #![trigger self.list_of(e)]
                    0 <= e < self.states@.len() implies {
                    &&& self.hash_buckets@.contains_key(state_list_hash(self.list_of(e)))
                    &&& self.hash_buckets@[state_list_hash(self.list_of(e))]@.contains(e as u32)
                } by {
                    assert(before.list_of(e) == self.list_of(e));
                }
            }
            assert forall|e: int| 0 <= e < self.states@.len() && e != d implies #[trigger] self.states@[e] == before.states@[e] by {}
            assert(self.set_of(d as int) == before.set_of(d as int));
            assert forall|e: int| 0 <= e < before.states@.len() implies #[trigger] self.set_of(e) == before.set_of(e) by {
                if e != d {
                    assert(self.states@[e] == before.states@[e]);
                }
            }
            assert forall|e: int| 0 <= e < self.states@.len() implies (#[trigger] self.states@[e]).shape_ok(
                db.state_count_spec(),
            ) by {
                if e != d {
                    assert(self.states@[e] == before.states@[e]);
                } else {
                    assert(before.states@[e].shape_ok(db.state_count_spec()));
                }
            }
            assert forall|e: int, o: int|
                0 <= e < self.states@.len() && 0 <= o < db.pattern_table().len() implies (
                #[trigger] self.states@[e].terminals_spec().contains(o as usize) <==> accepts(
                    *db,
                    self.set_of(e),
                    o,
                )) by {
                if e != d {
                    assert(self.states@[e] == before.states@[e]);
                } else {
                    assert(self.states@[e].terminals_spec() == before.states@[e].terminals_spec());
                    assert(before.states@[e].terminals_spec().contains(o as usize) <==> accepts(*db, before.set_of(e), o));
                }
            }
            assert forall|e: int, k: int|
                0 <= e < self.states@.len() && 0 <= k < self.states@[e].terminals_spec().len() implies (
                #[trigger] self.states@[e].terminals_spec()[k] as int) < db.pattern_table().len() by {
                if e != d {
                    assert(self.states@[e] == before.states@[e]);
                } else {
                    assert(self.states@[e].terminals_spec() == before.states@[e].terminals_spec());
                }
            }
            assert forall|e: int, c: u16| 0 <= e < self.states@.len() implies #[trigger] self.transition_valid(*db, input, e, c) by {
                assert(before.transition_valid(*db, input, e, c));
                if e != d {
                    assert(self.states@[e] == before.states@[e]);
                } else if c != symbol {
                    assert(self.states@[e].transition_spec(c) == before.states@[e].transition_spec(c));
                }
            }
        }
    }
}

/// The transition recorded first for `symbol`, or unknown.
pub open spec fn first_entry(entries: Seq<(u16, u32)>, symbol: u16) -> u32
    decreases entries.len(),
{
    if entries.len() == 0 {
        UNKNOWN_TRANSITION
    } else if entries[0].0 == symbol {
        entries[0].1
    } else {
        first_entry(entries.drop_first(), symbol)
    }
}

proof fn lemma_first_entry_absent(entries: Seq<(u16, u32)>, symbol: u16)
    requires
        first_entry(entries, symbol) == UNKNOWN_TRANSITION,
        forall|i: int| 0 <= i < entries.len() ==> (#[trigger] entries[i]).1 != UNKNOWN_TRANSITION,
    ensures
        forall|i: int| 0 <= i < entries.len() ==> (#[trigger] entries[i]).0 != symbol,
    decreases entries.len(),
{
    if entries.len() > 0 {
        let rest = entries.drop_first();
        assert forall|i: int| 0 <= i < rest.len() implies (#[trigger] rest[i]).1 != UNKNOWN_TRANSITION by {
            assert(rest[i] == entries[i + 1]);
        }
        lemma_first_entry_absent(rest, symbol);
        assert forall|i: int| 0 <= i < entries.len() implies (#[trigger] entries[i]).0 != symbol by {
            if i > 0 {
                assert(entries[i] == rest[i - 1]);
            }
        }
    }
}

proof fn lemma_first_entry_push(entries: Seq<(u16, u32)>, symbol: u16, transition: u32, c: u16)
    requires
        forall|i: int| 0 <= i < entries.len() ==> (#[trigger] entries[i]).0 != symbol,
    ensures
        c == symbol ==> first_entry(entries.push((symbol, transition)), c) == transition,
        c != symbol ==> first_entry(entries.push((symbol, transition)), c) == first_entry(entries, c),
    decreases entries.len(),
{
    let pushed = entries.push((symbol, transition));
    if entries.len() == 0 {
        assert(pushed.drop_first() =~= Seq::<(u16, u32)>::empty());
        assert(pushed[0] == (symbol, transition));
        assert(first_entry(pushed.drop_first(), c) == UNKNOWN_TRANSITION);
    } else {
        let rest = entries.drop_first();
        assert(pushed.drop_first() =~= rest.push((symbol, transition)));
        assert forall|i: int| 0 <= i < rest.len() implies (#[trigger] rest[i]).0 != symbol by {
            assert(rest[i] == entries[i + 1]);
        }
        assert(entries[0].0 != symbol);
        assert(pushed[0] == entries[0]);
        lemma_first_entry_push(rest, symbol, transition, c);
        assert(first_entry(pushed.drop_first(), c) == first_entry(rest.push((symbol, transition)), c));
    }
}

} // verus!
