//! What a scan reports, stated over the compiled automaton.
//!
//! For one start position the automaton's active set begins as the
//! zero-width closure of the root, and each consumed code unit moves it to
//! the closure of the targets of the edges that accept the unit. A pattern
//! matches from the start to every position at which the active set holds
//! one of its terminal states; the scan reports the longest such match.
use vstd::prelude::*;

use crate::hir::Assertion;
use crate::nfa::{EdgeKind, PatternDatabase, StateId};
use crate::predicate::is_ascii_word_spec;

verus! {

/// An ASCII word unit occurs at `index`.
pub open spec fn word_at(input: Seq<u16>, index: int) -> bool {
    0 <= index < input.len() && is_ascii_word_spec(input[index])
}

/// Exactly one side of `position` is an ASCII word unit.
pub open spec fn is_word_boundary_spec(input: Seq<u16>, position: int) -> bool {
    word_at(input, position - 1) != word_at(input, position)
}

/// Whether `assertion` holds at `position`; `after_current` tells whether the
/// closure is taken after a unit was consumed rather than at a scan start.
pub open spec fn assertion_holds(
    assertion: Assertion,
    input: Seq<u16>,
    position: int,
    after_current: bool,
) -> bool {
    match assertion {
        Assertion::LineStart => position == 0 || (0 <= position - 1 < input.len() && input[position
            - 1] == 0x0a),
        Assertion::LineEnd => after_current && (position == input.len() || (0 <= position
            < input.len() && input[position] == 0x0a)),
        Assertion::WordBoundary => is_word_boundary_spec(input, position),
        Assertion::NonWordBoundary => !is_word_boundary_spec(input, position),
    }
}

/// Whether an edge of `kind` is followed without consuming input. Without a
/// context only epsilon edges are followed.
pub open spec fn follows(kind: EdgeKind, input: Seq<u16>, context: Option<(int, bool)>) -> bool {
    match kind {
        EdgeKind::Epsilon => true,
        EdgeKind::Assertion(a) => match context {
            Some((position, after)) => assertion_holds(a, input, position, after),
            None => false,
        },
        _ => false,
    }
}

/// A zero-width edge leads from `s` to `t`.
pub open spec fn zero_width_edge(
    db: PatternDatabase,
    input: Seq<u16>,
    context: Option<(int, bool)>,
    s: StateId,
    t: StateId,
) -> bool {
    exists|j: int|
        0 <= j < db.edge_table()[s.0 as int].len() && (#[trigger] db.edge_table()[s.0 as int][j]).target
            == t && follows(db.edge_table()[s.0 as int][j].kind, input, context)
}

/// `path` follows zero-width edges only.
pub open spec fn is_zero_width_path(
    db: PatternDatabase,
    input: Seq<u16>,
    context: Option<(int, bool)>,
    path: Seq<StateId>,
) -> bool {
    &&& path.len() >= 1
    &&& forall|i: int|
        0 <= i < path.len() - 1 ==> #[trigger] zero_width_edge(db, input, context, path[i], path[i + 1])
}

/// `t` is reachable from a seed through zero-width edges.
pub open spec fn reachable(
    db: PatternDatabase,
    input: Seq<u16>,
    context: Option<(int, bool)>,
    seeds: Set<StateId>,
    t: StateId,
) -> bool {
    exists|path: Seq<StateId>|
        #[trigger] is_zero_width_path(db, input, context, path) && seeds.contains(path[0])
            && path.last() == t
}

/// The zero-width closure of `seeds`.
pub open spec fn closure(
    db: PatternDatabase,
    input: Seq<u16>,
    context: Option<(int, bool)>,
    seeds: Set<StateId>,
) -> Set<StateId> {
    Set::new(|t: StateId| reachable(db, input, context, seeds, t))
}

/// `m` holds every zero-width successor of its members.
pub open spec fn closed_under(
    db: PatternDatabase,
    input: Seq<u16>,
    context: Option<(int, bool)>,
    m: Set<StateId>,
) -> bool {
    forall|s: StateId, t: StateId|
        #![trigger m.contains(s), zero_width_edge(db, input, context, s, t)]
        m.contains(s) && zero_width_edge(db, input, context, s, t) ==> m.contains(t)
}

/// An edge out of `active` consumes `symbol` and leads to `t`.
pub open spec fn consumes(db: PatternDatabase, active: Set<StateId>, symbol: u16, t: StateId) -> bool {
    exists|s: StateId, j: int|
        #![trigger active.contains(s), db.edge_table()[s.0 as int][j]]
        active.contains(s) && 0 <= j < db.edge_table()[s.0 as int].len()
            && db.edge_table()[s.0 as int][j].target == t && db.edge_matches_spec(
            db.edge_table()[s.0 as int][j].kind,
            symbol,
        )
}

/// Targets of the edges out of `active` that consume `symbol`.
pub open spec fn consumed(db: PatternDatabase, active: Set<StateId>, symbol: u16) -> Set<StateId> {
    Set::new(|t: StateId| consumes(db, active, symbol, t))
}

/// Context for the closure taken at scan start `start`.
pub open spec fn context_before(db: PatternDatabase, start: int) -> Option<(int, bool)> {
    if db.uses_assertions_spec() {
        Some((start, false))
    } else {
        None
    }
}

/// Context for the closure taken after consuming the unit before `position`.
pub open spec fn context_after(db: PatternDatabase, position: int) -> Option<(int, bool)> {
    if db.uses_assertions_spec() {
        Some((position, true))
    } else {
        None
    }
}

/// The active set after `k` units consumed from `start`.
pub open spec fn active_set(db: PatternDatabase, input: Seq<u16>, start: int, k: nat) -> Set<StateId>
    decreases k,
{
    if k == 0 {
        closure(db, input, context_before(db, start), set![db.root_spec()])
    } else {
        closure(
            db,
            input,
            context_after(db, start + k),
            consumed(db, active_set(db, input, start, (k - 1) as nat), input[start + k - 1]),
        )
    }
}

/// Some member of `set` accepts pattern `ordinal`.
pub open spec fn accepts(db: PatternDatabase, set: Set<StateId>, ordinal: int) -> bool {
    exists|s: StateId| set.contains(s) && #[trigger] db.terminal_table()[s.0 as int].contains(
        ordinal as usize,
    )
}

/// The end of the longest match of `ordinal` from `start` that consumes
/// between one and `k` units.
pub open spec fn longest_end(
    db: PatternDatabase,
    input: Seq<u16>,
    start: int,
    ordinal: int,
    k: nat,
) -> Option<int>
    decreases k,
{
    if k == 0 {
        None
    } else if accepts(db, active_set(db, input, start, k), ordinal) {
        Some(start + k)
    } else {
        longest_end(db, input, start, ordinal, (k - 1) as nat)
    }
}

/// The longest match of `ordinal` that starts at `start`.
pub open spec fn longest_match(db: PatternDatabase, input: Seq<u16>, start: int, ordinal: int) -> Option<
    int,
> {
    longest_end(db, input, start, ordinal, (input.len() - start) as nat)
}

/// Events for one start: registration order, one per pattern that matches.
pub open spec fn start_events(db: PatternDatabase, input: Seq<u16>, start: int, n: nat) -> Seq<
    (u32, u64, u64),
>
    decreases n,
{
    if n == 0 {
        seq![]
    } else {
        start_events(db, input, start, (n - 1) as nat) + match longest_match(
            db,
            input,
            start,
            n - 1,
        ) {
            Some(end) => seq![(db.pattern_table()[n - 1]@, start as u64, end as u64)],
            None => seq![],
        }
    }
}

/// Events for every start of `starts`, in order.
pub open spec fn scan_events(db: PatternDatabase, input: Seq<u16>, starts: Seq<int>) -> Seq<
    (u32, u64, u64),
>
    decreases starts.len(),
{
    if starts.len() == 0 {
        seq![]
    } else {
        scan_events(db, input, starts.drop_last()) + start_events(
            db,
            input,
            starts.last(),
            db.pattern_table().len(),
        )
    }
}

/// The start positions `0..n`.
pub open spec fn all_starts(n: int) -> Seq<int> {
    Seq::new(n as nat, |i: int| i)
}

/// Everything a full scan of `input` reports.
pub open spec fn expected_events(db: PatternDatabase, input: Seq<u16>) -> Seq<(u32, u64, u64)> {
    scan_events(db, input, all_starts(input.len() as int))
}

/// A closure holds its seeds and is closed.
pub proof fn lemma_closure_closed(
    db: PatternDatabase,
    input: Seq<u16>,
    context: Option<(int, bool)>,
    seeds: Set<StateId>,
)
    ensures
        closed_under(db, input, context, closure(db, input, context, seeds)),
        seeds.subset_of(closure(db, input, context, seeds)),
{
    let c = closure(db, input, context, seeds);
    assert forall|s: StateId, t: StateId|
        #![trigger c.contains(s), zero_width_edge(db, input, context, s, t)]
        c.contains(s) && zero_width_edge(db, input, context, s, t) implies c.contains(t) by {
        let path = choose|path: Seq<StateId>|
            #[trigger] is_zero_width_path(db, input, context, path) && seeds.contains(path[0])
                && path.last() == s;
        let longer = path.push(t);
        assert forall|i: int| 0 <= i < longer.len() - 1 implies #[trigger] zero_width_edge(
            db,
            input,
            context,
            longer[i],
            longer[i + 1],
        ) by {
            if i < path.len() - 1 {
                assert(longer[i] == path[i] && longer[i + 1] == path[i + 1]);
            }
        }
        assert(is_zero_width_path(db, input, context, longer));
    }
    assert forall|s: StateId| seeds.contains(s) implies c.contains(s) by {
        let path = seq![s];
        assert(is_zero_width_path(db, input, context, path));
    }
}

/// A closed superset of the seeds holds their whole closure.
pub proof fn lemma_closure_least(
    db: PatternDatabase,
    input: Seq<u16>,
    context: Option<(int, bool)>,
    seeds: Set<StateId>,
    m: Set<StateId>,
)
    requires
        seeds.subset_of(m),
        closed_under(db, input, context, m),
    ensures
        closure(db, input, context, seeds).subset_of(m),
{
    assert forall|t: StateId| closure(db, input, context, seeds).contains(t) implies m.contains(t) by {
        let path = choose|path: Seq<StateId>|
            #[trigger] is_zero_width_path(db, input, context, path) && seeds.contains(path[0])
                && path.last() == t;
        lemma_path_stays(db, input, context, path, m, path.len() - 1);
    }
}

proof fn lemma_path_stays(
    db: PatternDatabase,
    input: Seq<u16>,
    context: Option<(int, bool)>,
    path: Seq<StateId>,
    m: Set<StateId>,
    i: int,
)
    requires
        is_zero_width_path(db, input, context, path),
        m.contains(path[0]),
        closed_under(db, input, context, m),
        0 <= i < path.len(),
    ensures
        m.contains(path[i]),
    decreases i,
{
    if i > 0 {
        lemma_path_stays(db, input, context, path, m, i - 1);
        let j = i - 1;
        assert(zero_width_edge(db, input, context, path[j], path[j + 1]));
        assert(j + 1 == i);
    }
}

/// The closure of nothing is empty.
pub proof fn lemma_closure_empty(db: PatternDatabase, input: Seq<u16>, context: Option<(int, bool)>)
    ensures
        closure(db, input, context, Set::empty()) == Set::<StateId>::empty(),
{
    assert(closure(db, input, context, Set::empty()) =~= Set::<StateId>::empty());
}

/// Nothing is consumed from an empty set.
pub proof fn lemma_consumed_empty(db: PatternDatabase, symbol: u16)
    ensures
        consumed(db, Set::empty(), symbol) == Set::<StateId>::empty(),
{
    assert(consumed(db, Set::empty(), symbol) =~= Set::<StateId>::empty());
}

/// Once the active set is empty it stays empty, and the longest match stops
/// growing.
pub proof fn lemma_dead_stays_dead(
    db: PatternDatabase,
    input: Seq<u16>,
    start: int,
    ordinal: int,
    k: nat,
    later: nat,
)
    requires
        active_set(db, input, start, k) == Set::<StateId>::empty(),
        k <= later,
    ensures
        active_set(db, input, start, later) == Set::<StateId>::empty(),
        longest_end(db, input, start, ordinal, later) == longest_end(db, input, start, ordinal, k),
    decreases later - k,
{
    if later > k {
        lemma_dead_stays_dead(db, input, start, ordinal, k, (later - 1) as nat);
        lemma_consumed_empty(db, input[start + later - 1]);
        lemma_closure_empty(db, input, context_after(db, start + later));
        assert(!accepts(db, active_set(db, input, start, later), ordinal));
    }
}

/// A longest match consumes at least one and at most `k` units.
pub proof fn lemma_longest_end_bounds(
    db: PatternDatabase,
    input: Seq<u16>,
    start: int,
    ordinal: int,
    k: nat,
)
    ensures
        longest_end(db, input, start, ordinal, k) matches Some(e) ==> start < e <= start + k,
    decreases k,
{
    if k > 0 {
        lemma_longest_end_bounds(db, input, start, ordinal, (k - 1) as nat);
    }
}

/// Without assertion edges, a closure does not read the input.
pub proof fn lemma_closure_input_free(
    db: PatternDatabase,
    a: Seq<u16>,
    b: Seq<u16>,
    seeds: Set<StateId>,
)
    ensures
        closure(db, a, None, seeds) == closure(db, b, None, seeds),
{
    assert forall|path: Seq<StateId>| is_zero_width_path(db, a, None, path) implies is_zero_width_path(db, b, None, path) by {
        assert forall|i: int| 0 <= i < path.len() - 1 implies #[trigger] zero_width_edge(db, b, None, path[i], path[i + 1]) by {
            assert(zero_width_edge(db, a, None, path[i], path[i + 1]));
            let j = choose|j: int|
                0 <= j < db.edge_table()[path[i].0 as int].len() && (#[trigger] db.edge_table()[path[i].0 as int][j]).target
                    == path[i + 1] && follows(db.edge_table()[path[i].0 as int][j].kind, a, None);
            assert(follows(db.edge_table()[path[i].0 as int][j].kind, b, None));
        }
    }
    assert forall|path: Seq<StateId>| is_zero_width_path(db, b, None, path) implies is_zero_width_path(db, a, None, path) by {
        assert forall|i: int| 0 <= i < path.len() - 1 implies #[trigger] zero_width_edge(db, a, None, path[i], path[i + 1]) by {
            assert(zero_width_edge(db, b, None, path[i], path[i + 1]));
            let j = choose|j: int|
                0 <= j < db.edge_table()[path[i].0 as int].len() && (#[trigger] db.edge_table()[path[i].0 as int][j]).target
                    == path[i + 1] && follows(db.edge_table()[path[i].0 as int][j].kind, b, None);
            assert(follows(db.edge_table()[path[i].0 as int][j].kind, a, None));
        }
    }
    assert(closure(db, a, None, seeds) =~= closure(db, b, None, seeds));
}

/// Every event of `events` is a non-empty span that ends within the first
/// `n` units.
pub open spec fn spans_within(events: Seq<(u32, u64, u64)>, n: int) -> bool {
    forall|i: int| 0 <= i < events.len() ==> (#[trigger] events[i]).1 < events[i].2 && events[i].2 <= n
}

/// A longest end lies after its start, at most `k` units on.
pub proof fn lemma_longest_end_range(db: PatternDatabase, input: Seq<u16>, start: int, ordinal: int, k: nat)
    ensures
        longest_end(db, input, start, ordinal, k) matches Some(e) ==> start < e <= start + k,
    decreases k,
{
    if k > 0 {
        lemma_longest_end_range(db, input, start, ordinal, (k - 1) as nat);
    }
}

/// The events at one start inside the input are non-empty spans inside it.
pub proof fn lemma_start_events_within(db: PatternDatabase, input: Seq<u16>, start: int, n: nat)
    requires
        0 <= start < input.len() <= u64::MAX,
    ensures
        spans_within(start_events(db, input, start, n), input.len() as int),
    decreases n,
{
    if n > 0 {
        lemma_start_events_within(db, input, start, (n - 1) as nat);
        lemma_longest_end_range(db, input, start, n - 1, (input.len() - start) as nat);
        let head = start_events(db, input, start, (n - 1) as nat);
        let all = start_events(db, input, start, n);
        assert forall|i: int| 0 <= i < all.len() implies (#[trigger] all[i]).1 < all[i].2 && all[i].2 <= input.len() by {
            if i < head.len() {
                assert(all[i] == head[i]);
            }
        }
    }
}

/// The events at starts inside the input are non-empty spans inside it.
pub proof fn lemma_scan_events_within(db: PatternDatabase, input: Seq<u16>, starts: Seq<int>)
    requires
        input.len() <= u64::MAX,
        forall|k: int| 0 <= k < starts.len() ==> 0 <= #[trigger] starts[k] < input.len(),
    ensures
        spans_within(scan_events(db, input, starts), input.len() as int),
    decreases starts.len(),
{
    if starts.len() > 0 {
        let rest = starts.drop_last();
        assert forall|k: int| 0 <= k < rest.len() implies 0 <= #[trigger] rest[k] < input.len() by {
            assert(rest[k] == starts[k]);
        }
        lemma_scan_events_within(db, input, rest);
        lemma_start_events_within(db, input, starts.last(), db.pattern_table().len());
        let head = scan_events(db, input, rest);
        let tail = start_events(db, input, starts.last(), db.pattern_table().len());
        let all = scan_events(db, input, starts);
        assert(all == head + tail);
        assert forall|i: int| 0 <= i < all.len() implies (#[trigger] all[i]).1 < all[i].2 && all[i].2 <= input.len() by {
            if i < head.len() {
                assert(all[i] == head[i]);
            } else {
                assert(all[i] == tail[i - head.len()]);
            }
        }
    }
}

} // verus!
