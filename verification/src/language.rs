//! What an expression matches, and runs through an automaton's edge table.
//!
//! `matches_spec` is the language of a normalized expression over UTF-16
//! code units. A run is a path of (state, position) pairs in which every
//! step follows one edge: zero-width edges keep the position and consuming
//! edges advance it by one unit they accept. The compiler's contract says
//! that every match of an expression is the trace of a run between the
//! states it was compiled between.
use vstd::prelude::*;

use crate::hir::Hir;
use crate::nfa::{
    assertion_free, chain_base, chain_edge, chain_node, edges_valid, literal_shape, reports_matches, Edge,
    EdgeKind, PatternDatabase, StateId,
};
use crate::case_fold::{simple_lower, simple_upper};
use crate::parser::{
    class_admits, class_inverted, class_listed, is_escaped_literal, is_literal_atom, is_literal_hir,
    is_plain, is_shorthand, is_simple_atom_start, literal_atoms, shorthand_member, simple_atom, spells_literal,
    symbols,
};
use crate::predicate::SymbolPredicate;
use crate::semantics::{
    accepts, active_set, assertion_holds, closed_under, closure, consumed, consumes,
    context_after, context_before, expected_events, is_zero_width_path, lemma_closure_closed,
    lemma_longest_end_bounds, longest_end, longest_match, all_starts, reachable, scan_events,
    start_events, zero_width_edge,
};

verus! {

/// `h` matches `input[i..j]` in a scan that began at `origin`. An assertion
/// at position `p` is read as the scan reads it: `p > origin` tells whether
/// a unit has been consumed since the scan began.
///
/// A repetition matches when some admitted number of copies does. Without
/// an upper bound, `min + (j - i)` copies are enough: a copy beyond the
/// first `min` that consumes nothing can be dropped.
pub open spec fn matches_spec(h: Hir, input: Seq<u16>, origin: int, i: int, j: int) -> bool
    decreases h, 0nat, 3nat, 0int,
{
    match h {
        Hir::Never => false,
        Hir::Epsilon => j == i,
        Hir::Assertion(a) => j == i && assertion_holds(a, input, i, i > origin),
        Hir::Symbol(c) => j == i + 1 && 0 <= i < input.len() && input[i] == c,
        Hir::Predicate(p) => j == i + 1 && 0 <= i < input.len() && p.contains(input[i]),
        Hir::Sequence(v) => sequence_matches(v@, input, origin, i, j),
        Hir::Alternation(v) => alternation_matches(v@, input, origin, i, j),
        Hir::Repeat { expression, min, max } => {
            let most = match max {
                Some(limit) => limit as int,
                None => min + (j - i),
            };
            most >= min && repeat_between(*expression, min as nat, most as nat, input, origin, i, j)
        },
    }
}

/// The items of `s`, one after another, match `input[i..j]`.
pub open spec fn sequence_matches(s: Seq<Hir>, input: Seq<u16>, origin: int, i: int, j: int) -> bool
    decreases s, 0nat, 1nat, 0int,
{
    if s.len() == 0 {
        i == j
    } else {
        sequence_split(s, input, origin, i, j, i)
    }
}

/// For some split `m` with `k <= m <= j`, the items of `s` but its last
/// match `input[i..m]` and its last item matches `input[m..j]`.
pub open spec fn sequence_split(s: Seq<Hir>, input: Seq<u16>, origin: int, i: int, j: int, k: int) -> bool
    decreases s, 0nat, 0nat, j - k,
{
    if s.len() == 0 || k > j {
        false
    } else {
        (sequence_matches(s.drop_last(), input, origin, i, k) && matches_spec(
            s.last(),
            input,
            origin,
            k,
            j,
        )) || (k < j && sequence_split(s, input, origin, i, j, k + 1))
    }
}

/// Some branch of `s` matches `input[i..j]`.
pub open spec fn alternation_matches(s: Seq<Hir>, input: Seq<u16>, origin: int, i: int, j: int) -> bool
    decreases s, 0nat, 1nat, 0int,
{
    if s.len() == 0 {
        false
    } else {
        alternation_matches(s.drop_last(), input, origin, i, j) || matches_spec(
            s.last(),
            input,
            origin,
            i,
            j,
        )
    }
}

/// Some number of copies of `e` between `lo` and `n` matches `input[i..j]`.
pub open spec fn repeat_between(e: Hir, lo: nat, n: nat, input: Seq<u16>, origin: int, i: int, j: int) -> bool
    decreases e, n, 2nat, 0int,
{
    (lo <= n && repeat_matches(e, n, input, origin, i, j)) || (lo < n && repeat_between(
        e,
        lo,
        (n - 1) as nat,
        input,
        origin,
        i,
        j,
    ))
}

/// `n` copies of `e`, one after another, match `input[i..j]`.
pub open spec fn repeat_matches(e: Hir, n: nat, input: Seq<u16>, origin: int, i: int, j: int) -> bool
    decreases e, n, 1nat, 0int,
{
    if n == 0 {
        i == j
    } else {
        repeat_split(e, n, input, origin, i, j, i)
    }
}

/// For some split `m` with `k <= m <= j`, `n - 1` copies of `e` match
/// `input[i..m]` and one more matches `input[m..j]`.
pub open spec fn repeat_split(e: Hir, n: nat, input: Seq<u16>, origin: int, i: int, j: int, k: int) -> bool
    decreases e, n, 0nat, j - k,
{
    if n == 0 || k > j {
        false
    } else {
        (repeat_matches(e, (n - 1) as nat, input, origin, i, k) && matches_spec(e, input, origin, k, j))
            || (k < j && repeat_split(e, n, input, origin, i, j, k + 1))
    }
}

/// Every sequence in `h` has at least one item. Normalization never leaves
/// an empty sequence (it becomes `Epsilon`), and the compiler gives one no
/// path.
pub open spec fn sequences_nonempty(h: Hir) -> bool
    decreases h,
{
    match h {
        Hir::Sequence(v) => v@.len() > 0 && all_sequences_nonempty(v@),
        Hir::Alternation(v) => all_sequences_nonempty(v@),
        Hir::Repeat { expression, .. } => sequences_nonempty(*expression),
        _ => true,
    }
}

/// Every expression of `s` has only non-empty sequences.
pub open spec fn all_sequences_nonempty(s: Seq<Hir>) -> bool
    decreases s,
{
    if s.len() == 0 {
        true
    } else {
        all_sequences_nonempty(s.drop_last()) && sequences_nonempty(s.last())
    }
}

/// Each item of a list with only non-empty sequences has only non-empty
/// sequences.
pub proof fn lemma_all_sequences_nonempty(s: Seq<Hir>, k: int)
    requires
        all_sequences_nonempty(s),
        0 <= k < s.len(),
    ensures
        sequences_nonempty(s[k]),
    decreases s.len(),
{
    if k < s.len() - 1 {
        lemma_all_sequences_nonempty(s.drop_last(), k);
        assert(s.drop_last()[k] == s[k]);
    }
}

/// The split that a sequence match goes through.
pub proof fn sequence_split_point(s: Seq<Hir>, input: Seq<u16>, origin: int, i: int, j: int, k: int) -> (m: int)
    requires
        sequence_split(s, input, origin, i, j, k),
    ensures
        k <= m <= j,
        sequence_matches(s.drop_last(), input, origin, i, m),
        matches_spec(s.last(), input, origin, m, j),
    decreases j - k,
{
    if sequence_matches(s.drop_last(), input, origin, i, k) && matches_spec(s.last(), input, origin, k, j) {
        k
    } else {
        sequence_split_point(s, input, origin, i, j, k + 1)
    }
}

/// The split that a repetition match goes through.
pub proof fn repeat_split_point(e: Hir, n: nat, input: Seq<u16>, origin: int, i: int, j: int, k: int) -> (m: int)
    requires
        repeat_split(e, n, input, origin, i, j, k),
    ensures
        n > 0,
        k <= m <= j,
        repeat_matches(e, (n - 1) as nat, input, origin, i, m),
        matches_spec(e, input, origin, m, j),
    decreases j - k,
{
    if repeat_matches(e, (n - 1) as nat, input, origin, i, k) && matches_spec(e, input, origin, k, j) {
        k
    } else {
        repeat_split_point(e, n, input, origin, i, j, k + 1)
    }
}

/// The number of copies that a bounded repetition match uses.
pub proof fn repeat_count(e: Hir, lo: nat, n: nat, input: Seq<u16>, origin: int, i: int, j: int) -> (c: nat)
    requires
        repeat_between(e, lo, n, input, origin, i, j),
    ensures
        lo <= c <= n,
        repeat_matches(e, c, input, origin, i, j),
    decreases n,
{
    if lo <= n && repeat_matches(e, n, input, origin, i, j) {
        n
    } else {
        repeat_count(e, lo, (n - 1) as nat, input, origin, i, j)
    }
}

/// Whether an edge of `kind` leads from position `i` to position `j`.
pub open spec fn step_kind(
    kind: EdgeKind,
    predicates: Seq<SymbolPredicate>,
    input: Seq<u16>,
    origin: int,
    i: int,
    j: int,
) -> bool {
    match kind {
        EdgeKind::Epsilon => j == i,
        EdgeKind::Assertion(a) => j == i && assertion_holds(a, input, i, i > origin),
        EdgeKind::Symbol(c) => j == i + 1 && 0 <= i < input.len() && input[i] == c,
        EdgeKind::Predicate(p) => j == i + 1 && 0 <= i < input.len() && (p.0 as int)
            < predicates.len() && predicates[p.0 as int].contains(input[i]),
    }
}

/// One edge of `edges` leads from `from` to `to`, each a (state, position)
/// pair.
pub open spec fn edge_step(
    edges: Seq<Seq<Edge>>,
    predicates: Seq<SymbolPredicate>,
    input: Seq<u16>,
    origin: int,
    from: (int, int),
    to: (int, int),
) -> bool {
    &&& 0 <= from.0 < edges.len()
    &&& exists|e: int|
        #![trigger edges[from.0][e]]
        0 <= e < edges[from.0].len() && edges[from.0][e].target.0 == to.0 && step_kind(
            edges[from.0][e].kind,
            predicates,
            input,
            origin,
            from.1,
            to.1,
        )
}

/// Every step of `path` follows an edge.
pub open spec fn is_run(
    edges: Seq<Seq<Edge>>,
    predicates: Seq<SymbolPredicate>,
    input: Seq<u16>,
    origin: int,
    path: Seq<(int, int)>,
) -> bool {
    &&& path.len() >= 1
    &&& forall|k: int|
        0 <= k < path.len() - 1 ==> #[trigger] edge_step(
            edges,
            predicates,
            input,
            origin,
            path[k],
            path[k + 1],
        )
}

/// A run leads from state `s` at position `i` to state `t` at position `j`.
pub open spec fn reaches(
    edges: Seq<Seq<Edge>>,
    predicates: Seq<SymbolPredicate>,
    input: Seq<u16>,
    origin: int,
    s: int,
    i: int,
    t: int,
    j: int,
) -> bool {
    exists|path: Seq<(int, int)>|
        #[trigger] is_run(edges, predicates, input, origin, path) && path[0] == (s, i) && path.last()
            == (t, j)
}

/// Every match of `h` is traced by a run from `s` to `t`.
pub open spec fn covers(
    edges: Seq<Seq<Edge>>,
    predicates: Seq<SymbolPredicate>,
    h: Hir,
    s: int,
    t: int,
) -> bool {
    forall|input: Seq<u16>, origin: int, i: int, j: int|
        #[trigger] matches_spec(h, input, origin, i, j) ==> reaches(
            edges,
            predicates,
            input,
            origin,
            s,
            i,
            t,
            j,
        )
}

/// Every match of the items of `items`, in order, is traced by a run from
/// `s` to `t`.
pub open spec fn sequence_covers(
    edges: Seq<Seq<Edge>>,
    predicates: Seq<SymbolPredicate>,
    items: Seq<Hir>,
    s: int,
    t: int,
) -> bool {
    forall|input: Seq<u16>, origin: int, i: int, j: int|
        #[trigger] sequence_matches(items, input, origin, i, j) ==> reaches(
            edges,
            predicates,
            input,
            origin,
            s,
            i,
            t,
            j,
        )
}

/// Every match of a branch of `branches` is traced by a run from `s` to `t`.
pub open spec fn alternation_covers(
    edges: Seq<Seq<Edge>>,
    predicates: Seq<SymbolPredicate>,
    branches: Seq<Hir>,
    s: int,
    t: int,
) -> bool {
    forall|input: Seq<u16>, origin: int, i: int, j: int|
        #[trigger] alternation_matches(branches, input, origin, i, j) ==> reaches(
            edges,
            predicates,
            input,
            origin,
            s,
            i,
            t,
            j,
        )
}

/// Every match of `n` copies of `e` is traced by a run from `s` to `t`.
pub open spec fn repeat_covers(
    edges: Seq<Seq<Edge>>,
    predicates: Seq<SymbolPredicate>,
    e: Hir,
    n: nat,
    s: int,
    t: int,
) -> bool {
    forall|input: Seq<u16>, origin: int, i: int, j: int|
        #[trigger] repeat_matches(e, n, input, origin, i, j) ==> reaches(
            edges,
            predicates,
            input,
            origin,
            s,
            i,
            t,
            j,
        )
}

/// `later` holds every edge and predicate of `earlier`, at the same places.
pub open spec fn tables_extend(
    edges: Seq<Seq<Edge>>,
    predicates: Seq<SymbolPredicate>,
    later_edges: Seq<Seq<Edge>>,
    later_predicates: Seq<SymbolPredicate>,
) -> bool {
    &&& edges.len() <= later_edges.len()
    &&& forall|s: int|
        0 <= s < edges.len() ==> edges[s].len() <= (#[trigger] later_edges[s]).len()
            && later_edges[s].take(edges[s].len() as int) == edges[s]
    &&& predicates.len() <= later_predicates.len()
    &&& later_predicates.take(predicates.len() as int) == predicates
}

/// A run of length one stays where it is.
pub proof fn lemma_reaches_refl(
    edges: Seq<Seq<Edge>>,
    predicates: Seq<SymbolPredicate>,
    input: Seq<u16>,
    origin: int,
    s: int,
    i: int,
)
    ensures
        reaches(edges, predicates, input, origin, s, i, s, i),
{
    let path = seq![(s, i)];
    assert(is_run(edges, predicates, input, origin, path));
}

/// One edge is a run.
pub proof fn lemma_reaches_step(
    edges: Seq<Seq<Edge>>,
    predicates: Seq<SymbolPredicate>,
    input: Seq<u16>,
    origin: int,
    s: int,
    i: int,
    t: int,
    j: int,
)
    requires
        edge_step(edges, predicates, input, origin, (s, i), (t, j)),
    ensures
        reaches(edges, predicates, input, origin, s, i, t, j),
{
    let path = seq![(s, i), (t, j)];
    assert forall|k: int| 0 <= k < path.len() - 1 implies #[trigger] edge_step(
        edges,
        predicates,
        input,
        origin,
        path[k],
        path[k + 1],
    ) by {
        assert(k == 0);
    }
    assert(is_run(edges, predicates, input, origin, path));
}

/// Runs compose.
pub proof fn lemma_reaches_trans(
    edges: Seq<Seq<Edge>>,
    predicates: Seq<SymbolPredicate>,
    input: Seq<u16>,
    origin: int,
    s: int,
    i: int,
    m: int,
    k: int,
    t: int,
    j: int,
)
    requires
        reaches(edges, predicates, input, origin, s, i, m, k),
        reaches(edges, predicates, input, origin, m, k, t, j),
    ensures
        reaches(edges, predicates, input, origin, s, i, t, j),
{
    let first = choose|path: Seq<(int, int)>|
        #[trigger] is_run(edges, predicates, input, origin, path) && path[0] == (s, i) && path.last()
            == (m, k);
    let second = choose|path: Seq<(int, int)>|
        #[trigger] is_run(edges, predicates, input, origin, path) && path[0] == (m, k) && path.last()
            == (t, j);
    let joined = first + second.drop_first();
    let n = first.len() as int;
    assert forall|q: int| 0 <= q < joined.len() - 1 implies #[trigger] edge_step(
        edges,
        predicates,
        input,
        origin,
        joined[q],
        joined[q + 1],
    ) by {
        if q < n - 1 {
            assert(joined[q] == first[q] && joined[q + 1] == first[q + 1]);
        } else if q == n - 1 {
            assert(joined[q] == first[n - 1]);
            assert(joined[q + 1] == second[1]);
            assert(edge_step(edges, predicates, input, origin, second[0], second[1]));
        } else {
            assert(joined[q] == second[q - n + 1]);
            assert(joined[q + 1] == second[q - n + 2]);
            assert(edge_step(edges, predicates, input, origin, second[q - n + 1], second[q - n + 2]));
        }
    }
    if second.len() == 1 {
        assert(joined =~= first);
    } else {
        assert(joined.last() == second.last());
    }
    assert(is_run(edges, predicates, input, origin, joined));
}

/// A step survives when the tables grow.
pub proof fn lemma_edge_step_mono(
    edges: Seq<Seq<Edge>>,
    predicates: Seq<SymbolPredicate>,
    later_edges: Seq<Seq<Edge>>,
    later_predicates: Seq<SymbolPredicate>,
    input: Seq<u16>,
    origin: int,
    from: (int, int),
    to: (int, int),
)
    requires
        tables_extend(edges, predicates, later_edges, later_predicates),
        edge_step(edges, predicates, input, origin, from, to),
    ensures
        edge_step(later_edges, later_predicates, input, origin, from, to),
{
    let s = from.0;
    let e = choose|e: int|
        #![trigger edges[s][e]]
        0 <= e < edges[s].len() && edges[s][e].target.0 == to.0 && step_kind(
            edges[s][e].kind,
            predicates,
            input,
            origin,
            from.1,
            to.1,
        );
    assert(later_edges[s].take(edges[s].len() as int)[e] == edges[s][e]);
    assert(later_edges[s][e] == edges[s][e]);
    if let EdgeKind::Predicate(p) = edges[s][e].kind {
        assert(later_predicates.take(predicates.len() as int)[p.0 as int] == predicates[p.0 as int]);
    }
}

/// A run survives when the tables grow.
pub proof fn lemma_reaches_mono(
    edges: Seq<Seq<Edge>>,
    predicates: Seq<SymbolPredicate>,
    later_edges: Seq<Seq<Edge>>,
    later_predicates: Seq<SymbolPredicate>,
    input: Seq<u16>,
    origin: int,
    s: int,
    i: int,
    t: int,
    j: int,
)
    requires
        tables_extend(edges, predicates, later_edges, later_predicates),
        reaches(edges, predicates, input, origin, s, i, t, j),
    ensures
        reaches(later_edges, later_predicates, input, origin, s, i, t, j),
{
    let path = choose|path: Seq<(int, int)>|
        #[trigger] is_run(edges, predicates, input, origin, path) && path[0] == (s, i) && path.last()
            == (t, j);
    assert forall|k: int| 0 <= k < path.len() - 1 implies #[trigger] edge_step(
        later_edges,
        later_predicates,
        input,
        origin,
        path[k],
        path[k + 1],
    ) by {
        lemma_edge_step_mono(edges, predicates, later_edges, later_predicates, input, origin, path[k], path[k + 1]);
    }
    assert(is_run(later_edges, later_predicates, input, origin, path));
}

/// Coverage survives when the tables grow.
pub proof fn lemma_covers_mono(
    edges: Seq<Seq<Edge>>,
    predicates: Seq<SymbolPredicate>,
    later_edges: Seq<Seq<Edge>>,
    later_predicates: Seq<SymbolPredicate>,
    h: Hir,
    s: int,
    t: int,
)
    requires
        tables_extend(edges, predicates, later_edges, later_predicates),
        covers(edges, predicates, h, s, t),
    ensures
        covers(later_edges, later_predicates, h, s, t),
{
    assert forall|input: Seq<u16>, origin: int, i: int, j: int|
        #[trigger] matches_spec(h, input, origin, i, j) implies reaches(
        later_edges,
        later_predicates,
        input,
        origin,
        s,
        i,
        t,
        j,
    ) by {
        lemma_reaches_mono(edges, predicates, later_edges, later_predicates, input, origin, s, i, t, j);
    }
}

/// Sequence coverage survives when the tables grow.
pub proof fn lemma_sequence_covers_mono(
    edges: Seq<Seq<Edge>>,
    predicates: Seq<SymbolPredicate>,
    later_edges: Seq<Seq<Edge>>,
    later_predicates: Seq<SymbolPredicate>,
    items: Seq<Hir>,
    s: int,
    t: int,
)
    requires
        tables_extend(edges, predicates, later_edges, later_predicates),
        sequence_covers(edges, predicates, items, s, t),
    ensures
        sequence_covers(later_edges, later_predicates, items, s, t),
{
    assert forall|input: Seq<u16>, origin: int, i: int, j: int|
        #[trigger] sequence_matches(items, input, origin, i, j) implies reaches(
        later_edges,
        later_predicates,
        input,
        origin,
        s,
        i,
        t,
        j,
    ) by {
        lemma_reaches_mono(edges, predicates, later_edges, later_predicates, input, origin, s, i, t, j);
    }
}

/// Alternation coverage survives when the tables grow.
pub proof fn lemma_alternation_covers_mono(
    edges: Seq<Seq<Edge>>,
    predicates: Seq<SymbolPredicate>,
    later_edges: Seq<Seq<Edge>>,
    later_predicates: Seq<SymbolPredicate>,
    branches: Seq<Hir>,
    s: int,
    t: int,
)
    requires
        tables_extend(edges, predicates, later_edges, later_predicates),
        alternation_covers(edges, predicates, branches, s, t),
    ensures
        alternation_covers(later_edges, later_predicates, branches, s, t),
{
    assert forall|input: Seq<u16>, origin: int, i: int, j: int|
        #[trigger] alternation_matches(branches, input, origin, i, j) implies reaches(
        later_edges,
        later_predicates,
        input,
        origin,
        s,
        i,
        t,
        j,
    ) by {
        lemma_reaches_mono(edges, predicates, later_edges, later_predicates, input, origin, s, i, t, j);
    }
}

/// Repetition coverage survives when the tables grow.
pub proof fn lemma_repeat_covers_mono(
    edges: Seq<Seq<Edge>>,
    predicates: Seq<SymbolPredicate>,
    later_edges: Seq<Seq<Edge>>,
    later_predicates: Seq<SymbolPredicate>,
    e: Hir,
    n: nat,
    s: int,
    t: int,
)
    requires
        tables_extend(edges, predicates, later_edges, later_predicates),
        repeat_covers(edges, predicates, e, n, s, t),
    ensures
        repeat_covers(later_edges, later_predicates, e, n, s, t),
{
    assert forall|input: Seq<u16>, origin: int, i: int, j: int|
        #[trigger] repeat_matches(e, n, input, origin, i, j) implies reaches(
        later_edges,
        later_predicates,
        input,
        origin,
        s,
        i,
        t,
        j,
    ) by {
        lemma_reaches_mono(edges, predicates, later_edges, later_predicates, input, origin, s, i, t, j);
    }
}

/// Growth of tables is transitive.
pub proof fn lemma_tables_extend_trans(
    a_edges: Seq<Seq<Edge>>,
    a_predicates: Seq<SymbolPredicate>,
    b_edges: Seq<Seq<Edge>>,
    b_predicates: Seq<SymbolPredicate>,
    c_edges: Seq<Seq<Edge>>,
    c_predicates: Seq<SymbolPredicate>,
)
    requires
        tables_extend(a_edges, a_predicates, b_edges, b_predicates),
        tables_extend(b_edges, b_predicates, c_edges, c_predicates),
    ensures
        tables_extend(a_edges, a_predicates, c_edges, c_predicates),
{
    assert forall|s: int| 0 <= s < a_edges.len() implies a_edges[s].len() <= (#[trigger] c_edges[s]).len()
        && c_edges[s].take(a_edges[s].len() as int) == a_edges[s] by {
        let a = a_edges[s];
        let b = b_edges[s];
        assert(b_edges[s].take(a.len() as int) == a);
        assert(c_edges[s].take(b.len() as int) == b);
        assert forall|q: int| 0 <= q < a.len() implies c_edges[s][q] == a[q] by {
            assert(c_edges[s].take(b.len() as int)[q] == b[q]);
            assert(b.take(a.len() as int)[q] == a[q]);
        }
        assert(c_edges[s].take(a.len() as int) =~= a);
    }
    assert forall|q: int| 0 <= q < a_predicates.len() implies c_predicates[q] == a_predicates[q] by {
        assert(c_predicates.take(b_predicates.len() as int)[q] == b_predicates[q]);
        assert(b_predicates.take(a_predicates.len() as int)[q] == a_predicates[q]);
    }
    assert(c_predicates.take(a_predicates.len() as int) =~= a_predicates);
}

/// An edge of `kind` spells the single-step expression `h`.
pub open spec fn edge_spells(kind: EdgeKind, predicates: Seq<SymbolPredicate>, h: Hir) -> bool {
    match h {
        Hir::Epsilon => kind == EdgeKind::Epsilon,
        Hir::Assertion(a) => kind == EdgeKind::Assertion(a),
        Hir::Symbol(c) => kind == EdgeKind::Symbol(c),
        Hir::Predicate(p) => kind matches EdgeKind::Predicate(id) && (id.0 as int) < predicates.len()
            && predicates[id.0 as int]@ == p@,
        _ => false,
    }
}

/// The last edge out of `s`, to `t`, traces every match of the expression it
/// spells.
pub proof fn lemma_edge_covers(
    edges: Seq<Seq<Edge>>,
    predicates: Seq<SymbolPredicate>,
    h: Hir,
    s: int,
    t: int,
)
    requires
        0 <= s < edges.len(),
        edges[s].len() > 0,
        edges[s].last().target.0 == t,
        edge_spells(edges[s].last().kind, predicates, h),
    ensures
        covers(edges, predicates, h, s, t),
{
    let e = edges[s].len() - 1;
    let kind = edges[s][e].kind;
    assert forall|input: Seq<u16>, origin: int, i: int, j: int|
        #[trigger] matches_spec(h, input, origin, i, j) implies reaches(
        edges,
        predicates,
        input,
        origin,
        s,
        i,
        t,
        j,
    ) by {
        if let Hir::Predicate(p) = h {
            if let EdgeKind::Predicate(id) = kind {
                predicates[id.0 as int].lemma_view_contains(p);
            }
        }
        assert(step_kind(kind, predicates, input, origin, i, j));
        assert(edge_step(edges, predicates, input, origin, (s, i), (t, j)));
        lemma_reaches_step(edges, predicates, input, origin, s, i, t, j);
    }
}

/// Edge `q` out of `s` is an epsilon edge to `t`.
pub open spec fn epsilon_edge(edges: Seq<Seq<Edge>>, s: int, q: int, t: int) -> bool {
    &&& 0 <= s < edges.len()
    &&& 0 <= q < edges[s].len()
    &&& edges[s][q].kind == EdgeKind::Epsilon
    &&& edges[s][q].target.0 == t
}

/// An epsilon edge is a step at every position.
pub proof fn lemma_epsilon_step(
    edges: Seq<Seq<Edge>>,
    predicates: Seq<SymbolPredicate>,
    input: Seq<u16>,
    origin: int,
    s: int,
    q: int,
    t: int,
    k: int,
)
    requires
        epsilon_edge(edges, s, q, t),
    ensures
        reaches(edges, predicates, input, origin, s, k, t, k),
{
    assert(edges[s][q].target.0 == t && step_kind(edges[s][q].kind, predicates, input, origin, k, k));
    assert(edge_step(edges, predicates, input, origin, (s, k), (t, k)));
    lemma_reaches_step(edges, predicates, input, origin, s, k, t, k);
}

/// An epsilon edge survives when the tables grow.
pub proof fn lemma_epsilon_edge_mono(
    edges: Seq<Seq<Edge>>,
    predicates: Seq<SymbolPredicate>,
    later_edges: Seq<Seq<Edge>>,
    later_predicates: Seq<SymbolPredicate>,
    s: int,
    q: int,
    t: int,
)
    requires
        tables_extend(edges, predicates, later_edges, later_predicates),
        epsilon_edge(edges, s, q, t),
    ensures
        epsilon_edge(later_edges, s, q, t),
{
    assert(later_edges[s].take(edges[s].len() as int)[q] == edges[s][q]);
}

/// No copies match only the empty span, which a run of length one traces.
pub proof fn lemma_repeat_covers_zero(
    edges: Seq<Seq<Edge>>,
    predicates: Seq<SymbolPredicate>,
    e: Hir,
    s: int,
)
    ensures
        repeat_covers(edges, predicates, e, 0, s, s),
{
    assert forall|input: Seq<u16>, origin: int, i: int, j: int|
        #[trigger] repeat_matches(e, 0, input, origin, i, j) implies reaches(
        edges,
        predicates,
        input,
        origin,
        s,
        i,
        s,
        j,
    ) by {
        lemma_reaches_refl(edges, predicates, input, origin, s, i);
    }
}

/// One more copy, compiled from `c` to `t`, extends coverage of `n` copies.
pub proof fn lemma_repeat_covers_step(
    edges: Seq<Seq<Edge>>,
    predicates: Seq<SymbolPredicate>,
    e: Hir,
    n: nat,
    s: int,
    c: int,
    t: int,
)
    requires
        repeat_covers(edges, predicates, e, n, s, c),
        covers(edges, predicates, e, c, t),
    ensures
        repeat_covers(edges, predicates, e, n + 1, s, t),
{
    assert forall|input: Seq<u16>, origin: int, i: int, j: int|
        #[trigger] repeat_matches(e, n + 1, input, origin, i, j) implies reaches(
        edges,
        predicates,
        input,
        origin,
        s,
        i,
        t,
        j,
    ) by {
        let m = repeat_split_point(e, n + 1, input, origin, i, j, i);
        assert(((n + 1) - 1) as nat == n);
        lemma_reaches_trans(edges, predicates, input, origin, s, i, c, m, t, j);
    }
}

/// An epsilon edge from `c` to `t` carries coverage on to `t`.
pub proof fn lemma_repeat_covers_epsilon(
    edges: Seq<Seq<Edge>>,
    predicates: Seq<SymbolPredicate>,
    e: Hir,
    n: nat,
    s: int,
    c: int,
    q: int,
    t: int,
)
    requires
        repeat_covers(edges, predicates, e, n, s, c),
        epsilon_edge(edges, c, q, t),
    ensures
        repeat_covers(edges, predicates, e, n, s, t),
{
    assert forall|input: Seq<u16>, origin: int, i: int, j: int|
        #[trigger] repeat_matches(e, n, input, origin, i, j) implies reaches(
        edges,
        predicates,
        input,
        origin,
        s,
        i,
        t,
        j,
    ) by {
        lemma_epsilon_step(edges, predicates, input, origin, c, q, t, j);
        lemma_reaches_trans(edges, predicates, input, origin, s, i, c, j, t, j);
    }
}

/// A loop that runs a copy from `c` to `l` and returns to `c` by an epsilon
/// edge covers every number of copies from `lo` on.
pub proof fn lemma_repeat_cycle(
    edges: Seq<Seq<Edge>>,
    predicates: Seq<SymbolPredicate>,
    e: Hir,
    lo: nat,
    n: nat,
    s: int,
    c: int,
    l: int,
    q: int,
)
    requires
        repeat_covers(edges, predicates, e, lo, s, c),
        covers(edges, predicates, e, c, l),
        epsilon_edge(edges, l, q, c),
        lo <= n,
    ensures
        repeat_covers(edges, predicates, e, n, s, c),
    decreases n - lo,
{
    if n > lo {
        lemma_repeat_cycle(edges, predicates, e, lo, (n - 1) as nat, s, c, l, q);
        lemma_repeat_covers_step(edges, predicates, e, (n - 1) as nat, s, c, l);
        lemma_repeat_covers_epsilon(edges, predicates, e, n, s, l, q, c);
    }
}

/// An epsilon edge from `s` to `m` lets a run from `s` trace what one from
/// `m` traces.
pub proof fn lemma_covers_after_epsilon(
    edges: Seq<Seq<Edge>>,
    predicates: Seq<SymbolPredicate>,
    h: Hir,
    s: int,
    q: int,
    m: int,
    t: int,
)
    requires
        epsilon_edge(edges, s, q, m),
        covers(edges, predicates, h, m, t),
    ensures
        covers(edges, predicates, h, s, t),
{
    assert forall|input: Seq<u16>, origin: int, i: int, j: int|
        #[trigger] matches_spec(h, input, origin, i, j) implies reaches(
        edges,
        predicates,
        input,
        origin,
        s,
        i,
        t,
        j,
    ) by {
        lemma_epsilon_step(edges, predicates, input, origin, s, q, m, i);
        lemma_reaches_trans(edges, predicates, input, origin, s, i, m, i, t, j);
    }
}

/// A run from `root` traces every match of `h` to a state whose terminal
/// list holds `ordinal`.
pub open spec fn reported_in(
    edges: Seq<Seq<Edge>>,
    predicates: Seq<SymbolPredicate>,
    terminals: Seq<Seq<usize>>,
    root: int,
    ordinal: int,
    h: Hir,
) -> bool {
    exists|t: int|
        0 <= t < terminals.len() && #[trigger] terminals[t].contains(ordinal as usize) && covers(
            edges,
            predicates,
            h,
            root,
            t,
        )
}

/// What a pattern's terminal state reports survives when the tables grow
/// and earlier terminal lists stay.
pub proof fn lemma_reported_mono(
    edges: Seq<Seq<Edge>>,
    predicates: Seq<SymbolPredicate>,
    terminals: Seq<Seq<usize>>,
    later_edges: Seq<Seq<Edge>>,
    later_predicates: Seq<SymbolPredicate>,
    later_terminals: Seq<Seq<usize>>,
    root: int,
    ordinal: int,
    h: Hir,
)
    requires
        tables_extend(edges, predicates, later_edges, later_predicates),
        terminals.len() <= later_terminals.len(),
        later_terminals.take(terminals.len() as int) == terminals,
        reported_in(edges, predicates, terminals, root, ordinal, h),
    ensures
        reported_in(later_edges, later_predicates, later_terminals, root, ordinal, h),
{
    let t = choose|t: int|
        0 <= t < terminals.len() && #[trigger] terminals[t].contains(ordinal as usize) && covers(
            edges,
            predicates,
            h,
            root,
            t,
        );
    assert(later_terminals.take(terminals.len() as int)[t] == terminals[t]);
    assert(later_terminals[t] == terminals[t]);
    lemma_covers_mono(edges, predicates, later_edges, later_predicates, h, root, t);
    assert(later_terminals[t].contains(ordinal as usize));
}

/// Every position of a run from the root at `origin` is reached with its
/// state in the scan's active set there.
#[verifier::spinoff_prover]
pub proof fn lemma_run_active(db: PatternDatabase, input: Seq<u16>, origin: int, path: Seq<(int, int)>, idx: int)
    requires
        db.well_formed(),
        is_run(db.edge_table(), db.predicate_table(), input, origin, path),
        path[0] == (db.root_spec().0 as int, origin),
        0 <= origin <= input.len(),
        0 <= idx < path.len(),
    ensures
        origin <= path[idx].1 <= input.len(),
        0 <= path[idx].0 < db.state_count_spec(),
        active_set(db, input, origin, (path[idx].1 - origin) as nat).contains(StateId(path[idx].0 as u32)),
    decreases idx,
{
    let root = db.root_spec();
    if idx == 0 {
        lemma_closure_closed(db, input, context_before(db, origin), set![root]);
        assert(StateId(path[0].0 as u32) == root);
    } else {
        lemma_run_active(db, input, origin, path, idx - 1);
        let (s, i) = path[idx - 1];
        let (t, j) = path[idx];
        let edges = db.edge_table();
        let prev = idx - 1;
        assert(edge_step(edges, db.predicate_table(), input, origin, path[prev], path[prev + 1]));
        assert(prev + 1 == idx);
        let e = choose|e: int|
            #![trigger edges[s][e]]
            0 <= e < edges[s].len() && edges[s][e].target.0 == t && step_kind(
                edges[s][e].kind,
                db.predicate_table(),
                input,
                origin,
                i,
                j,
            );
        let edge = edges[s][e];
        let source = StateId(s as u32);
        let k = (i - origin) as nat;
        let active = active_set(db, input, origin, k);
        assert(edge.target == StateId(t as u32));
        assert(source.0 as int == s);
        match edge.kind {
            EdgeKind::Epsilon | EdgeKind::Assertion(_) => {
                let context = if k == 0 {
                    context_before(db, origin)
                } else {
                    context_after(db, origin + k)
                };
                let seeds = if k == 0 {
                    set![root]
                } else {
                    consumed(db, active_set(db, input, origin, (k - 1) as nat), input[origin + k - 1])
                };
                assert(active == closure(db, input, context, seeds));
                if let EdgeKind::Assertion(a) = edge.kind {
                    if !db.uses_assertions_spec() {
                        assert(assertion_free(edges));
                        assert(!(edges[s][e].kind is Assertion));
                    }
                }
                assert(zero_width_edge(db, input, context, source, edge.target));
                lemma_closure_closed(db, input, context, seeds);
                assert(closed_under(db, input, context, active));
                assert(active.contains(source));
            },
            _ => {
                let next = consumed(db, active, input[i]);
                assert(consumes(db, active, input[i], edge.target)) by {
                    assert(active.contains(source));
                    assert(edges[source.0 as int][e] == edge);
                }
                assert(next.contains(edge.target));
                assert(origin + (k + 1) - 1 == i);
                assert(active_set(db, input, origin, (k + 1) as nat) == closure(
                    db,
                    input,
                    context_after(db, origin + k + 1),
                    next,
                ));
                lemma_closure_closed(db, input, context_after(db, origin + k + 1), next);
                assert((j - origin) as nat == (k + 1) as nat);
            },
        }
    }
}

/// A pattern accepted after `k0` units is reported with a match at least
/// that long.
pub proof fn lemma_longest_end_at_least(
    db: PatternDatabase,
    input: Seq<u16>,
    start: int,
    ordinal: int,
    k0: nat,
    k: nat,
)
    requires
        1 <= k0 <= k,
        accepts(db, active_set(db, input, start, k0), ordinal),
    ensures
        longest_end(db, input, start, ordinal, k) matches Some(e) && start + k0 <= e,
    decreases k,
{
    if k > k0 && !accepts(db, active_set(db, input, start, k), ordinal) {
        lemma_longest_end_at_least(db, input, start, ordinal, k0, (k - 1) as nat);
    }
}

/// No match is missed: when the expression compiled for pattern `ordinal`
/// matches `input[start..end]` with at least one unit, the scan reports a
/// match of that pattern from `start` that ends at `end` or later.
pub proof fn lemma_match_reported(
    db: PatternDatabase,
    input: Seq<u16>,
    start: int,
    ordinal: int,
    h: Hir,
    end: int,
)
    requires
        db.well_formed(),
        reports_matches(db, ordinal, h),
        0 <= start < end <= input.len(),
        matches_spec(h, input, start, start, end),
    ensures
        longest_match(db, input, start, ordinal) matches Some(e) && end <= e,
{
    let edges = db.edge_table();
    let predicates = db.predicate_table();
    let terminals = db.terminal_table();
    let root = db.root_spec().0 as int;
    let t = choose|t: int|
        0 <= t < terminals.len() && #[trigger] terminals[t].contains(ordinal as usize) && covers(
            edges,
            predicates,
            h,
            root,
            t,
        );
    assert(reaches(edges, predicates, input, start, root, start, t, end));
    let path = choose|path: Seq<(int, int)>|
        #[trigger] is_run(edges, predicates, input, start, path) && path[0] == (root, start) && path.last()
            == (t, end);
    lemma_run_active(db, input, start, path, path.len() - 1);
    let k0 = (end - start) as nat;
    let state = StateId(t as u32);
    assert(active_set(db, input, start, k0).contains(state));
    assert(db.terminal_table()[state.0 as int].contains(ordinal as usize));
    assert(accepts(db, active_set(db, input, start, k0), ordinal));
    lemma_longest_end_at_least(db, input, start, ordinal, k0, (input.len() - start) as nat);
}

/// An event of the first part of a concatenation is an event of the whole.
pub(crate) proof fn lemma_contains_left<A>(a: Seq<A>, b: Seq<A>, x: A)
    requires
        a.contains(x),
    ensures
        (a + b).contains(x),
{
    let k = choose|k: int| 0 <= k < a.len() && a[k] == x;
    assert((a + b)[k] == x);
}

/// An event of the second part of a concatenation is an event of the whole.
pub(crate) proof fn lemma_contains_right<A>(a: Seq<A>, b: Seq<A>, x: A)
    requires
        b.contains(x),
    ensures
        (a + b).contains(x),
{
    let k = choose|k: int| 0 <= k < b.len() && b[k] == x;
    assert((a + b)[a.len() + k] == x);
}

/// The longest match of pattern `ordinal` from `start`, when there is one,
/// is among the events of that start.
pub proof fn lemma_start_events_contain(db: PatternDatabase, input: Seq<u16>, start: int, n: nat, ordinal: int)
    requires
        0 <= ordinal < n,
        longest_match(db, input, start, ordinal) is Some,
    ensures
        start_events(db, input, start, n).contains(
            (db.pattern_table()[ordinal]@, start as u64, longest_match(db, input, start, ordinal)->0 as u64),
        ),
    decreases n,
{
    let x = (db.pattern_table()[ordinal]@, start as u64, longest_match(db, input, start, ordinal)->0 as u64);
    let prefix = start_events(db, input, start, (n - 1) as nat);
    let piece = match longest_match(db, input, start, n - 1) {
        Some(end) => seq![(db.pattern_table()[n - 1]@, start as u64, end as u64)],
        None => seq![],
    };
    assert(start_events(db, input, start, n) == prefix + piece);
    if ordinal < n - 1 {
        lemma_start_events_contain(db, input, start, (n - 1) as nat, ordinal);
        lemma_contains_left(prefix, piece, x);
    } else {
        assert(piece[0] == x);
        lemma_contains_right(prefix, piece, x);
    }
}

/// Every event of a visited start is an event of the scan.
pub proof fn lemma_scan_events_contain(db: PatternDatabase, input: Seq<u16>, starts: Seq<int>, k: int, x: (u32, u64, u64))
    requires
        0 <= k < starts.len(),
        start_events(db, input, starts[k], db.pattern_table().len()).contains(x),
    ensures
        scan_events(db, input, starts).contains(x),
    decreases starts.len(),
{
    let prefix = scan_events(db, input, starts.drop_last());
    let piece = start_events(db, input, starts.last(), db.pattern_table().len());
    if k < starts.len() - 1 {
        assert(starts.drop_last()[k] == starts[k]);
        lemma_scan_events_contain(db, input, starts.drop_last(), k, x);
        lemma_contains_left(prefix, piece, x);
    } else {
        lemma_contains_right(prefix, piece, x);
    }
}

/// No match is missed by a full scan of a database: when the expression
/// compiled for pattern `ordinal` matches `input[start..end]` with at least
/// one unit, the scan's events hold one for that pattern from `start` to a
/// position at or after `end`.
pub proof fn lemma_match_among_events(
    db: PatternDatabase,
    input: Seq<u16>,
    start: int,
    ordinal: int,
    h: Hir,
    end: int,
)
    requires
        db.well_formed(),
        0 <= ordinal < db.pattern_table().len(),
        reports_matches(db, ordinal, h),
        0 <= start < end <= input.len(),
        matches_spec(h, input, start, start, end),
    ensures
        exists|e: int|
            end <= e <= input.len() && #[trigger] expected_events(db, input).contains(
                (db.pattern_table()[ordinal]@, start as u64, e as u64),
            ),
{
    lemma_match_reported(db, input, start, ordinal, h, end);
    let e = longest_match(db, input, start, ordinal)->0;
    lemma_longest_end_bounds(db, input, start, ordinal, (input.len() - start) as nat);
    lemma_start_events_contain(db, input, start, db.pattern_table().len(), ordinal);
    let starts = all_starts(input.len() as int);
    assert(starts[start] == start);
    lemma_scan_events_contain(
        db,
        input,
        starts,
        start,
        (db.pattern_table()[ordinal]@, start as u64, e as u64),
    );
    assert(expected_events(db, input) == scan_events(db, input, starts));
    assert(expected_events(db, input).contains((db.pattern_table()[ordinal]@, start as u64, e as u64)));
}

/// A sequence split exists from `k` on when one exists at `m >= k`.
pub proof fn lemma_sequence_split_intro(
    s: Seq<Hir>,
    input: Seq<u16>,
    origin: int,
    i: int,
    j: int,
    k: int,
    m: int,
)
    requires
        s.len() > 0,
        k <= m <= j,
        sequence_matches(s.drop_last(), input, origin, i, m),
        matches_spec(s.last(), input, origin, m, j),
    ensures
        sequence_split(s, input, origin, i, j, k),
    decreases m - k,
{
    if k < m {
        lemma_sequence_split_intro(s, input, origin, i, j, k + 1, m);
    }
}

/// The first `m` symbols of `units` match the first `m` units of an
/// occurrence of `units` at `start`.
proof fn lemma_symbols_match(units: Seq<u16>, input: Seq<u16>, origin: int, start: int, m: nat)
    requires
        m <= units.len(),
        0 <= start,
        start + units.len() <= input.len(),
        input.subrange(start, start + units.len()) == units,
    ensures
        sequence_matches(symbols(units).take(m as int), input, origin, start, start + m),
    decreases m,
{
    if m > 0 {
        let s = symbols(units).take(m as int);
        lemma_symbols_match(units, input, origin, start, (m - 1) as nat);
        assert(s.drop_last() =~= symbols(units).take(m - 1));
        assert(s.last() == Hir::Symbol(units[m - 1]));
        assert(input[start + m - 1] == input.subrange(start, start + units.len())[m - 1]);
        lemma_sequence_split_intro(s, input, origin, start, start + m, start, start + m - 1);
    }
}

/// Symbols hold no sequence at all.
proof fn lemma_symbols_nonempty(units: Seq<u16>)
    ensures
        all_sequences_nonempty(symbols(units)),
    decreases units.len(),
{
    if units.len() > 0 {
        lemma_symbols_nonempty(units.drop_last());
        assert(symbols(units).drop_last() =~= symbols(units.drop_last()));
        assert(symbols(units).last() == Hir::Symbol(units.last()));
        assert(sequences_nonempty(symbols(units).last()));
    } else {
        assert(symbols(units).len() == 0);
    }
}

/// The expression of a plain literal matches each of its occurrences.
pub proof fn lemma_literal_matches(units: Seq<u16>, h: Hir, input: Seq<u16>, origin: int, start: int)
    requires
        units.len() > 0,
        is_literal_hir(units, h),
        0 <= start,
        start + units.len() <= input.len(),
        input.subrange(start, start + units.len()) == units,
    ensures
        matches_spec(h, input, origin, start, start + units.len()),
        sequences_nonempty(h),
{
    if units.len() == 1 {
        assert(input[start] == input.subrange(start, start + 1)[0]);
    } else {
        lemma_symbols_match(units, input, origin, start, units.len());
        assert(symbols(units).take(units.len() as int) =~= symbols(units));
        lemma_symbols_nonempty(units);
    }
}

/// `text` spells `units` unit by unit; where `folded`, each unit may also be
/// written as its simple lower- or upper-case mapping.
pub open spec fn folds_to(units: Seq<u16>, folded: bool, text: Seq<u16>) -> bool {
    &&& text.len() == units.len()
    &&& forall|k: int|
        0 <= k < units.len() ==> #[trigger] text[k] == units[k] || (folded && (text[k] == simple_lower(
            units[k],
        ) || text[k] == simple_upper(units[k])))
}

proof fn lemma_atom_matches(unit: u16, folded: bool, atom: Hir, input: Seq<u16>, origin: int, i: int)
    requires
        is_literal_atom(unit, folded, atom),
        0 <= i < input.len(),
        input[i] == unit || (folded && (input[i] == simple_lower(unit) || input[i] == simple_upper(unit))),
    ensures
        matches_spec(atom, input, origin, i, i + 1),
        sequences_nonempty(atom),
{
    if let Hir::Predicate(p) = atom {
        assert(p.contains(input[i]));
    }
}

proof fn lemma_atoms_match(
    units: Seq<u16>,
    folded: bool,
    items: Seq<Hir>,
    input: Seq<u16>,
    origin: int,
    start: int,
    m: nat,
)
    requires
        literal_atoms(units, folded, items),
        m <= units.len(),
        0 <= start,
        start + units.len() <= input.len(),
        folds_to(units, folded, input.subrange(start, start + units.len())),
    ensures
        sequence_matches(items.take(m as int), input, origin, start, start + m),
        all_sequences_nonempty(items.take(m as int)),
    decreases m,
{
    if m > 0 {
        let s = items.take(m as int);
        lemma_atoms_match(units, folded, items, input, origin, start, (m - 1) as nat);
        assert(s.drop_last() =~= items.take(m - 1));
        assert(s.last() == items[m - 1]);
        assert(input.subrange(start, start + units.len())[m - 1] == input[start + m - 1]);
        assert(is_literal_atom(units[m - 1], folded, items[m - 1]));
        lemma_atom_matches(units[m - 1], folded, items[m - 1], input, origin, start + m - 1);
        lemma_sequence_split_intro(s, input, origin, start, start + m, start, start + m - 1);
    } else {
        assert(items.take(0) =~= Seq::<Hir>::empty());
    }
}

/// A literal, case-folded or not, matches wherever the text spells it: unit
/// by unit, each unit written as itself or, when folded, as its simple lower-
/// or upper-case mapping.
pub proof fn lemma_spelled_literal_matches(
    units: Seq<u16>,
    folded: bool,
    h: Hir,
    input: Seq<u16>,
    origin: int,
    start: int,
)
    requires
        units.len() > 0,
        spells_literal(units, folded, h),
        0 <= start,
        start + units.len() <= input.len(),
        folds_to(units, folded, input.subrange(start, start + units.len())),
    ensures
        matches_spec(h, input, origin, start, start + units.len()),
        sequences_nonempty(h),
{
    if units.len() == 1 {
        assert(input.subrange(start, start + 1)[0] == input[start]);
        lemma_atom_matches(units[0], folded, h, input, origin, start);
    } else {
        let v = h->Sequence_0;
        lemma_atoms_match(units, folded, v@, input, origin, start, units.len());
        assert(v@.take(units.len() as int) =~= v@);
    }
}

/// A character class matches exactly one unit: one its body admits (with
/// every simple case mapping of a listed unit under folding), or, for a class
/// opened with `[^`, one its body does not admit.
pub proof fn lemma_class_atom_matches(
    units: Seq<u16>,
    folded: bool,
    at: int,
    atom: Hir,
    input: Seq<u16>,
    origin: int,
    i: int,
    j: int,
)
    requires
        is_simple_atom_start(units, at),
        units[at] == 0x5b,
        simple_atom(units, folded, at, atom),
    ensures
        matches_spec(atom, input, origin, i, j) == (j == i + 1 && 0 <= i < input.len() && (class_inverted(units, at)
            != class_admits(class_listed(units, at), folded, input[i]))),
{
    assert(!is_plain(0x5bu16));
}

/// A shorthand escape matches exactly one unit of the class its letter names.
pub proof fn lemma_shorthand_atom_matches(
    units: Seq<u16>,
    folded: bool,
    at: int,
    atom: Hir,
    input: Seq<u16>,
    origin: int,
    i: int,
    j: int,
)
    requires
        is_simple_atom_start(units, at),
        units[at] == 0x5c,
        is_shorthand(units[at + 1]),
        simple_atom(units, folded, at, atom),
    ensures
        matches_spec(atom, input, origin, i, j) == (j == i + 1 && 0 <= i < input.len() && shorthand_member(
            units[at + 1],
            input[i],
        )),
{
    assert(!is_plain(0x5cu16));
    assert(!is_escaped_literal(units[at + 1]));
}

/// The code units a plain literal expression spells: one symbol, or a
/// sequence of two or more symbols (the normal form of a longer literal).
pub open spec fn literal_units(h: Hir) -> Option<Seq<u16>> {
    match h {
        Hir::Symbol(c) => Some(seq![c]),
        Hir::Sequence(v) => if v@.len() >= 2 && forall|m: int| 0 <= m < v@.len() ==> #[trigger] v@[m] is Symbol {
            Some(
                Seq::new(
                    v@.len(),
                    |m: int|
                        match v@[m] {
                            Hir::Symbol(c) => c,
                            _ => 0,
                        },
                ),
            )
        } else {
            None
        },
        _ => None,
    }
}

/// The normalized expression of a non-empty plain literal spells its units.
pub proof fn lemma_literal_units(units: Seq<u16>, h: Hir)
    requires
        units.len() > 0,
        is_literal_hir(units, h),
    ensures
        literal_units(h) == Some(units),
{
    if units.len() == 1 {
        assert(seq![units[0]] =~= units);
    } else {
        if let Hir::Sequence(v) = h {
            assert(v@ == symbols(units));
            assert forall|m: int| 0 <= m < v@.len() implies #[trigger] v@[m] is Symbol by {
                assert(v@[m] == Hir::Symbol(units[m]));
            }
            let spelled = Seq::new(
                v@.len(),
                |m: int|
                    match v@[m] {
                        Hir::Symbol(c) => c,
                        _ => 0,
                    },
            );
            assert forall|m: int| 0 <= m < units.len() implies spelled[m] == units[m] by {
                assert(v@[m] == Hir::Symbol(units[m]));
            }
            assert(spelled =~= units);
        }
    }
}

/// The context a closure uses at `position` in a scan that began at
/// `origin`.
pub open spec fn context_at(db: PatternDatabase, origin: int, position: int) -> Option<(int, bool)> {
    if position == origin {
        context_before(db, origin)
    } else {
        context_after(db, position)
    }
}

/// A zero-width path at `position` is a run that stays at `position`.
#[verifier::spinoff_prover]
proof fn lemma_zero_width_run(
    db: PatternDatabase,
    input: Seq<u16>,
    origin: int,
    position: int,
    path: Seq<StateId>,
    idx: int,
)
    requires
        db.well_formed(),
        is_zero_width_path(db, input, context_at(db, origin, position), path),
        (path[0].0 as int) < db.state_count_spec(),
        origin <= position,
        0 <= idx < path.len(),
    ensures
        (path[idx].0 as int) < db.state_count_spec(),
        reaches(db.edge_table(), db.predicate_table(), input, origin, path[0].0 as int, position, path[idx].0 as int, position),
    decreases idx,
{
    let edges = db.edge_table();
    let predicates = db.predicate_table();
    if idx == 0 {
        lemma_reaches_refl(edges, predicates, input, origin, path[0].0 as int, position);
    } else {
        let prev = idx - 1;
        lemma_zero_width_run(db, input, origin, position, path, prev);
        let context = context_at(db, origin, position);
        assert(zero_width_edge(db, input, context, path[prev], path[prev + 1]));
        assert(prev + 1 == idx);
        let s = path[prev].0 as int;
        let j = choose|j: int|
            0 <= j < edges[s].len() && (#[trigger] edges[s][j]).target == path[idx] && crate::semantics::follows(
                edges[s][j].kind,
                input,
                context,
            );
        if let EdgeKind::Assertion(a) = edges[s][j].kind {
            if !db.uses_assertions_spec() {
                assert(assertion_free(edges));
                assert(!(edges[s][j].kind is Assertion));
            }
        }
        assert(step_kind(edges[s][j].kind, predicates, input, origin, position, position));
        assert(edges_valid(edges, predicates.len()));
        assert(edges[s][j].target.0 == path[idx].0);
        assert(edge_step(edges, predicates, input, origin, (s, position), (path[idx].0 as int, position)));
        lemma_reaches_step(edges, predicates, input, origin, s, position, path[idx].0 as int, position);
        lemma_reaches_trans(edges, predicates, input, origin, path[0].0 as int, position, s, position, path[idx].0 as int, position);
    }
}

/// Every state of the scan's active set is reached by a run from the root.
#[verifier::spinoff_prover]
pub proof fn lemma_active_reaches(db: PatternDatabase, input: Seq<u16>, origin: int, k: nat, s: StateId)
    requires
        db.well_formed(),
        0 <= origin,
        origin + k <= input.len(),
        active_set(db, input, origin, k).contains(s),
    ensures
        (s.0 as int) < db.state_count_spec(),
        reaches(db.edge_table(), db.predicate_table(), input, origin, db.root_spec().0 as int, origin, s.0 as int, origin + k),
    decreases k,
{
    let edges = db.edge_table();
    let predicates = db.predicate_table();
    let position = origin + k;
    let context = context_at(db, origin, position);
    let seeds = if k == 0 {
        set![db.root_spec()]
    } else {
        consumed(db, active_set(db, input, origin, (k - 1) as nat), input[origin + k - 1])
    };
    assert(active_set(db, input, origin, k) == closure(db, input, context, seeds));
    assert(reachable(db, input, context, seeds, s));
    let path = choose|path: Seq<StateId>|
        #[trigger] is_zero_width_path(db, input, context, path) && seeds.contains(path[0]) && path.last() == s;
    let first = path[0];
    if k == 0 {
        lemma_zero_width_run(db, input, origin, position, path, path.len() - 1);
    } else {
        let previous = active_set(db, input, origin, (k - 1) as nat);
        let symbol = input[origin + k - 1];
        assert(consumes(db, previous, symbol, first));
        let (from, j) = choose|from: StateId, j: int|
            #![trigger previous.contains(from), edges[from.0 as int][j]]
            previous.contains(from) && 0 <= j < edges[from.0 as int].len() && edges[from.0 as int][j].target == first
                && db.edge_matches_spec(edges[from.0 as int][j].kind, symbol);
        lemma_active_reaches(db, input, origin, (k - 1) as nat, from);
        let f = from.0 as int;
        assert(edges_valid(edges, predicates.len()));
        assert(edges[f][j].target == first);
        assert(step_kind(edges[f][j].kind, predicates, input, origin, position - 1, position));
        assert(edge_step(edges, predicates, input, origin, (f, position - 1), (first.0 as int, position)));
        lemma_reaches_step(edges, predicates, input, origin, f, position - 1, first.0 as int, position);
        lemma_reaches_trans(
            edges,
            predicates,
            input,
            origin,
            db.root_spec().0 as int,
            origin,
            f,
            position - 1,
            first.0 as int,
            position,
        );
        lemma_zero_width_run(db, input, origin, position, path, path.len() - 1);
        lemma_reaches_trans(
            edges,
            predicates,
            input,
            origin,
            db.root_spec().0 as int,
            origin,
            first.0 as int,
            position,
            s.0 as int,
            position,
        );
    }
}

/// `units` occurs in `input` at `start`.
pub open spec fn occurs_at(units: Seq<u16>, input: Seq<u16>, start: int) -> bool {
    0 <= start && start + units.len() <= input.len() && input.subrange(start, start + units.len()) == units
}

/// Where a run from the root of a literal database can be: at the root
/// where it began (`None`), or after the first `m` units of literal `q`,
/// which the input spells from `start` on (`Some((q, m))`).
#[verifier::spinoff_prover]
proof fn literal_run_point(
    edges: Seq<Seq<Edge>>,
    terminals: Seq<Seq<usize>>,
    predicates: Seq<SymbolPredicate>,
    lits: Seq<Seq<u16>>,
    input: Seq<u16>,
    start: int,
    path: Seq<(int, int)>,
    idx: int,
) -> (point: Option<(int, int)>)
    requires
        literal_shape(edges, terminals, lits),
        is_run(edges, predicates, input, start, path),
        path[0] == (0int, start),
        0 <= start <= input.len(),
        0 <= idx < path.len(),
    ensures
        point is None ==> path[idx] == (0int, start),
        point matches Some((q, m)) ==> {
            &&& 0 <= q < lits.len()
            &&& 0 <= m <= lits[q].len()
            &&& path[idx] == (chain_node(lits, q, m), start + m)
            &&& start + m <= input.len()
            &&& input.subrange(start, start + m) == lits[q].take(m)
        },
    decreases idx,
{
    if idx == 0 {
        None
    } else {
        let prev = idx - 1;
        let before = literal_run_point(edges, terminals, predicates, lits, input, start, path, prev);
        assert(edge_step(edges, predicates, input, start, path[prev], path[prev + 1]));
        assert(prev + 1 == idx);
        let (s, i) = path[prev];
        let (t, j) = path[idx];
        let e = choose|e: int|
            #![trigger edges[s][e]]
            0 <= e < edges[s].len() && edges[s][e].target.0 == t && step_kind(edges[s][e].kind, predicates, input, start, i, j);
        match before {
            None => {
                assert(edges[0][e].kind == EdgeKind::Epsilon);
                assert(chain_node(lits, e, 0) == chain_base(lits, e));
                assert(input.subrange(start, start) =~= lits[e].take(0));
                Some((e, 0))
            },
            Some((q, m)) => {
                if m == lits[q].len() {
                    assert(edges[chain_node(lits, q, lits[q].len() as int)].len() == 0);
                    assert(false);
                    None
                } else {
                    assert(edges[chain_node(lits, q, m)].len() == 1);
                    assert(e == 0);
                    assert(chain_edge(edges[chain_node(lits, q, m)][0], lits[q][m], chain_node(lits, q, m + 1)));
                    assert(input[start + m] == lits[q][m]);
                    assert(input.subrange(start, start + m + 1) =~= lits[q].take(m + 1)) by {
                        assert forall|x: int| 0 <= x < m + 1 implies #[trigger] input.subrange(start, start + m + 1)[x] == lits[q].take(m + 1)[x] by {
                            if x < m {
                                assert(input.subrange(start, start + m)[x] == lits[q].take(m)[x]);
                            }
                        }
                    }
                    Some((q, m + 1))
                }
            },
        }
    }
}

/// In a database compiled from plain literals, pattern `p` is accepted after
/// `k` units exactly when literal `p` has `k` units and occurs at `start`.
#[verifier::spinoff_prover]
pub proof fn lemma_literal_accepts(db: PatternDatabase, lits: Seq<Seq<u16>>, input: Seq<u16>, start: int, k: nat, p: int)
    requires
        db.well_formed(),
        db.root_spec().0 == 0,
        literal_shape(db.edge_table(), db.terminal_table(), lits),
        0 <= start,
        start + k <= input.len(),
        0 <= p < lits.len(),
        accepts(db, active_set(db, input, start, k), p),
    ensures
        k == lits[p].len(),
        occurs_at(lits[p], input, start),
{
    lemma_literal_count_bound(db, lits);
    let active = active_set(db, input, start, k);
    let state = choose|s: StateId| active.contains(s) && #[trigger] db.terminal_table()[s.0 as int].contains(p as usize);
    lemma_active_reaches(db, input, start, k, state);
    let edges = db.edge_table();
    let predicates = db.predicate_table();
    let path = choose|path: Seq<(int, int)>|
        #[trigger] is_run(edges, predicates, input, start, path) && path[0] == (0int, start) && path.last()
            == (state.0 as int, start + k);
    let point = literal_run_point(edges, db.terminal_table(), predicates, lits, input, start, path, path.len() - 1);
    let terminals = db.terminal_table();
    match point {
        None => {
            assert(terminals[0].len() == 0);
            assert(false);
        },
        Some((q, m)) => {
            if m < lits[q].len() {
                assert(terminals[chain_node(lits, q, m)].len() == 0);
                assert(false);
            } else {
                assert(terminals[chain_node(lits, q, lits[q].len() as int)] == seq![q as usize]);
                assert(lits[q].take(m) =~= lits[q]);
            }
        },
    }
}

/// A database compiled from plain literals has more states than literals.
proof fn lemma_literal_count_bound(db: PatternDatabase, lits: Seq<Seq<u16>>)
    requires
        db.well_formed(),
        literal_shape(db.edge_table(), db.terminal_table(), lits),
    ensures
        lits.len() < db.state_count_spec(),
        db.state_count_spec() <= u32::MAX + 1,
{
    lemma_chain_base_count(lits, lits.len() as int);
}

proof fn lemma_chain_base_count(lits: Seq<Seq<u16>>, q: int)
    requires
        0 <= q <= lits.len(),
        forall|r: int| 0 <= r < lits.len() ==> (#[trigger] lits[r]).len() > 0,
    ensures
        chain_base(lits, q) >= 1 + 2 * q,
    decreases q,
{
    if q > 0 {
        lemma_chain_base_count(lits, q - 1);
        assert(lits[q - 1].len() > 0);
    }
}

/// A longest end, when there is one, is an end at which the pattern is
/// accepted.
proof fn lemma_longest_end_accepts(db: PatternDatabase, input: Seq<u16>, start: int, ordinal: int, k: nat)
    ensures
        longest_end(db, input, start, ordinal, k) matches Some(e) ==> accepts(
            db,
            active_set(db, input, start, (e - start) as nat),
            ordinal,
        ),
    decreases k,
{
    if k > 0 && !accepts(db, active_set(db, input, start, k), ordinal) {
        lemma_longest_end_accepts(db, input, start, ordinal, (k - 1) as nat);
    }
}

/// The root's edge to literal `p` and each unit of an occurrence of it are
/// steps.
#[verifier::spinoff_prover]
#[verifier::rlimit(50)]
proof fn lemma_chain_step(
    edges: Seq<Seq<Edge>>,
    terminals: Seq<Seq<usize>>,
    predicates: Seq<SymbolPredicate>,
    lits: Seq<Seq<u16>>,
    input: Seq<u16>,
    start: int,
    p: int,
    m: int,
)
    requires
        literal_shape(edges, terminals, lits),
        0 <= p < lits.len(),
        occurs_at(lits[p], input, start),
        -1 <= m < lits[p].len(),
    ensures
        m == -1 ==> edge_step(edges, predicates, input, start, (0int, start), (chain_node(lits, p, 0), start)),
        m >= 0 ==> edge_step(
            edges,
            predicates,
            input,
            start,
            (chain_node(lits, p, m), start + m),
            (chain_node(lits, p, m + 1), start + m + 1),
        ),
{
    crate::nfa::lemma_chain_base_grows(lits, p, p + 1);
    crate::nfa::lemma_chain_base_grows(lits, p + 1, lits.len() as int);
    if m == -1 {
        assert(edges[0][p].target.0 == chain_base(lits, p));
        assert(step_kind(edges[0][p].kind, predicates, input, start, start, start));
    } else {
        let node = chain_node(lits, p, m);
        assert(edges[node].len() == 1);
        assert(chain_edge(edges[node][0], lits[p][m], chain_node(lits, p, m + 1)));
        assert(input[start + m] == input.subrange(start, start + lits[p].len())[m]);
        assert(step_kind(edges[node][0].kind, predicates, input, start, start + m, start + m + 1));
    }
}

/// The run that follows an occurrence of literal `p` from the root to its
/// last state.
#[verifier::spinoff_prover]
#[verifier::rlimit(50)]
proof fn lemma_chain_run(
    edges: Seq<Seq<Edge>>,
    terminals: Seq<Seq<usize>>,
    predicates: Seq<SymbolPredicate>,
    lits: Seq<Seq<u16>>,
    input: Seq<u16>,
    start: int,
    p: int,
) -> (path: Seq<(int, int)>)
    requires
        literal_shape(edges, terminals, lits),
        0 <= p < lits.len(),
        occurs_at(lits[p], input, start),
    ensures
        is_run(edges, predicates, input, start, path),
        path[0] == (0int, start),
        path.last() == (chain_node(lits, p, lits[p].len() as int), start + lits[p].len()),
{
    let k = lits[p].len() as int;
    let path = seq![(0int, start)] + Seq::new((k + 1) as nat, |m: int| (chain_node(lits, p, m), start + m));
    assert forall|x: int| 0 <= x < path.len() - 1 implies #[trigger] edge_step(
        edges,
        predicates,
        input,
        start,
        path[x],
        path[x + 1],
    ) by {
        lemma_chain_step(edges, terminals, predicates, lits, input, start, p, x - 1);
        if x == 0 {
            assert(path[1] == (chain_node(lits, p, 0), start));
        } else {
            assert(path[x] == (chain_node(lits, p, x - 1), start + x - 1));
            assert(path[x + 1] == (chain_node(lits, p, x), start + x));
        }
    }
    assert(path.last() == path[k + 1]);
    path
}

/// An occurrence of literal `p` at `start` is accepted after its last unit.
#[verifier::spinoff_prover]
proof fn lemma_literal_found(db: PatternDatabase, lits: Seq<Seq<u16>>, input: Seq<u16>, start: int, p: int)
    requires
        db.well_formed(),
        db.root_spec().0 == 0,
        literal_shape(db.edge_table(), db.terminal_table(), lits),
        0 <= p < lits.len(),
        occurs_at(lits[p], input, start),
    ensures
        accepts(db, active_set(db, input, start, lits[p].len()), p),
{
    lemma_literal_count_bound(db, lits);
    let k = lits[p].len() as int;
    let path = lemma_chain_run(db.edge_table(), db.terminal_table(), db.predicate_table(), lits, input, start, p);
    let last = path.len() - 1;
    lemma_run_active(db, input, start, path, last);
    let terminal = chain_node(lits, p, lits[p].len() as int);
    assert(db.terminal_table()[terminal] == seq![p as usize]);
    let state = StateId(terminal as u32);
    assert(state.0 as int == terminal);
    assert(active_set(db, input, start, k as nat).contains(state));
    assert(db.terminal_table()[state.0 as int][0] == p as usize);
    assert(db.terminal_table()[state.0 as int].contains(p as usize));
}

/// In a database compiled from plain literals, the longest match of pattern
/// `p` from `start` is the occurrence of literal `p` there, if any.
#[verifier::spinoff_prover]
pub proof fn lemma_literal_longest(db: PatternDatabase, lits: Seq<Seq<u16>>, input: Seq<u16>, start: int, p: int)
    requires
        db.well_formed(),
        db.root_spec().0 == 0,
        literal_shape(db.edge_table(), db.terminal_table(), lits),
        0 <= start <= input.len(),
        0 <= p < lits.len(),
    ensures
        longest_match(db, input, start, p) == if occurs_at(lits[p], input, start) {
            Some(start + lits[p].len())
        } else {
            None::<int>
        },
{
    let total = (input.len() - start) as nat;
    lemma_longest_end_accepts(db, input, start, p, total);
    lemma_longest_end_bounds(db, input, start, p, total);
    if let Some(e) = longest_match(db, input, start, p) {
        lemma_literal_accepts(db, lits, input, start, (e - start) as nat, p);
    }
    if occurs_at(lits[p], input, start) {
        lemma_literal_found(db, lits, input, start, p);
        lemma_longest_end_at_least(db, input, start, p, lits[p].len(), total);
    }
}

/// What a scan reports at `start` for literals `lits` with identities
/// `ids`: in registration order, each literal that occurs there, from
/// `start` to its end.
pub open spec fn literal_start_events(
    lits: Seq<Seq<u16>>,
    ids: Seq<u32>,
    input: Seq<u16>,
    start: int,
    n: nat,
) -> Seq<(u32, u64, u64)>
    decreases n,
{
    if n == 0 {
        seq![]
    } else {
        literal_start_events(lits, ids, input, start, (n - 1) as nat) + if occurs_at(lits[n - 1], input, start) {
            seq![(ids[n - 1], start as u64, (start + lits[n - 1].len()) as u64)]
        } else {
            seq![]
        }
    }
}

/// The literal occurrences at each start of `starts`, in order.
pub open spec fn literal_scan_events(
    lits: Seq<Seq<u16>>,
    ids: Seq<u32>,
    input: Seq<u16>,
    starts: Seq<int>,
) -> Seq<(u32, u64, u64)>
    decreases starts.len(),
{
    if starts.len() == 0 {
        seq![]
    } else {
        literal_scan_events(lits, ids, input, starts.drop_last()) + literal_start_events(
            lits,
            ids,
            input,
            starts.last(),
            lits.len(),
        )
    }
}

/// The database's events at one start are the literal occurrences there.
pub proof fn lemma_literal_start_events(
    db: PatternDatabase,
    lits: Seq<Seq<u16>>,
    ids: Seq<u32>,
    input: Seq<u16>,
    start: int,
    n: nat,
)
    requires
        db.well_formed(),
        db.root_spec().0 == 0,
        literal_shape(db.edge_table(), db.terminal_table(), lits),
        db.pattern_table().len() == lits.len(),
        ids.len() == lits.len(),
        forall|q: int| 0 <= q < lits.len() ==> #[trigger] ids[q] == db.pattern_table()[q]@,
        0 <= start <= input.len(),
        n <= lits.len(),
    ensures
        start_events(db, input, start, n) == literal_start_events(lits, ids, input, start, n),
    decreases n,
{
    if n > 0 {
        lemma_literal_start_events(db, lits, ids, input, start, (n - 1) as nat);
        lemma_literal_longest(db, lits, input, start, n - 1);
        assert(ids[n - 1] == db.pattern_table()[n - 1]@);
    }
}

/// The database's events over visited starts are the literal occurrences
/// at those starts.
pub proof fn lemma_literal_scan_events(
    db: PatternDatabase,
    lits: Seq<Seq<u16>>,
    ids: Seq<u32>,
    input: Seq<u16>,
    starts: Seq<int>,
)
    requires
        db.well_formed(),
        db.root_spec().0 == 0,
        literal_shape(db.edge_table(), db.terminal_table(), lits),
        db.pattern_table().len() == lits.len(),
        ids.len() == lits.len(),
        forall|q: int| 0 <= q < lits.len() ==> #[trigger] ids[q] == db.pattern_table()[q]@,
        forall|k: int| 0 <= k < starts.len() ==> 0 <= #[trigger] starts[k] <= input.len(),
    ensures
        scan_events(db, input, starts) == literal_scan_events(lits, ids, input, starts),
    decreases starts.len(),
{
    if starts.len() > 0 {
        let rest = starts.drop_last();
        assert forall|k: int| 0 <= k < rest.len() implies 0 <= #[trigger] rest[k] <= input.len() by {
            assert(rest[k] == starts[k]);
        }
        lemma_literal_scan_events(db, lits, ids, input, rest);
        assert(starts.last() == starts[starts.len() - 1]);
        lemma_literal_start_events(db, lits, ids, input, starts.last(), lits.len());
    }
}

/// The first `n` patterns of `a + b` report what those of `a` do.
proof fn lemma_literal_start_events_prefix(
    a: Seq<Seq<u16>>,
    ia: Seq<u32>,
    b: Seq<Seq<u16>>,
    ib: Seq<u32>,
    input: Seq<u16>,
    start: int,
    n: nat,
)
    requires
        a.len() == ia.len(),
        n <= a.len(),
    ensures
        literal_start_events(a + b, ia + ib, input, start, n) == literal_start_events(a, ia, input, start, n),
    decreases n,
{
    if n > 0 {
        lemma_literal_start_events_prefix(a, ia, b, ib, input, start, (n - 1) as nat);
        assert((a + b)[n - 1] == a[n - 1]);
        assert((ia + ib)[n - 1] == ia[n - 1]);
    }
}

/// The patterns of `a + b` report at one start what those of `a` do, then
/// what those of `b` do.
proof fn lemma_literal_start_events_append(
    a: Seq<Seq<u16>>,
    ia: Seq<u32>,
    b: Seq<Seq<u16>>,
    ib: Seq<u32>,
    input: Seq<u16>,
    start: int,
    m: nat,
)
    requires
        a.len() == ia.len(),
        b.len() == ib.len(),
        m <= b.len(),
    ensures
        literal_start_events(a + b, ia + ib, input, start, a.len() + m) == literal_start_events(
            a,
            ia,
            input,
            start,
            a.len(),
        ) + literal_start_events(b, ib, input, start, m),
    decreases m,
{
    if m == 0 {
        lemma_literal_start_events_prefix(a, ia, b, ib, input, start, a.len());
        assert(literal_start_events(b, ib, input, start, 0) == Seq::<(u32, u64, u64)>::empty());
        assert(literal_start_events(a, ia, input, start, a.len()) + Seq::<(u32, u64, u64)>::empty()
            =~= literal_start_events(a, ia, input, start, a.len()));
    } else {
        lemma_literal_start_events_append(a, ia, b, ib, input, start, (m - 1) as nat);
        let k = a.len() + m;
        assert((a + b)[k - 1] == b[m - 1]);
        assert((ia + ib)[k - 1] == ib[m - 1]);
        assert(((a.len() + m) - 1) as nat == a.len() + (m - 1) as nat);
        let front = literal_start_events(a, ia, input, start, a.len());
        let middle = literal_start_events(b, ib, input, start, (m - 1) as nat);
        let piece = if occurs_at(b[m - 1], input, start) {
            seq![(ib[m - 1], start as u64, (start + b[m - 1].len()) as u64)]
        } else {
            seq![]
        };
        assert(front + middle + piece =~= front + (middle + piece));
    }
}

/// What the patterns of `a + b` report over some starts is, as a multiset,
/// what those of `a` report together with what those of `b` report.
pub proof fn lemma_literal_scan_events_append(
    a: Seq<Seq<u16>>,
    ia: Seq<u32>,
    b: Seq<Seq<u16>>,
    ib: Seq<u32>,
    input: Seq<u16>,
    starts: Seq<int>,
)
    requires
        a.len() == ia.len(),
        b.len() == ib.len(),
    ensures
        literal_scan_events(a + b, ia + ib, input, starts).to_multiset() == literal_scan_events(
            a,
            ia,
            input,
            starts,
        ).to_multiset().add(literal_scan_events(b, ib, input, starts).to_multiset()),
    decreases starts.len(),
{
    if starts.len() == 0 {
        let e = Seq::<(u32, u64, u64)>::empty();
        vstd::seq_lib::lemma_multiset_commutative(e, e);
        assert(e + e =~= e);
        } else {
        let rest = starts.drop_last();
        let s = starts.last();
        lemma_literal_scan_events_append(a, ia, b, ib, input, rest);
        lemma_literal_start_events_append(a, ia, b, ib, input, s, b.len());
        let ab_rest = literal_scan_events(a + b, ia + ib, input, rest);
        let a_rest = literal_scan_events(a, ia, input, rest);
        let b_rest = literal_scan_events(b, ib, input, rest);
        let a_here = literal_start_events(a, ia, input, s, a.len());
        let b_here = literal_start_events(b, ib, input, s, b.len());
        assert((a + b).len() == a.len() + b.len());
        vstd::seq_lib::lemma_multiset_commutative(ab_rest, a_here + b_here);
        vstd::seq_lib::lemma_multiset_commutative(a_here, b_here);
        vstd::seq_lib::lemma_multiset_commutative(a_rest, a_here);
        vstd::seq_lib::lemma_multiset_commutative(b_rest, b_here);
        assert(literal_scan_events(a + b, ia + ib, input, starts).to_multiset() =~= a_rest.to_multiset().add(
            a_here.to_multiset(),
        ).add(b_rest.to_multiset().add(b_here.to_multiset())));
    }
}

/// A plain literal holds no assertion.
pub proof fn lemma_literal_assertion_free(h: Hir)
    requires
        literal_units(h) is Some,
    ensures
        !crate::hir::uses_assertions_spec(h),
{
    if let Hir::Sequence(v) = h {
        lemma_symbols_assertion_free(v@);
    }
}

proof fn lemma_symbols_assertion_free(s: Seq<Hir>)
    requires
        forall|m: int| 0 <= m < s.len() ==> #[trigger] s[m] is Symbol,
    ensures
        !crate::hir::any_uses_assertions(s),
    decreases s.len(),
{
    if s.len() > 0 {
        let rest = s.drop_last();
        assert forall|m: int| 0 <= m < rest.len() implies #[trigger] rest[m] is Symbol by {
            assert(rest[m] == s[m]);
        }
        lemma_symbols_assertion_free(rest);
        assert(s[s.len() - 1] is Symbol);
        assert(s.last() == s[s.len() - 1]);
        assert(!crate::hir::uses_assertions_spec(s.last()));
    }
}

} // verus!
