//! Zero-width closures and one-unit transitions over the automaton.
use vstd::prelude::*;

use crate::hir::Assertion;
use crate::nfa::{EdgeKind, PatternDatabase, StateId};
use crate::predicate::is_ascii_word_spec;
use crate::semantics::{
    assertion_holds, closed_under, closure, consumed, consumes, follows, is_word_boundary_spec,
    lemma_closure_closed, lemma_closure_empty, lemma_closure_least, word_at, zero_width_edge,
};

verus! {

/// A zero-width context as the specification reads it.
pub open spec fn context_view(context: Option<(usize, bool)>) -> Option<(int, bool)> {
    match context {
        Some((position, after)) => Some((position as int, after)),
        None => None,
    }
}

/// A context lies within the input.
pub open spec fn context_in_bounds(context: Option<(usize, bool)>, length: int) -> bool {
    context matches Some((position, _)) ==> position <= length
}

/// States whose mark equals `generation`.
pub open spec fn marked(marks: Seq<u32>, generation: u32) -> Set<StateId> {
    Set::new(|s: StateId| (s.0 as int) < marks.len() && marks[s.0 as int] == generation)
}

/// Every state of `states` exists in the database.
pub open spec fn states_in_range(states: Seq<StateId>, count: nat) -> bool {
    forall|i: int| 0 <= i < states.len() ==> (#[trigger] states[i].0 as int) < count
}

/// Number of states below `n` not marked with `generation`.
pub open spec fn unmarked_count(marks: Seq<u32>, generation: u32, n: nat) -> nat
    decreases n,
{
    if n == 0 {
        0
    } else {
        unmarked_count(marks, generation, (n - 1) as nat) + if marks[n - 1] != generation {
            1nat
        } else {
            0nat
        }
    }
}

proof fn lemma_mark_decreases(marks: Seq<u32>, generation: u32, n: nat, i: int)
    requires
        0 <= i < n <= marks.len(),
        marks[i] != generation,
    ensures
        unmarked_count(marks.update(i, generation), generation, n) + 1 == unmarked_count(
            marks,
            generation,
            n,
        ),
    decreases n,
{
    if i < n - 1 {
        lemma_mark_decreases(marks, generation, (n - 1) as nat, i);
    } else {
        lemma_unchanged_prefix(marks, marks.update(i, generation), generation, (n - 1) as nat);
    }
}

proof fn lemma_unchanged_prefix(a: Seq<u32>, b: Seq<u32>, generation: u32, n: nat)
    requires
        n <= a.len(),
        n <= b.len(),
        forall|i: int| 0 <= i < n ==> a[i] == b[i],
    ensures
        unmarked_count(a, generation, n) == unmarked_count(b, generation, n),
    decreases n,
{
    if n > 0 {
        lemma_unchanged_prefix(a, b, generation, (n - 1) as nat);
    }
}

/// Whether an ASCII word unit occurs at `index`.
pub fn is_ascii_word(symbol: u16) -> (word: bool)
    ensures
        word == is_ascii_word_spec(symbol),
{
    (0x30 <= symbol && symbol <= 0x39) || (0x41 <= symbol && symbol <= 0x5a) || symbol == 0x5f || (
    0x61 <= symbol && symbol <= 0x7a)
}

/// Whether exactly one side of `position` is an ASCII word unit.
pub fn is_word_boundary(input: &[u16], position: usize) -> (boundary: bool)
    ensures
        boundary == is_word_boundary_spec(input@, position as int),
{
    let before = position > 0 && position - 1 < input.len() && is_ascii_word(input[position - 1]);
    let after = position < input.len() && is_ascii_word(input[position]);
    before != after
}

/// Whether `assertion` holds at `position`.
pub fn assertion_matches(assertion: Assertion, input: &[u16], position: usize, after_current: bool) -> (holds:
    bool)
    ensures
        holds == assertion_holds(assertion, input@, position as int, after_current),
{
    match assertion {
        Assertion::LineStart => position == 0 || (position - 1 < input.len() && input[position
            - 1] == 0x0a),
        Assertion::LineEnd => after_current && (position == input.len() || (position
            < input.len() && input[position] == 0x0a)),
        Assertion::WordBoundary => is_word_boundary(input, position),
        Assertion::NonWordBoundary => !is_word_boundary(input, position),
    }
}

fn follows_without_consuming(kind: EdgeKind, input: &[u16], context: Option<(usize, bool)>) -> (followed:
    bool)
    ensures
        followed == follows(kind, input@, context_view(context)),
{
    match kind {
        EdgeKind::Epsilon => true,
        EdgeKind::Assertion(assertion) => match context {
            Some((position, after)) => assertion_matches(assertion, input, position, after),
            None => false,
        },
        _ => false,
    }
}

/// Adds the closure of `seed` to `output`, marking each added state with
/// `generation`. The marked states are exactly `output`, before and after.
pub fn extend_closure(
    db: &PatternDatabase,
    input: &[u16],
    context: Option<(usize, bool)>,
    seed: StateId,
    output: &mut Vec<StateId>,
    marks: &mut Vec<u32>,
    generation: u32,
    stack: &mut Vec<StateId>,
)
    requires
        db.well_formed(),
        (seed.0 as int) < db.state_count_spec(),
        old(marks)@.len() == db.state_count_spec(),
        old(output)@.no_duplicates(),
        states_in_range(old(output)@, db.state_count_spec()),
        old(output)@.to_set() == marked(old(marks)@, generation),
        closed_under(*db, input@, context_view(context), old(output)@.to_set()),
    ensures
        final(marks)@.len() == old(marks)@.len(),
        final(output)@.no_duplicates(),
        states_in_range(final(output)@, db.state_count_spec()),
        final(output)@.to_set() == marked(final(marks)@, generation),
        final(output)@.to_set() == old(output)@.to_set().union(
            closure(*db, input@, context_view(context), set![seed]),
        ),
        closed_under(*db, input@, context_view(context), final(output)@.to_set()),
        forall|i: int|
            0 <= i < final(marks)@.len() ==> #[trigger] final(marks)@[i] == old(marks)@[i]
                || final(marks)@[i] == generation,
{
    let ghost ctx = context_view(context);
    let ghost old_set = output@.to_set();
    let ghost cl = closure(*db, input@, ctx, set![seed]);
    let ghost n = db.state_count_spec();
    proof {
        lemma_closure_closed(*db, input@, ctx, set![seed]);
    }
    if marks[seed.0 as usize] == generation {
        proof {
            assert(old_set.contains(seed));
            lemma_closure_least(*db, input@, ctx, set![seed], old_set);
            assert(old_set.union(cl) =~= old_set);
        }
        return;
    }
    stack.clear();
    marks.set(seed.0 as usize, generation);
    stack.push(seed);
    proof {
        assert(stack@ =~= Seq::<StateId>::empty().push(seed));
        Seq::<StateId>::empty().lemma_push_to_set_commute(seed);
        assert(Seq::<StateId>::empty().to_set() =~= Set::<StateId>::empty());
        assert(stack@.to_set() =~= set![seed]);
        assert(marked(marks@, generation) =~= marked(old(marks)@, generation).insert(seed));
        assert(marked(marks@, generation) =~= old_set.union(stack@.to_set()));
        assert forall|i: int, j: int| 0 <= i < output@.len() && 0 <= j < stack@.len() implies output@[i] != stack@[j] by {
            assert(old_set.contains(output@[i]));
        }
    }
    while stack.len() > 0
        invariant
            db.well_formed(),
            n == db.state_count_spec(),
            ctx == context_view(context),
            cl == closure(*db, input@, ctx, set![seed]),
            closed_under(*db, input@, ctx, cl),
            set![seed].subset_of(cl),
            marks@.len() == n,
            output@.no_duplicates(),
            stack@.no_duplicates(),
            forall|i: int, j: int|
                0 <= i < output@.len() && 0 <= j < stack@.len() ==> output@[i] != stack@[j],
            states_in_range(output@, n),
            states_in_range(stack@, n),
            marked(marks@, generation) == output@.to_set().union(stack@.to_set()),
            old_set.subset_of(output@.to_set()),
            output@.to_set().subset_of(old_set.union(cl)),
            stack@.to_set().subset_of(cl),
            marked(marks@, generation).contains(seed),
            closed_under(*db, input@, ctx, old_set),
            forall|s: StateId, t: StateId|
                #![trigger output@.to_set().contains(s), zero_width_edge(*db, input@, ctx, s, t)]
                output@.to_set().contains(s) && !old_set.contains(s) && zero_width_edge(
                    *db,
                    input@,
                    ctx,
                    s,
                    t,
                ) ==> marked(marks@, generation).contains(t),
            forall|i: int|
                0 <= i < marks@.len() ==> #[trigger] marks@[i] == old(marks)@[i] || marks@[i]
                    == generation,
            old_set == old(output)@.to_set(),
        decreases unmarked_count(marks@, generation, n), stack@.len(),
    {
        let ghost pre_marks = marks@;
        let ghost pre_output = output@;
        let ghost pre_stack = stack@;
        let state = stack.pop().unwrap();
        let ghost popped = stack@;
        proof {
            assert(pre_stack =~= popped.push(state));
            assert(pre_stack.contains(state));
            assert(cl.contains(state));
            assert(!old_set.contains(state)) by {
                if old_set.contains(state) {
                    assert(pre_output.to_set().contains(state));
                    let k = choose|k: int| 0 <= k < pre_output.len() && pre_output[k] == state;
                    assert(pre_stack[pre_stack.len() - 1] == state);
                }
            }
            assert forall|a: int, b: int| 0 <= a < b < popped.len() implies popped[a] != popped[b] by {
                assert(popped[a] == pre_stack[a] && popped[b] == pre_stack[b]);
            }
        }
        output.push(state);
        proof {
            pre_output.lemma_push_to_set_commute(state);
            assert(output@ == pre_output.push(state));
            assert(output@.to_set() =~= pre_output.to_set().insert(state));
            popped.lemma_push_to_set_commute(state);
            assert(pre_stack.to_set() =~= popped.to_set().insert(state));
            assert forall|a: int, b: int| 0 <= a < b < output@.len() implies output@[a] != output@[b] by {
                if b == output@.len() - 1 {
                    assert(output@[b] == state);
                    assert(output@[a] == pre_output[a]);
                    assert(pre_stack[pre_stack.len() - 1] == state);
                }
            }
            assert forall|a: int, b: int| 0 <= a < output@.len() && 0 <= b < popped.len() implies output@[a] != popped[b] by {
                assert(popped[b] == pre_stack[b]);
                if a == output@.len() - 1 {
                    assert(pre_stack[pre_stack.len() - 1] == state);
                    assert(b < pre_stack.len() - 1);
                } else {
                    assert(output@[a] == pre_output[a]);
                }
            }
            assert(marked(marks@, generation) =~= output@.to_set().union(stack@.to_set()));
        }
        let edges = db.edges_from(state);
        let mut j: usize = 0;
        while j < edges.len()
            invariant
                db.well_formed(),
                n == db.state_count_spec(),
                edges@ == db.edge_table()[state.0 as int],
                (state.0 as int) < n,
                j <= edges@.len(),
                ctx == context_view(context),
                cl == closure(*db, input@, ctx, set![seed]),
                closed_under(*db, input@, ctx, cl),
                cl.contains(state),
                marks@.len() == n,
                stack@.no_duplicates(),
                output@.no_duplicates(),
                forall|a: int, b: int|
                    0 <= a < output@.len() && 0 <= b < stack@.len() ==> output@[a] != stack@[b],
                states_in_range(output@, n),
                states_in_range(stack@, n),
                marked(marks@, generation) == output@.to_set().union(stack@.to_set()),
                stack@.to_set().subset_of(cl),
                output@.to_set().contains(state),
                marked(pre_marks, generation).subset_of(marked(marks@, generation)),
                pre_marks.len() == n,
                unmarked_count(marks@, generation, n) + stack@.len() == unmarked_count(
                    pre_marks,
                    generation,
                    n,
                ) + popped.len(),
                stack@.len() >= popped.len(),
                forall|i: int|
                    0 <= i < j && follows(edges@[i].kind, input@, ctx) ==> marked(
                        marks@,
                        generation,
                    ).contains(#[trigger] edges@[i].target),
                forall|i: int|
                    0 <= i < marks@.len() ==> #[trigger] marks@[i] == old(marks)@[i] || marks@[i]
                        == generation,
            decreases edges@.len() - j,
        {
            let edge = edges[j];
            proof {
                assert(db.edge_table()[state.0 as int][j as int] == edge);
                assert((edge.target.0 as int) < n);
            }
            if follows_without_consuming(edge.kind, input, context)
                && marks[edge.target.0 as usize] != generation {
                let ghost prior_marks = marks@;
                let ghost prior_stack = stack@;
                proof {
                    assert(zero_width_edge(*db, input@, ctx, state, edge.target));
                    assert(cl.contains(edge.target));
                    lemma_mark_decreases(prior_marks, generation, n, edge.target.0 as int);
                }
                marks.set(edge.target.0 as usize, generation);
                stack.push(edge.target);
                proof {
                    assert(marked(marks@, generation) =~= marked(prior_marks, generation).insert(
                        edge.target,
                    ));
                    prior_stack.lemma_push_to_set_commute(edge.target);
                    assert(stack@ == prior_stack.push(edge.target));
                    assert(stack@.to_set() =~= prior_stack.to_set().insert(edge.target));
                    assert(!marked(prior_marks, generation).contains(edge.target));
                    assert forall|a: int, b: int| 0 <= a < b < stack@.len() implies stack@[a] != stack@[b] by {
                        if b == stack@.len() - 1 {
                            assert(stack@[a] == prior_stack[a]);
                            assert(prior_stack.to_set().contains(prior_stack[a]));
                        }
                    }
                    assert forall|a: int, b: int| 0 <= a < output@.len() && 0 <= b < stack@.len() implies output@[a] != stack@[b] by {
                        if b == stack@.len() - 1 {
                            assert(output@.to_set().contains(output@[a]));
                        } else {
                            assert(stack@[b] == prior_stack[b]);
                        }
                    }
                    assert(marked(marks@, generation) =~= output@.to_set().union(stack@.to_set()));
                }
            }
            j = j + 1;
        }
        proof {
            assert forall|s: StateId, t: StateId|
                #![trigger output@.to_set().contains(s), zero_width_edge(*db, input@, ctx, s, t)]
                output@.to_set().contains(s) && !old_set.contains(s) && zero_width_edge(
                    *db,
                    input@,
                    ctx,
                    s,
                    t,
                ) implies marked(marks@, generation).contains(t) by {
                if s == state {
                    let k = choose|k: int|
                        0 <= k < db.edge_table()[s.0 as int].len() && (#[trigger] db.edge_table()[s.0 as int][k]).target
                            == t && follows(db.edge_table()[s.0 as int][k].kind, input@, ctx);
                    assert(edges@[k] == db.edge_table()[s.0 as int][k]);
                } else {
                    assert(pre_output.to_set().contains(s));
                    assert(marked(pre_marks, generation).contains(t));
                }
            }
            assert(output@.to_set().subset_of(old_set.union(cl)));
        }
    }
    proof {
        assert(stack@.to_set() =~= Set::<StateId>::empty());
        assert(marked(marks@, generation) =~= output@.to_set());
        let out = output@.to_set();
        assert forall|s: StateId, t: StateId|
            #![trigger out.contains(s), zero_width_edge(*db, input@, ctx, s, t)]
            out.contains(s) && zero_width_edge(*db, input@, ctx, s, t) implies out.contains(t) by {
            if old_set.contains(s) {
                assert(old_set.contains(t));
            }
        }
        assert(closed_under(*db, input@, ctx, out));
        lemma_closure_least(*db, input@, ctx, set![seed], out);
        assert(out =~= old_set.union(cl));
    }
}

/// Computes the closure of the targets of the edges out of `source` that
/// consume `symbol`, marking it with `generation`.
pub fn compute_transition(
    db: &PatternDatabase,
    input: &[u16],
    context: Option<(usize, bool)>,
    source: &[StateId],
    symbol: u16,
    output: &mut Vec<StateId>,
    marks: &mut Vec<u32>,
    generation: u32,
    stack: &mut Vec<StateId>,
)
    requires
        db.well_formed(),
        states_in_range(source@, db.state_count_spec()),
        old(output)@.len() == 0,
        old(marks)@.len() == db.state_count_spec(),
        marked(old(marks)@, generation) == Set::<StateId>::empty(),
    ensures
        final(marks)@.len() == old(marks)@.len(),
        final(output)@.no_duplicates(),
        states_in_range(final(output)@, db.state_count_spec()),
        final(output)@.to_set() == marked(final(marks)@, generation),
        final(output)@.to_set() == closure(
            *db,
            input@,
            context_view(context),
            consumed(*db, source@.to_set(), symbol),
        ),
        forall|i: int|
            0 <= i < final(marks)@.len() ==> #[trigger] final(marks)@[i] == old(marks)@[i]
                || final(marks)@[i] == generation,
{
    let ghost ctx = context_view(context);
    let ghost n = db.state_count_spec();
    let ghost mut seeds: Set<StateId> = Set::empty();
    proof {
        assert(output@.to_set() =~= Set::<StateId>::empty());
        lemma_closure_empty(*db, input@, ctx);
        assert(closed_under(*db, input@, ctx, Set::<StateId>::empty()));
    }
    let mut i: usize = 0;
    while i < source.len()
        invariant
            db.well_formed(),
            n == db.state_count_spec(),
            ctx == context_view(context),
            states_in_range(source@, n),
            i <= source@.len(),
            marks@.len() == n,
            output@.no_duplicates(),
            states_in_range(output@, n),
            output@.to_set() == marked(marks@, generation),
            output@.to_set() == closure(*db, input@, ctx, seeds),
            closed_under(*db, input@, ctx, output@.to_set()),
            forall|t: StateId| seeds.contains(t) ==> consumes(*db, source@.to_set(), symbol, t),
            forall|a: int, b: int|
                #![trigger db.edge_table()[source@[a].0 as int][b]]
                0 <= a < i && 0 <= b < db.edge_table()[source@[a].0 as int].len()
                    && db.edge_matches_spec(db.edge_table()[source@[a].0 as int][b].kind, symbol)
                    ==> seeds.contains(db.edge_table()[source@[a].0 as int][b].target),
            forall|k: int|
                0 <= k < marks@.len() ==> #[trigger] marks@[k] == old(marks)@[k] || marks@[k]
                    == generation,
        decreases source@.len() - i,
    {
        let state = source[i];
        let edges = db.edges_from(state);
        let mut j: usize = 0;
        while j < edges.len()
            invariant
                db.well_formed(),
                n == db.state_count_spec(),
                ctx == context_view(context),
                states_in_range(source@, n),
                i < source@.len(),
                state == source@[i as int],
                edges@ == db.edge_table()[state.0 as int],
                j <= edges@.len(),
                marks@.len() == n,
                output@.no_duplicates(),
                states_in_range(output@, n),
                output@.to_set() == marked(marks@, generation),
                output@.to_set() == closure(*db, input@, ctx, seeds),
                closed_under(*db, input@, ctx, output@.to_set()),
                forall|t: StateId| seeds.contains(t) ==> consumes(*db, source@.to_set(), symbol, t),
                forall|a: int, b: int|
                    #![trigger db.edge_table()[source@[a].0 as int][b]]
                    0 <= a < i && 0 <= b < db.edge_table()[source@[a].0 as int].len()
                        && db.edge_matches_spec(db.edge_table()[source@[a].0 as int][b].kind, symbol)
                        ==> seeds.contains(db.edge_table()[source@[a].0 as int][b].target),
                forall|b: int|
                    0 <= b < j && db.edge_matches_spec(edges@[b].kind, symbol) ==> seeds.contains(
                        #[trigger] edges@[b].target,
                    ),
                forall|k: int|
                    0 <= k < marks@.len() ==> #[trigger] marks@[k] == old(marks)@[k] || marks@[k]
                        == generation,
            decreases edges@.len() - j,
        {
            let edge = edges[j];
            proof {
                assert(db.edge_table()[state.0 as int][j as int] == edge);
            }
            if db.edge_matches(edge.kind, symbol) {
                let ghost before_seeds = seeds;
                extend_closure(db, input, context, edge.target, output, marks, generation, stack);
                proof {
                    seeds = seeds.insert(edge.target);
                    assert(source@.to_set().contains(state));
                    assert(consumes(*db, source@.to_set(), symbol, edge.target));
                    lemma_closure_union(*db, input@, ctx, before_seeds, edge.target);
                }
            }
            j = j + 1;
        }
        proof {
            assert forall|a: int, b: int|
                #![trigger db.edge_table()[source@[a].0 as int][b]]
                0 <= a < i + 1 && 0 <= b < db.edge_table()[source@[a].0 as int].len()
                    && db.edge_matches_spec(db.edge_table()[source@[a].0 as int][b].kind, symbol)
                    implies seeds.contains(db.edge_table()[source@[a].0 as int][b].target) by {
                if a == i {
                    assert(edges@[b] == db.edge_table()[source@[a].0 as int][b]);
                }
            }
        }
        i = i + 1;
    }
    proof {
        assert forall|t: StateId| consumes(*db, source@.to_set(), symbol, t) implies seeds.contains(t) by {
            let (s, b) = choose|s: StateId, b: int|
                #![trigger source@.to_set().contains(s), db.edge_table()[s.0 as int][b]]
                source@.to_set().contains(s) && 0 <= b < db.edge_table()[s.0 as int].len()
                    && db.edge_table()[s.0 as int][b].target == t && db.edge_matches_spec(
                    db.edge_table()[s.0 as int][b].kind,
                    symbol,
                );
            let a = choose|a: int| 0 <= a < source@.len() && source@[a] == s;
            assert(db.edge_table()[source@[a].0 as int][b] == db.edge_table()[s.0 as int][b]);
        }
        assert(seeds =~= consumed(*db, source@.to_set(), symbol));
    }
}

/// Closures distribute over unions of seeds.
proof fn lemma_closure_union(
    db: PatternDatabase,
    input: Seq<u16>,
    context: Option<(int, bool)>,
    seeds: Set<StateId>,
    extra: StateId,
)
    ensures
        closure(db, input, context, seeds).union(closure(db, input, context, set![extra]))
            == closure(db, input, context, seeds.insert(extra)),
{
    let left = closure(db, input, context, seeds);
    let right = closure(db, input, context, set![extra]);
    let both = closure(db, input, context, seeds.insert(extra));
    assert forall|t: StateId| both.contains(t) implies left.union(right).contains(t) by {
        let path = choose|path: Seq<StateId>|
            #[trigger] crate::semantics::is_zero_width_path(db, input, context, path) && seeds.insert(
                extra,
            ).contains(path[0]) && path.last() == t;
        if path[0] == extra {
            assert(set![extra].contains(path[0]));
        } else {
            assert(seeds.contains(path[0]));
        }
    }
    assert forall|t: StateId| left.union(right).contains(t) implies both.contains(t) by {
        if left.contains(t) {
            let path = choose|path: Seq<StateId>|
                #[trigger] crate::semantics::is_zero_width_path(db, input, context, path)
                    && seeds.contains(path[0]) && path.last() == t;
            assert(seeds.insert(extra).contains(path[0]));
        } else {
            let path = choose|path: Seq<StateId>|
                #[trigger] crate::semantics::is_zero_width_path(db, input, context, path)
                    && set![extra].contains(path[0]) && path.last() == t;
            assert(seeds.insert(extra).contains(path[0]));
        }
    }
    assert(left.union(right) =~= both);
}

} // verus!
