use rustmatch::nfa::{compile, Edge, EdgeKind, PatternDatabase, StateId};
use rustmatch::parser::parse;
use rustmatch::{Error, PatternId};

fn all_edges(database: &PatternDatabase) -> Result<Vec<Edge>, Error> {
    let mut edges = Vec::new();
    for state_index in 0..database.state_count() {
        let state = StateId::for_index(state_index)?;
        edges.extend_from_slice(database.edges_from(state));
    }
    Ok(edges)
}

fn terminal_total(database: &PatternDatabase) -> Result<usize, Error> {
    Ok((0..database.state_count())
        .map(StateId::for_index)
        .collect::<Result<Vec<_>, _>>()?
        .iter()
        .map(|&state| database.terminals_at(state).len())
        .sum::<usize>())
}

#[test]
fn compiled_literal_has_dense_valid_shared_nfa() -> Result<(), Error> {
    let patterns = [parse(PatternId::new(1), "cat")?];

    let database = compile(&patterns)?;

    assert_eq!(database.root().index(), 0);
    assert_eq!(database.state_count(), 5);
    assert_eq!(database.pattern_count(), 1);
    assert_eq!(database.edges_from(database.root()).len(), 1);
    assert_eq!(
        database.edges_from(database.root())[0].kind,
        EdgeKind::Epsilon
    );
    for state_index in 0..database.state_count() {
        let state = StateId::for_index(state_index)?;
        for edge in database.edges_from(state) {
            assert!(edge.target.index() < database.state_count());
        }
        for &ordinal in database.terminals_at(state) {
            assert!(ordinal < database.pattern_count());
        }
    }
    assert_eq!(terminal_total(&database)?, 1);
    assert_eq!(database.terminal_count(), 1);
    Ok(())
}

#[test]
fn equal_dot_predicates_are_interned_once() -> Result<(), Error> {
    let patterns = [
        parse(PatternId::new(1), ".")?,
        parse(PatternId::new(2), "a.")?,
    ];

    let database = compile(&patterns)?;
    let predicate_edges: Vec<_> = all_edges(&database)?
        .iter()
        .filter_map(|edge| match edge.kind {
            EdgeKind::Predicate(id) => Some(id),
            EdgeKind::Epsilon | EdgeKind::Assertion(_) | EdgeKind::Symbol(_) => None,
        })
        .collect();

    assert_eq!(database.predicate_count(), 1);
    assert_eq!(predicate_edges.len(), 2);
    assert!(predicate_edges.windows(2).all(|ids| ids[0] == ids[1]));
    Ok(())
}

#[test]
fn assertion_metadata_selects_the_contextual_scan_only_when_needed() -> Result<(), Error> {
    let literal = [parse(PatternId::new(1), "a")?];
    let anchored = [parse(PatternId::new(2), "^a")?];

    let literal_database = compile(&literal)?;
    let anchored_database = compile(&anchored)?;

    assert!(!literal_database.uses_assertions());
    assert!(anchored_database.uses_assertions());
    assert!(
        all_edges(&anchored_database)?
            .iter()
            .any(|edge| matches!(edge.kind, EdgeKind::Assertion(_)))
    );
    Ok(())
}

#[test]
fn alternation_branches_and_converges_with_dense_valid_edges() -> Result<(), Error> {
    let patterns = [parse(PatternId::new(1), "a|(bc|d)")?];

    let database = compile(&patterns)?;
    let first = database.edges_from(database.root())[0].target;
    let branch_edges = database.edges_from(first);

    assert_eq!(branch_edges.len(), 3);
    assert!(
        branch_edges
            .iter()
            .all(|edge| edge.kind != EdgeKind::Epsilon)
    );
    for state_index in 0..database.state_count() {
        let state = StateId::for_index(state_index)?;
        assert!(
            database
                .edges_from(state)
                .iter()
                .all(|edge| edge.target.index() < database.state_count())
        );
    }
    assert_eq!(terminal_total(&database)?, 1);
    Ok(())
}

#[test]
fn open_repetition_compiles_a_reachable_consuming_cycle() -> Result<(), Error> {
    let patterns = [parse(PatternId::new(1), "(ab)+")?];

    let database = compile(&patterns)?;
    let has_epsilon_back_edge = (0..database.state_count()).any(|source| {
        let state = StateId::for_index(source).expect("bounded test database");
        database
            .edges_from(state)
            .iter()
            .any(|edge| matches!(edge.kind, EdgeKind::Epsilon) && edge.target.index() <= source)
    });

    let edges = all_edges(&database)?;
    assert!(has_epsilon_back_edge);
    assert!(edges.iter().any(|edge| edge.kind == EdgeKind::Symbol(u16::from(b'a'))));
    assert!(edges.iter().any(|edge| edge.kind == EdgeKind::Symbol(u16::from(b'b'))));
    Ok(())
}

#[test]
fn pattern_ordinals_map_back_to_registered_ids() -> Result<(), Error> {
    let patterns = [
        parse(PatternId::new(70), "x")?,
        parse(PatternId::new(3), "y")?,
    ];
    let database = compile(&patterns)?;
    assert_eq!(database.pattern_id(0), PatternId::new(70));
    assert_eq!(database.pattern_id(1), PatternId::new(3));
    assert!(database.retained_bytes() > 0);
    assert_eq!(database.edge_count(), all_edges(&database)?.len());
    Ok(())
}
