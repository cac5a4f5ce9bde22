//! The public lifecycle: register patterns, build a matcher, scan inputs.
use std::collections::HashSet;
use vstd::prelude::*;

use crate::cohort::{cohort_ids, CohortDiagnostics};
use crate::engine::{
    add_spec, add_usize, event_views, planned_starts, collect_with_stats, deliver, ScanStats,
    DEFAULT_STATE_CACHE_BUDGET,
};
use crate::error::Error;
use crate::hir::{hir_well_formed, uses_assertions_spec, HirPattern};
use crate::language::{
    lemma_contains_left, lemma_contains_right, lemma_literal_matches, lemma_literal_scan_events,
    lemma_literal_scan_events_append,
    literal_scan_events, literal_start_events, matches_spec, occurs_at,
    sequences_nonempty,
};
use crate::language::literal_units;
use crate::nfa::{
    all_literal, compile, fits_identifiers, lemma_patterns_need_append, lemma_patterns_need_subrange, literal_shape,
    pattern_literals, patterns_predicate_need, patterns_state_need, reports_matches, saturate, PatternDatabase,
};
use crate::parser::{
    has_case_flag_prefix, is_literal_hir, parse_with_flags, plain_from, quantified_outcome, quantified_text,
    spells_literal,
};
use crate::prefilter::{
    admitted_starts, lemma_literal_admitted, lemma_literal_prefix, necessary_prefix_spec, set_positions, Prefilter,
    PrefilterBypass, PrefilterPath, MIN_LITERAL_INPUT_UNITS,
};
use crate::semantics::expected_events;
use crate::types::{utf16_of_chars, Match, PatternFlags, PatternId, Utf16Text};

verus! {

broadcast use vstd::std_specs::hash::group_hash_axioms;

/// Collects and validates patterns before compiling an immutable matcher.
///
/// A rejected registration leaves the builder usable. Pattern IDs must be
/// unique, while equal pattern text may use different IDs.
#[derive(Debug)]
pub struct MatcherBuilder {
    pattern_ids: HashSet<u32>,
    patterns: Vec<HirPattern>,
    state_cache_budget: usize,
    worker_count: usize,
    prefilter_enabled: bool,
    literal_prefilter_enabled: bool,
    cohort_compilation_enabled: bool,
}

impl Default for MatcherBuilder {
    /// An empty builder with the default options, as `MatcherBuilder::new`.
    fn default() -> (builder: Self)
        ensures
            builder.well_formed(),
            builder.patterns_spec().len() == 0,
            builder.budget_spec() == DEFAULT_STATE_CACHE_BUDGET,
            builder.worker_count_spec() == 1,
            builder.prefilter_spec(),
            builder.literal_prefilter_spec(),
            !builder.cohort_spec(),
    {
        MatcherBuilder::new()
    }
}

/// Identities of `patterns`, in registration order.
pub open spec fn ids_of(patterns: Seq<HirPattern>) -> Seq<u32> {
    patterns.map_values(|p: HirPattern| p.pattern_id_spec()@)
}

impl MatcherBuilder {
    /// Registered patterns, in registration order.
    pub closed spec fn patterns_spec(&self) -> Seq<HirPattern> {
        self.patterns@
    }

    /// Requested cache budget.
    pub closed spec fn budget_spec(&self) -> usize {
        self.state_cache_budget
    }

    /// Requested worker count.
    pub closed spec fn worker_count_spec(&self) -> usize {
        self.worker_count
    }

    /// Whether start selection is enabled.
    pub closed spec fn prefilter_spec(&self) -> bool {
        self.prefilter_enabled
    }

    /// Whether the literal layer of start selection is enabled.
    pub closed spec fn literal_prefilter_spec(&self) -> bool {
        self.literal_prefilter_enabled
    }

    /// Whether cohort compilation is enabled.
    pub closed spec fn cohort_spec(&self) -> bool {
        self.cohort_compilation_enabled
    }

    /// The identity set mirrors the registered patterns, which are all well
    /// formed.
    pub closed spec fn well_formed(&self) -> bool {
        &&& self.pattern_ids@ == ids_of(self.patterns@).to_set()
        &&& forall|i: int| 0 <= i < self.patterns@.len() ==> hir_well_formed(#[trigger] self.patterns@[i].expression_spec())
    }

    /// Creates an empty matcher builder.
    pub fn new() -> (builder: Self)
        ensures
            builder.well_formed(),
            builder.patterns_spec().len() == 0,
            builder.budget_spec() == DEFAULT_STATE_CACHE_BUDGET,
            builder.worker_count_spec() == 1,
            builder.prefilter_spec(),
            builder.literal_prefilter_spec(),
            !builder.cohort_spec(),
    {
        let builder = MatcherBuilder {
            pattern_ids: HashSet::new(),
            patterns: Vec::new(),
            state_cache_budget: DEFAULT_STATE_CACHE_BUDGET,
            worker_count: 1,
            prefilter_enabled: true,
            literal_prefilter_enabled: true,
            cohort_compilation_enabled: false,
        };
        proof {
            assert(ids_of(builder.patterns@).to_set() =~= Set::<u32>::empty());
        }
        builder
    }

    /// Sets the maximum number of lazy deterministic states used by one scan.
    ///
    /// A budget of zero disables the cache; the budget changes resource use,
    /// never matching semantics.
    pub fn state_cache_budget(&mut self, state_budget: usize) -> (builder: &mut Self)
        ensures
            builder.budget_spec() == state_budget,
            builder.patterns_spec() == old(self).patterns_spec(),
            builder.well_formed() == old(self).well_formed(),
            builder.worker_count_spec() == old(self).worker_count_spec(),
            builder.prefilter_spec() == old(self).prefilter_spec(),
            builder.literal_prefilter_spec() == old(self).literal_prefilter_spec(),
            builder.cohort_spec() == old(self).cohort_spec(),
            *final(self) == *final(builder),
    {
        self.state_cache_budget = state_budget;
        self
    }

    /// Sets the requested number of pattern partitions; zero is rejected by
    /// `build`.
    pub fn worker_count(&mut self, worker_count: usize) -> (builder: &mut Self)
        ensures
            builder.worker_count_spec() == worker_count,
            builder.patterns_spec() == old(self).patterns_spec(),
            builder.well_formed() == old(self).well_formed(),
            builder.budget_spec() == old(self).budget_spec(),
            builder.prefilter_spec() == old(self).prefilter_spec(),
            builder.literal_prefilter_spec() == old(self).literal_prefilter_spec(),
            builder.cohort_spec() == old(self).cohort_spec(),
            *final(self) == *final(builder),
    {
        self.worker_count = worker_count;
        self
    }

    /// Enables or disables all candidate-start selection.
    pub fn prefilter_enabled(&mut self, enabled: bool) -> (builder: &mut Self)
        ensures
            builder.prefilter_spec() == enabled,
            builder.patterns_spec() == old(self).patterns_spec(),
            builder.well_formed() == old(self).well_formed(),
            builder.budget_spec() == old(self).budget_spec(),
            builder.worker_count_spec() == old(self).worker_count_spec(),
            builder.literal_prefilter_spec() == old(self).literal_prefilter_spec(),
            builder.cohort_spec() == old(self).cohort_spec(),
            *final(self) == *final(builder),
    {
        self.prefilter_enabled = enabled;
        self
    }

    /// Enables or disables only the necessary-literal layer.
    pub fn literal_prefilter_enabled(&mut self, enabled: bool) -> (builder: &mut Self)
        ensures
            builder.literal_prefilter_spec() == enabled,
            builder.patterns_spec() == old(self).patterns_spec(),
            builder.well_formed() == old(self).well_formed(),
            builder.budget_spec() == old(self).budget_spec(),
            builder.worker_count_spec() == old(self).worker_count_spec(),
            builder.prefilter_spec() == old(self).prefilter_spec(),
            builder.cohort_spec() == old(self).cohort_spec(),
            *final(self) == *final(builder),
    {
        self.literal_prefilter_enabled = enabled;
        self
    }

    /// Enables cohort compilation, which splits assertion-free and
    /// assertion-bearing patterns into separate partitions.
    pub fn cohort_compilation_enabled(&mut self, enabled: bool) -> (builder: &mut Self)
        ensures
            builder.cohort_spec() == enabled,
            builder.patterns_spec() == old(self).patterns_spec(),
            builder.well_formed() == old(self).well_formed(),
            builder.budget_spec() == old(self).budget_spec(),
            builder.worker_count_spec() == old(self).worker_count_spec(),
            builder.prefilter_spec() == old(self).prefilter_spec(),
            builder.literal_prefilter_spec() == old(self).literal_prefilter_spec(),
            *final(self) == *final(builder),
    {
        self.cohort_compilation_enabled = enabled;
        self
    }

    /// Classifies the registered patterns without changing compilation.
    pub fn cohort_diagnostics(&self) -> (diagnostics: CohortDiagnostics)
        requires
            self.well_formed(),
        ensures
            diagnostics.patterns_spec().len() == self.patterns_spec().len(),
            forall|i: int|
                0 <= i < self.patterns_spec().len() ==> (#[trigger] diagnostics.patterns_spec()[i]).describes(
                    i as usize,
                    self.patterns_spec()[i],
                ),
            diagnostics.free_ids_spec() == cohort_ids(self.patterns_spec(), false),
            diagnostics.bearing_ids_spec() == cohort_ids(self.patterns_spec(), true),
    {
        CohortDiagnostics::classify(&self.patterns)
    }

    /// Registers one caller-identified pattern.
    pub fn add(&mut self, pattern_id: PatternId, pattern: &str) -> (added: Result<(), Error>)
        requires
            old(self).well_formed(),
        ensures
            final(self).well_formed(),
            registration_outcome(*old(self), *final(self), pattern_id, utf16_of_chars(pattern@), false, added),
    {
        self.add_with_flags(pattern_id, pattern, PatternFlags::none())
    }

    /// Registers one pattern with explicit compile-time options. A rejected
    /// registration does not modify the builder.
    pub fn add_with_flags(&mut self, pattern_id: PatternId, pattern: &str, flags: PatternFlags) -> (added:
        Result<(), Error>)
        requires
            old(self).well_formed(),
        ensures
            final(self).well_formed(),
            registration_outcome(
                *old(self),
                *final(self),
                pattern_id,
                utf16_of_chars(pattern@),
                flags.is_case_insensitive_spec(),
                added,
            ),
    {
        let key = pattern_id.get();
        proof {
            assert(ids_of(self.patterns@).to_set().contains(key) == ids_of(self.patterns@).contains(key));
        }
        if self.pattern_ids.contains(&key) {
            return Err(Error::DuplicatePatternId { pattern_id });
        }
        let parsed = match parse_with_flags(pattern_id, pattern, flags) {
            Ok(parsed) => parsed,
            Err(error) => return Err(error),
        };
        let ghost before = *self;
        self.pattern_ids.insert(key);
        self.patterns.push(parsed);
        proof {
            assert(ids_of(self.patterns@) =~= ids_of(before.patterns@).push(key));
            ids_of(before.patterns@).lemma_push_to_set_commute(key);
            assert(ids_of(self.patterns@).to_set() =~= ids_of(before.patterns@).to_set().insert(key));
            assert(self.patterns@.drop_last() =~= before.patterns@);
        }
        Ok(())
    }
}

/// Registering quantified text from `from` on appends the normalized sequence
/// of its tokens, or is refused as invalid where that cannot consume input.
pub open spec fn quantified_registration(
    units: Seq<u16>,
    folded: bool,
    from: int,
    pattern_id: PatternId,
    after: MatcherBuilder,
    added: Result<(), Error>,
) -> bool {
    ||| added is Ok && quantified_outcome(units, folded, from, after.patterns_spec().last().expression_spec())
    ||| added matches Err(Error::InvalidPattern { pattern_id: id, span }) && id == pattern_id && span@
        == (0u64, units.len() as u64) && exists|h: crate::hir::Hir| #[trigger]
        quantified_outcome(units, folded, from, h) && !crate::hir::can_consume_spec(h)
}

/// Registering a pattern whose text from `from` on is one well-formed
/// alternation appends the normalized alternation of the branches it spells,
/// or is refused as invalid where that cannot consume input.
pub open spec fn grammar_registration(
    units: Seq<u16>,
    folded: bool,
    from: int,
    pattern_id: PatternId,
    after: MatcherBuilder,
    added: Result<(), Error>,
) -> bool {
    ||| added is Ok && exists|bs: Seq<crate::hir::Hir>, il: Seq<Seq<crate::hir::Hir>>, tl: Seq<Seq<crate::parser::TokenTree>>|
        #[trigger] crate::parser::branches_spell(units, folded, from, 0, bs, il, tl)
            && crate::hir::is_normalized_alternation(bs, after.patterns_spec().last().expression_spec())
    ||| added matches Err(Error::InvalidPattern { pattern_id: id, span }) && id == pattern_id && span@
        == (0u64, units.len() as u64)
}

/// What one registration did: a taken identity is refused, any other
/// failure comes from the parser, and success appends the parsed pattern.
pub open spec fn registration_outcome(
    before: MatcherBuilder,
    after: MatcherBuilder,
    pattern_id: PatternId,
    units: Seq<u16>,
    case_insensitive: bool,
    added: Result<(), Error>,
) -> bool {
    let length = units.len();
    &&& ids_of(before.patterns_spec()).contains(pattern_id@) ==> added == Err::<(), Error>(
        Error::DuplicatePatternId { pattern_id },
    )
    &&& !ids_of(before.patterns_spec()).contains(pattern_id@) && length == 0 ==> added == Err::<
        (),
        Error,
    >(Error::EmptyPattern { pattern_id })
    &&& !ids_of(before.patterns_spec()).contains(pattern_id@) && length > 0 && plain_from(units, 0)
        && !case_insensitive ==> added is Ok && is_literal_hir(
        units,
        after.patterns_spec().last().expression_spec(),
    )
    &&& !ids_of(before.patterns_spec()).contains(pattern_id@) && length > 0 && plain_from(units, 0)
        ==> added is Ok && spells_literal(
        units,
        case_insensitive,
        after.patterns_spec().last().expression_spec(),
    )
    &&& !ids_of(before.patterns_spec()).contains(pattern_id@) && has_case_flag_prefix(units) && length > 4
        && plain_from(units, 4) ==> added is Ok && spells_literal(
        units.subrange(4, length as int),
        true,
        after.patterns_spec().last().expression_spec(),
    )
    &&& !ids_of(before.patterns_spec()).contains(pattern_id@) && length > 0 && quantified_text(units, 0)
        ==> quantified_registration(units, case_insensitive, 0, pattern_id, after, added)
    &&& !ids_of(before.patterns_spec()).contains(pattern_id@) && has_case_flag_prefix(units)
        && quantified_text(units, 4) ==> quantified_registration(units, true, 4, pattern_id, after, added)
    &&& !ids_of(before.patterns_spec()).contains(pattern_id@) && length > 0
        && crate::parser::alternation_text_end(units, 0, 0) == Some(length as int) ==> grammar_registration(
        units,
        case_insensitive,
        0,
        pattern_id,
        after,
        added,
    )
    &&& !ids_of(before.patterns_spec()).contains(pattern_id@) && has_case_flag_prefix(units)
        && crate::parser::alternation_text_end(units, 4, 0) == Some(length as int) ==> grammar_registration(
        units,
        true,
        4,
        pattern_id,
        after,
        added,
    )
    &&& added matches Err(e) ==> after == before && (e == Error::DuplicatePatternId { pattern_id }
        || e == Error::EmptyPattern { pattern_id } || crate::parser::is_pattern_error(e, pattern_id, length as int))
    &&& added is Ok ==> {
        &&& !ids_of(before.patterns_spec()).contains(pattern_id@)
        &&& after.patterns_spec().len() == before.patterns_spec().len() + 1
        &&& after.patterns_spec().drop_last() == before.patterns_spec()
        &&& after.patterns_spec().last().pattern_id_spec() == pattern_id
        &&& after.budget_spec() == before.budget_spec()
        &&& after.worker_count_spec() == before.worker_count_spec()
        &&& after.prefilter_spec() == before.prefilter_spec()
        &&& after.literal_prefilter_spec() == before.literal_prefilter_spec()
        &&& after.cohort_spec() == before.cohort_spec()
    }
}

/// One pattern partition: its database, start selection, and cache share.
pub struct MatcherPartition {
    database: PatternDatabase,
    prefilter: Prefilter,
    state_cache_budget: usize,
    patterns: Ghost<Seq<HirPattern>>,
}

/// No literal occurs at `start`, so nothing is reported there.
proof fn lemma_no_literal_events(lits: Seq<Seq<u16>>, ids: Seq<u32>, input: Seq<u16>, start: int, n: nat)
    requires
        n <= lits.len(),
        forall|q: int| 0 <= q < lits.len() ==> !occurs_at(#[trigger] lits[q], input, start),
    ensures
        literal_start_events(lits, ids, input, start, n) == Seq::<(u32, u64, u64)>::empty(),
    decreases n,
{
    if n > 0 {
        lemma_no_literal_events(lits, ids, input, start, (n - 1) as nat);
        assert(!occurs_at(lits[n - 1], input, start));
    }
}

/// Skipping starts at which no literal occurs changes nothing.
proof fn lemma_filtered_literal_scan(lits: Seq<Seq<u16>>, ids: Seq<u32>, input: Seq<u16>, bits: Seq<bool>, n: int)
    requires
        0 <= n <= bits.len(),
        forall|s: int, q: int|
            0 <= s < bits.len() && !bits[s] && 0 <= q < lits.len() ==> !#[trigger] occurs_at(lits[q], input, s),
    ensures
        literal_scan_events(lits, ids, input, set_positions(bits.take(n)))
            == literal_scan_events(lits, ids, input, crate::semantics::all_starts(n)),
    decreases n,
{
    if n > 0 {
        lemma_filtered_literal_scan(lits, ids, input, bits, n - 1);
        let shorter = bits.take(n - 1);
        assert(bits.take(n).drop_last() =~= shorter);
        assert(bits.take(n).last() == bits[n - 1]);
        let all = crate::semantics::all_starts(n);
        assert(all.drop_last() =~= crate::semantics::all_starts(n - 1));
        assert(all.last() == n - 1);
        if bits[n - 1] {
            let positions = set_positions(bits.take(n));
            assert(positions == set_positions(shorter).push(n - 1));
            assert(positions.drop_last() =~= set_positions(shorter));
        } else {
            assert forall|q: int| 0 <= q < lits.len() implies !occurs_at(#[trigger] lits[q], input, n - 1) by {}
            lemma_no_literal_events(lits, ids, input, n - 1, lits.len());
            assert(literal_scan_events(lits, ids, input, all) =~= literal_scan_events(
                lits,
                ids,
                input,
                crate::semantics::all_starts(n - 1),
            ));
        }
    }
}

impl MatcherPartition {
    /// The partition's tables were compiled from its patterns.
    pub closed spec fn well_formed(&self) -> bool {
        &&& self.database.well_formed()
        &&& self.prefilter.valid(self.database, self.patterns@)
        &&& self.database.pattern_table().len() == self.patterns@.len()
        &&& forall|i: int| 0 <= i < self.patterns@.len() ==> #[trigger] self.database.pattern_table()[i] == self.patterns@[i].pattern_id_spec()
        &&& forall|i: int|
            0 <= i < self.patterns@.len() && sequences_nonempty(#[trigger] self.patterns@[i].expression_spec())
                ==> reports_matches(self.database, i, self.patterns@[i].expression_spec())
        &&& self.database.root_spec().0 == 0
        &&& all_literal(self.patterns@) ==> literal_shape(
            self.database.edge_table(),
            self.database.terminal_table(),
            pattern_literals(self.patterns@),
        )
    }

    /// The compiled database.
    pub closed spec fn database_spec(&self) -> PatternDatabase {
        self.database
    }

    /// The start selection.
    pub closed spec fn prefilter_spec(&self) -> Prefilter {
        self.prefilter
    }

    /// The patterns compiled into this partition.
    pub closed spec fn patterns_spec(&self) -> Seq<HirPattern> {
        self.patterns@
    }

    /// The partition's cache budget.
    pub closed spec fn budget_spec(&self) -> usize {
        self.state_cache_budget
    }

    /// Compiles `patterns` into one partition.
    pub(crate) fn compile(patterns: &[HirPattern], state_cache_budget: usize) -> (partition: Result<MatcherPartition, Error>)
        requires
            forall|i: int| 0 <= i < patterns@.len() ==> hir_well_formed(#[trigger] patterns@[i].expression_spec()),
        ensures
            partition matches Ok(p) ==> p.well_formed() && p.patterns_spec() == patterns@ && p.budget_spec() == state_cache_budget,
            partition matches Err(e) ==> e == Error::PatternSetTooLarge,
            fits_identifiers(patterns@) ==> partition is Ok,
    {
        let database = match compile(patterns) {
            Ok(database) => database,
            Err(error) => return Err(error),
        };
        let prefilter = Prefilter::compile(patterns, &database);
        Ok(MatcherPartition { database, prefilter, state_cache_budget, patterns: Ghost(patterns@) })
    }

    /// A well-formed partition holds a well-formed database.
    pub proof fn lemma_database_well_formed(&self)
        requires
            self.well_formed(),
        ensures
            self.database_spec().well_formed(),
    {
    }

    /// A well-formed partition's tables agree with pattern `ordinal`: its
    /// identity and what its compiled automaton reports.
    pub proof fn lemma_partition_tables(&self, ordinal: int)
        requires
            self.well_formed(),
            0 <= ordinal < self.patterns_spec().len(),
        ensures
            self.database_spec().pattern_table().len() == self.patterns_spec().len(),
            self.database_spec().pattern_table()[ordinal] == self.patterns_spec()[ordinal].pattern_id_spec(),
            sequences_nonempty(self.patterns_spec()[ordinal].expression_spec()) ==> reports_matches(
                self.database_spec(),
                ordinal,
                self.patterns_spec()[ordinal].expression_spec(),
            ),
    {
    }

    /// The compiled database.
    pub fn database(&self) -> (database: &PatternDatabase)
        ensures
            *database == self.database_spec(),
    {
        &self.database
    }

    /// The partition's cache budget.
    pub fn state_cache_budget(&self) -> (budget: usize)
        ensures
            budget == self.budget_spec(),
    {
        self.state_cache_budget
    }

    /// Bytes accounted for the database and start selection, saturating.
    pub open spec fn retained_bytes_spec(&self) -> int {
        saturate(self.database_spec().retained_bytes_spec() + self.prefilter_spec().retained_bytes_spec())
    }

    /// Bytes accounted for the database and start selection, saturating.
    pub fn retained_bytes(&self) -> (bytes: usize)
        requires
            self.well_formed(),
        ensures
            bytes == self.retained_bytes_spec(),
            bytes > 0,
    {
        let database = self.database.retained_bytes();
        let prefilter = self.prefilter.retained_bytes();
        add_usize(database, prefilter)
    }

    /// No match is missed, whichever starts the scan visits: when the
    /// expression of pattern `ordinal` matches `input[start..end]` with at
    /// least one unit, a scan along `path` reports that pattern from `start`
    /// to a position at or after `end`. The literal filter admits every
    /// start at which a match begins.
    pub proof fn lemma_reports_match_on_path(
        self,
        input: Seq<u16>,
        path: PrefilterPath,
        ordinal: int,
        start: int,
        end: int,
    )
        requires
            self.well_formed(),
            path == PrefilterPath::Literal ==> self.prefilter_spec().literal_spec() is Some,
            0 <= ordinal < self.patterns_spec().len(),
            sequences_nonempty(self.patterns_spec()[ordinal].expression_spec()),
            0 <= start < end <= input.len(),
            matches_spec(self.patterns_spec()[ordinal].expression_spec(), input, start, start, end),
        ensures
            exists|e: int|
                end <= e <= input.len() && #[trigger] crate::semantics::scan_events(
                    self.database_spec(),
                    input,
                    planned_starts(self.database_spec(), self.prefilter_spec(), input, path),
                ).contains((self.patterns_spec()[ordinal].pattern_id_spec()@, start as u64, e as u64)),
    {
        let db = self.database;
        let patterns = self.patterns@;
        let h = patterns[ordinal].expression_spec();
        let starts = planned_starts(db, self.prefilter, input, path);
        crate::language::lemma_match_reported(db, input, start, ordinal, h, end);
        let e = crate::semantics::longest_match(db, input, start, ordinal)->0;
        crate::semantics::lemma_longest_end_bounds(db, input, start, ordinal, (input.len() - start) as nat);
        crate::language::lemma_start_events_contain(db, input, start, db.pattern_table().len(), ordinal);
        assert(db.pattern_table()[ordinal] == patterns[ordinal].pattern_id_spec());
        let x = (patterns[ordinal].pattern_id_spec()@, start as u64, e as u64);
        let k = if path == PrefilterPath::Literal {
            let filter = self.prefilter.literal_spec()->0;
            let bits = admitted_starts(filter, input);
            crate::necessary::lemma_match_text(h, input, start, start, end);
            self.prefilter.lemma_literal_records(db, patterns, ordinal);
            let prefix = necessary_prefix_spec(h);
            lemma_literal_admitted(filter, prefix, input, start);
            assert(bits[start]);
            crate::prefilter::lemma_set_positions_contain(bits, start);
            choose|k: int| 0 <= k < starts.len() && starts[k] == start
        } else {
            assert(starts[start] == start);
            start
        };
        crate::language::lemma_scan_events_contain(db, input, starts, k, x);
        assert(end <= e <= input.len());
        assert(crate::semantics::scan_events(
            self.database_spec(),
            input,
            planned_starts(self.database_spec(), self.prefilter_spec(), input, path),
        ).contains((self.patterns_spec()[ordinal].pattern_id_spec()@, start as u64, e as u64)));
    }

    /// A partition whose patterns are all plain literals reports exactly
    /// their occurrences, whichever starts its scan visits: for each start
    /// in order, each literal that occurs there, in registration order,
    /// from the start to the literal's end.
    pub proof fn lemma_literal_events(self, input: Seq<u16>, path: PrefilterPath)
        requires
            self.well_formed(),
            all_literal(self.patterns_spec()),
            path == PrefilterPath::Literal ==> self.prefilter_spec().literal_spec() is Some,
        ensures
            crate::semantics::scan_events(
                self.database_spec(),
                input,
                planned_starts(self.database_spec(), self.prefilter_spec(), input, path),
            ) == literal_scan_events(
                pattern_literals(self.patterns_spec()),
                ids_of(self.patterns_spec()),
                input,
                crate::semantics::all_starts(input.len() as int),
            ),
    {
        let db = self.database;
        let patterns = self.patterns@;
        let lits = pattern_literals(patterns);
        let ids = ids_of(patterns);
        let starts = planned_starts(db, self.prefilter, input, path);
        assert forall|q: int| 0 <= q < lits.len() implies #[trigger] ids[q] == db.pattern_table()[q]@ by {
            assert(db.pattern_table()[q] == patterns[q].pattern_id_spec());
        }
        if path == PrefilterPath::Literal {
            let filter = self.prefilter.literal_spec()->0;
            let bits = admitted_starts(filter, input);
            assert forall|k: int| 0 <= k < starts.len() implies 0 <= #[trigger] starts[k] <= input.len() by {
                crate::engine::lemma_positions_in_range(bits, k);
            }
            lemma_literal_scan_events(db, lits, ids, input, starts);
            assert forall|s: int, q: int|
                0 <= s < bits.len() && !bits[s] && 0 <= q < lits.len() implies !#[trigger] occurs_at(lits[q], input, s) by {
                if occurs_at(lits[q], input, s) {
                    let h = patterns[q].expression_spec();
                    assert(literal_units(h) is Some);
                    self.prefilter.lemma_literal_records(db, patterns, q);
                    lemma_literal_prefix(h);
                    let units = lits[q];
                    let prefix = necessary_prefix_spec(h);
                    assert(prefix == crate::prefilter::cap(units));
                    assert(prefix.len() <= units.len());
                    assert(input.subrange(s, s + prefix.len()) =~= prefix) by {
                        assert forall|x: int| 0 <= x < prefix.len() implies #[trigger] input.subrange(s, s + prefix.len())[x] == prefix[x] by {
                            assert(input.subrange(s, s + units.len())[x] == units[x]);
                        }
                    }
                    lemma_literal_admitted(filter, prefix, input, s);
                    assert(bits[s]);
                }
            }
            assert(bits.take(bits.len() as int) =~= bits);
            lemma_filtered_literal_scan(lits, ids, input, bits, bits.len() as int);
        } else {
            assert forall|k: int| 0 <= k < starts.len() implies 0 <= #[trigger] starts[k] <= input.len() by {}
            lemma_literal_scan_events(db, lits, ids, input, starts);
        }
    }

    /// Scans `input` with this partition's patterns.
    pub fn scan(&self, input: &[u16], prefilter_enabled: bool, literal_prefilter_enabled: bool) -> (result: (Vec<Match>, ScanStats))
        requires
            self.well_formed(),
        ensures
            partition_outcome(*self, input@, prefilter_enabled, literal_prefilter_enabled, result.0@, result.1),
            result.1.prefilter_starts_scanned == crate::engine::visited_start_count(
                self.database_spec(),
                self.prefilter_spec(),
                input@,
                result.1.prefilter_path,
            ),
            all_literal(self.patterns_spec()) ==> event_views(result.0@) == literal_scan_events(
                pattern_literals(self.patterns_spec()),
                ids_of(self.patterns_spec()),
                input@,
                crate::semantics::all_starts(input@.len() as int),
            ),
    {
        proof {
            self.prefilter.lemma_valid_fits(self.database, self.patterns@);
        }
        let result = collect_with_stats(
            &self.database,
            &self.prefilter,
            input,
            self.state_cache_budget,
            prefilter_enabled,
            literal_prefilter_enabled,
        );
        proof {
            if all_literal(self.patterns@) {
                self.lemma_literal_events(input@, result.1.prefilter_path);
            }
        }
        result
    }
}

/// What a partition scan reports: the longest match of each pattern at each
/// start; only the literal filter, when it runs, limits the starts visited.
pub open spec fn partition_outcome(
    partition: MatcherPartition,
    input: Seq<u16>,
    prefilter_enabled: bool,
    literal_prefilter_enabled: bool,
    events: Seq<Match>,
    stats: ScanStats,
) -> bool {
    let db = partition.database_spec();
    &&& stats.prefilter_path == partition.prefilter_spec().planned_path(input, prefilter_enabled, literal_prefilter_enabled)
    &&& event_views(events) == crate::semantics::scan_events(db, input, planned_starts(db, partition.prefilter_spec(), input, stats.prefilter_path))
    &&& stats.prefilter_path != PrefilterPath::Literal ==> event_views(events) == expected_events(db, input)
    &&& stats.prefilter_path == PrefilterPath::Literal ==> prefilter_enabled && literal_prefilter_enabled
        && input.len() >= MIN_LITERAL_INPUT_UNITS && partition.prefilter_spec().literal_spec() is Some
    &&& stats.prefilter_path != PrefilterPath::MixedParallel
}

/// First pattern of partition `i` when `n` patterns split into `k` parts.
pub open spec fn partition_start(n: int, k: int, i: int) -> int {
    i * (n / k) + if i < n % k { i } else { n % k }
}

/// Splitting `n` patterns into `k` partitions covers them all, in order,
/// and partition sizes differ by at most one: the first `n % k` partitions
/// hold one pattern more than the others.
pub proof fn lemma_partitions_cover_and_balance(n: nat, k: nat, i: nat)
    requires
        k > 0,
        i < k,
    ensures
        partition_start(n as int, k as int, 0) == 0,
        partition_start(n as int, k as int, k as int) == n,
        partition_start(n as int, k as int, i + 1int) - partition_start(n as int, k as int, i as int) == n as int / k as int
            + if i < n as int % k as int { 1int } else { 0int },
{
    let q = n as int / k as int;
    let r = n as int % k as int;
    assert(k * q + r == n) by (nonlinear_arith)
        requires
            k > 0,
            q == n as int / k as int,
            r == n as int % k as int,
    {
        vstd::arithmetic::div_mod::lemma_fundamental_div_mod(n as int, k as int);
    }
    assert(r < k) by {
        vstd::arithmetic::div_mod::lemma_mod_bound(n as int, k as int);
    }
    assert((i + 1) * q == i * q + q) by (nonlinear_arith);
    assert(0 * q == 0) by (nonlinear_arith);
}

/// Cache budget of partition `i` when `total` splits into `k` parts.
pub open spec fn budget_share(total: int, k: int, i: int) -> int {
    total / k + if i < total % k { 1int } else { 0int }
}

/// Sum of the first `m` budget shares.
pub open spec fn shares_sum(total: int, k: int, m: nat) -> int
    decreases m,
{
    if m == 0 {
        0
    } else {
        shares_sum(total, k, (m - 1) as nat) + budget_share(total, k, m - 1)
    }
}

/// The budget shares of all partitions add up to the whole budget.
pub proof fn lemma_budget_shares_sum(total: nat, k: nat)
    requires
        k > 0,
    ensures
        shares_sum(total as int, k as int, k) == total,
{
    lemma_shares_prefix(total as int, k as int, k);
    assert(k * (total as int / k as int) + total as int % k as int == total) by (nonlinear_arith)
        requires
            k > 0,
    {
        vstd::arithmetic::div_mod::lemma_fundamental_div_mod(total as int, k as int);
    }
}

proof fn lemma_shares_prefix(total: int, k: int, m: nat)
    requires
        k > 0,
        total >= 0,
    ensures
        shares_sum(total, k, m) == m * (total / k) + if m < total % k { m as int } else { total % k },
    decreases m,
{
    let q = total / k;
    let r = total % k;
    if m > 0 {
        let prev = (m - 1) as nat;
        lemma_shares_prefix(total, k, prev);
        assert(shares_sum(total, k, prev) == prev * q + if prev < r { prev as int } else { r });
        assert(m * q == prev * q + q) by (nonlinear_arith)
            requires
                prev + 1 == m,
        ;
        assert(shares_sum(total, k, m) == shares_sum(total, k, prev) + budget_share(total, k, prev as int));
    } else {
        assert(m * q == 0) by (nonlinear_arith)
            requires
                m == 0,
        ;
    }
}

/// Pattern `x` was compiled into some partition of `parts`.
pub open spec fn holds_pattern(parts: Seq<MatcherPartition>, x: HirPattern) -> bool {
    exists|p: int, o: int|
        0 <= p < parts.len() && 0 <= o < parts[p].patterns_spec().len() && #[trigger] parts[p].patterns_spec()[o]
            == x
}

/// Every pattern of `patterns` was compiled into some partition of `parts`.
pub open spec fn compiles_all(parts: Seq<MatcherPartition>, patterns: Seq<HirPattern>) -> bool {
    forall|r: int| 0 <= r < patterns.len() ==> #[trigger] holds_pattern(parts, patterns[r])
}

/// A pattern of a list whose every pattern was compiled is held by a
/// partition.
proof fn lemma_holds_listed(parts: Seq<MatcherPartition>, patterns: Seq<HirPattern>, x: HirPattern)
    requires
        compiles_all(parts, patterns),
        patterns.contains(x),
    ensures
        holds_pattern(parts, x),
{
    let k = choose|k: int| 0 <= k < patterns.len() && patterns[k] == x;
    assert(holds_pattern(parts, patterns[k]));
}

/// A pattern held by either part is held by their concatenation.
proof fn lemma_holds_append(first: Seq<MatcherPartition>, second: Seq<MatcherPartition>, x: HirPattern)
    requires
        holds_pattern(first, x) || holds_pattern(second, x),
    ensures
        holds_pattern(first + second, x),
{
    let joined = first + second;
    if holds_pattern(first, x) {
        let (p, o) = choose|p: int, o: int|
            0 <= p < first.len() && 0 <= o < first[p].patterns_spec().len() && #[trigger] first[p].patterns_spec()[o] == x;
        assert(joined[p] == first[p]);
        assert(joined[p].patterns_spec()[o] == x);
    } else {
        let (p, o) = choose|p: int, o: int|
            0 <= p < second.len() && 0 <= o < second[p].patterns_spec().len() && #[trigger] second[p].patterns_spec()[o] == x;
        assert(joined[first.len() + p] == second[p]);
        assert(joined[first.len() + p].patterns_spec()[o] == x);
    }
}

/// Reversing a list keeps its members.
proof fn lemma_reverse_contains(s: Seq<HirPattern>, x: HirPattern)
    requires
        s.contains(x),
    ensures
        s.reverse().contains(x),
{
    let k = choose|k: int| 0 <= k < s.len() && s[k] == x;
    assert(s.reverse()[s.len() - 1 - k] == x);
}

/// The partition, from `i` on, whose range holds pattern `r`.
proof fn partition_of(n: nat, k: nat, r: int, i: nat) -> (p: nat)
    requires
        k > 0,
        i < k,
        partition_start(n as int, k as int, i as int) <= r < n,
    ensures
        i <= p < k,
        partition_start(n as int, k as int, p as int) <= r < partition_start(n as int, k as int, p + 1int),
    decreases k - i,
{
    lemma_partitions_cover_and_balance(n, k, i);
    if r < partition_start(n as int, k as int, i + 1int) {
        i
    } else {
        partition_of(n, k, r, i + 1)
    }
}

/// Contiguous, near-equal partitions hold every pattern.
proof fn lemma_contiguous_compiles_all(parts: Seq<MatcherPartition>, patterns: Seq<HirPattern>, count: nat)
    requires
        0 < count <= patterns.len(),
        parts.len() == count,
        forall|i: int| 0 <= i < count ==> (#[trigger] parts[i]).patterns_spec() == patterns.subrange(
            partition_start(patterns.len() as int, count as int, i),
            partition_start(patterns.len() as int, count as int, i + 1),
        ),
    ensures
        compiles_all(parts, patterns),
{
    let n = patterns.len();
    let per = n as int / count as int;
    assert forall|r: int| 0 <= r < n implies #[trigger] holds_pattern(parts, patterns[r]) by {
        assert(0 <= r < n);
        lemma_partitions_cover_and_balance(n, count, 0);
        let part = partition_of(n, count, r, 0);
        lemma_partitions_cover_and_balance(n, count, part);
        let pi = part as int;
        let lo = partition_start(n as int, count as int, pi);
        let hi = partition_start(n as int, count as int, pi + 1);
        let offset = r - lo;
        assert(per >= 0) by {
            vstd::arithmetic::div_mod::lemma_div_pos_is_pos(n as int, count as int);
        }
        assert((pi + 1) * per <= count * per) by (nonlinear_arith)
            requires
                pi + 1 <= count,
                per >= 0,
        ;
        if pi + 1 < count {
            lemma_partitions_cover_and_balance(n, count, (pi + 1) as nat);
        }
        assert(hi <= n);
        assert(parts[pi].patterns_spec() == patterns.subrange(lo, hi));
        assert(parts[pi].patterns_spec()[offset] == patterns[r]);
        assert(0 <= pi < parts.len() && 0 <= offset < parts[pi].patterns_spec().len());
    }
}

/// Contiguous partitions list the patterns in order.
proof fn lemma_contiguous_patterns(parts: Seq<MatcherPartition>, patterns: Seq<HirPattern>, count: nat, k: nat)
    requires
        0 < count <= patterns.len(),
        parts.len() == count,
        k <= count,
        forall|i: int| 0 <= i < count ==> (#[trigger] parts[i]).patterns_spec() == patterns.subrange(
            partition_start(patterns.len() as int, count as int, i),
            partition_start(patterns.len() as int, count as int, i + 1),
        ),
    ensures
        partition_patterns(parts, k) == patterns.subrange(0, partition_start(patterns.len() as int, count as int, k as int)),
    decreases k,
{
    let n = patterns.len();
    if k == 0 {
        lemma_partitions_cover_and_balance(n, count, 0);
        assert(patterns.subrange(0, 0) =~= Seq::<HirPattern>::empty());
    } else {
        lemma_contiguous_patterns(parts, patterns, count, (k - 1) as nat);
        lemma_partitions_cover_and_balance(n, count, (k - 1) as nat);
        let per = n as int / count as int;
        assert(per >= 0) by {
            vstd::arithmetic::div_mod::lemma_div_pos_is_pos(n as int, count as int);
        }
        assert(k * per <= count * per) by (nonlinear_arith)
            requires
                k <= count,
                per >= 0,
        ;
        if k < count {
            lemma_partitions_cover_and_balance(n, count, k);
        }
        let lo = partition_start(n as int, count as int, k - 1);
        let hi = partition_start(n as int, count as int, k as int);
        assert(0 <= lo <= hi <= n);
        assert(parts[k - 1].patterns_spec() == patterns.subrange(lo, hi));
        assert(patterns.subrange(0, lo) + patterns.subrange(lo, hi) =~= patterns.subrange(0, hi));
    }
}

/// Contiguous partitions of plain literals hold only plain literals.
proof fn lemma_contiguous_literal(parts: Seq<MatcherPartition>, patterns: Seq<HirPattern>, count: nat)
    requires
        0 < count <= patterns.len(),
        parts.len() == count,
        forall|i: int| 0 <= i < count ==> (#[trigger] parts[i]).patterns_spec() == patterns.subrange(
            partition_start(patterns.len() as int, count as int, i),
            partition_start(patterns.len() as int, count as int, i + 1),
        ),
        all_literal(patterns),
    ensures
        all_partitions_literal(parts),
{
    let n = patterns.len();
    let per = n as int / count as int;
    assert forall|p: int| 0 <= p < parts.len() implies all_literal(#[trigger] parts[p].patterns_spec()) by {
        lemma_partitions_cover_and_balance(n, count, p as nat);
        let lo = partition_start(n as int, count as int, p);
        let hi = partition_start(n as int, count as int, p + 1);
        assert(per >= 0) by {
            vstd::arithmetic::div_mod::lemma_div_pos_is_pos(n as int, count as int);
        }
        assert((p + 1) * per <= count * per) by (nonlinear_arith)
            requires
                p + 1 <= count,
                per >= 0,
        ;
        if p + 1 < count {
            lemma_partitions_cover_and_balance(n, count, (p + 1) as nat);
        }
        assert(lo <= hi <= n);
        let mine = parts[p].patterns_spec();
        assert forall|i: int| 0 <= i < mine.len() implies #[trigger] literal_units(mine[i].expression_spec()) is Some by {
            assert(mine[i] == patterns[lo + i]);
        }
    }
}

/// Splits the patterns into `min(requested, len)` contiguous partitions of
/// near-equal size and splits the cache budget the same way.
fn compile_partitions(patterns: &[HirPattern], requested_worker_count: usize, total_state_cache_budget: usize) -> (partitions: Result<Vec<MatcherPartition>, Error>)
    requires
        requested_worker_count > 0,
        patterns@.len() > 0,
        forall|i: int| 0 <= i < patterns@.len() ==> hir_well_formed(#[trigger] patterns@[i].expression_spec()),
    ensures
        partitions matches Ok(parts) ==> {
            let k = if requested_worker_count < patterns@.len() { requested_worker_count as int } else { patterns@.len() as int };
            &&& parts@.len() == k
            &&& forall|i: int| 0 <= i < k ==> (#[trigger] parts@[i]).well_formed()
                && parts@[i].budget_spec() == budget_share(total_state_cache_budget as int, k, i)
                && parts@[i].patterns_spec() == patterns@.subrange(
                    partition_start(patterns@.len() as int, k, i),
                    partition_start(patterns@.len() as int, k, i + 1),
                )
            &&& compiles_all(parts@, patterns@)
            &&& all_literal(patterns@) ==> all_partitions_literal(parts@)
            &&& partition_patterns(parts@, parts@.len()) == patterns@
        },
        partitions matches Err(e) ==> e == Error::PatternSetTooLarge,
        fits_identifiers(patterns@) ==> partitions is Ok,
        partitions matches Ok(parts) ==> budget_sum(parts@, 0, parts@.len() as int) == total_state_cache_budget,
{
    let n = patterns.len();
    let count = if requested_worker_count < n { requested_worker_count } else { n };
    let per = n / count;
    let extra = n % count;
    let budget_per = total_state_cache_budget / count;
    let budget_extra = total_state_cache_budget % count;
    let mut partitions: Vec<MatcherPartition> = Vec::new();
    let mut start: usize = 0;
    let mut index: usize = 0;
    proof {
        vstd::arithmetic::div_mod::lemma_fundamental_div_mod(n as int, count as int);
        vstd::arithmetic::div_mod::lemma_fundamental_div_mod(total_state_cache_budget as int, count as int);
    }
    while index < count
        invariant
            count > 0,
            count <= n,
            n == patterns@.len(),
            per == n / count,
            extra == n % count,
            extra < count,
            budget_per == total_state_cache_budget / count,
            budget_extra == total_state_cache_budget % count,
            index <= count,
            count * per + extra == n,
            count * budget_per + budget_extra == total_state_cache_budget,
            start == partition_start(n as int, count as int, index as int),
            start <= n,
            n - start == (count - index) * per + if index < extra { extra - index } else { 0 },
            partitions@.len() == index,
            forall|i: int| 0 <= i < patterns@.len() ==> hir_well_formed(#[trigger] patterns@[i].expression_spec()),
            forall|i: int| 0 <= i < index ==> (#[trigger] partitions@[i]).well_formed()
                && partitions@[i].budget_spec() == budget_share(total_state_cache_budget as int, count as int, i)
                && partitions@[i].patterns_spec() == patterns@.subrange(
                    partition_start(n as int, count as int, i),
                    partition_start(n as int, count as int, i + 1),
                ),
        decreases count - index,
    {
        proof {
            assert(count * per >= per) by (nonlinear_arith)
                requires
                    count >= 1,
                    per >= 0,
            ;
            assert(count * budget_per >= budget_per) by (nonlinear_arith)
                requires
                    count >= 1,
                    budget_per >= 0,
            ;
        }
        let size: usize = per + if index < extra { 1 } else { 0 };
        proof {
            assert((count - index) * per == (count - index - 1) * per + per) by (nonlinear_arith);
            assert((count - index - 1) * per >= 0) by (nonlinear_arith)
                requires
                    count - index - 1 >= 0,
                    per >= 0,
            ;
            assert((index + 1) * per == index * per + per) by (nonlinear_arith);
        }
        let end = start + size;
        let slice = vstd::slice::slice_subrange(patterns, start, end);
        proof {
            lemma_patterns_need_subrange(patterns@, start as int, end as int);
            assert forall|i: int| 0 <= i < slice@.len() implies hir_well_formed(#[trigger] slice@[i].expression_spec()) by {
                assert(slice@[i] == patterns@[start + i]);
            }
        }
        let budget: usize = budget_per + if index < budget_extra { 1 } else { 0 };
        let partition = match MatcherPartition::compile(slice, budget) {
            Ok(partition) => partition,
            Err(error) => return Err(error),
        };
        partitions.push(partition);
        start = end;
        index = index + 1;
    }
    proof {
        lemma_contiguous_compiles_all(partitions@, patterns@, count as nat);
        if all_literal(patterns@) {
            lemma_contiguous_literal(partitions@, patterns@, count as nat);
        }
        lemma_contiguous_patterns(partitions@, patterns@, count as nat, count as nat);
        lemma_budget_sum_shares(partitions@, total_state_cache_budget as nat, count as nat);
        lemma_partitions_cover_and_balance(n as nat, count as nat, 0);
        assert(patterns@.subrange(0, n as int) =~= patterns@);
    }
    Ok(partitions)
}

/// The cache budgets of partitions `from..to`, added.
pub open spec fn budget_sum(parts: Seq<MatcherPartition>, from: int, to: int) -> int
    decreases to - from,
{
    if to <= from {
        0
    } else {
        budget_sum(parts, from, to - 1) + parts[to - 1].budget_spec()
    }
}

/// Partitions whose budgets are the shares of `total` over `k` partitions
/// hold `total` between them.
pub proof fn lemma_budget_sum_shares(parts: Seq<MatcherPartition>, total: nat, k: nat)
    requires
        k > 0,
        parts.len() == k,
        forall|i: int| 0 <= i < k ==> (#[trigger] parts[i]).budget_spec() == budget_share(total as int, k as int, i),
    ensures
        budget_sum(parts, 0, k as int) == total,
{
    lemma_budget_sum_prefix_shares(parts, total, k, k);
    lemma_budget_shares_sum(total, k);
}

proof fn lemma_budget_sum_prefix_shares(parts: Seq<MatcherPartition>, total: nat, k: nat, m: nat)
    requires
        m <= k,
        parts.len() == k,
        forall|i: int| 0 <= i < k ==> (#[trigger] parts[i]).budget_spec() == budget_share(total as int, k as int, i),
    ensures
        budget_sum(parts, 0, m as int) == shares_sum(total as int, k as int, m),
    decreases m,
{
    if m > 0 {
        lemma_budget_sum_prefix_shares(parts, total, k, (m - 1) as nat);
        assert(parts[m - 1].budget_spec() == budget_share(total as int, k as int, m - 1));
    }
}

/// The budgets of two runs of partitions, one after the other, add up.
pub proof fn lemma_budget_sum_append(first: Seq<MatcherPartition>, second: Seq<MatcherPartition>, k: int)
    requires
        0 <= k <= second.len(),
    ensures
        budget_sum(first + second, 0, first.len() + k) == budget_sum(first, 0, first.len() as int) + budget_sum(
            second,
            0,
            k,
        ),
    decreases k,
{
    if k == 0 {
        lemma_budget_sum_prefix(first, second, first.len() as int);
    } else {
        lemma_budget_sum_append(first, second, k - 1);
        assert((first + second)[first.len() + k - 1] == second[k - 1]);
    }
}

proof fn lemma_budget_sum_prefix(first: Seq<MatcherPartition>, second: Seq<MatcherPartition>, j: int)
    requires
        0 <= j <= first.len(),
    ensures
        budget_sum(first + second, 0, j) == budget_sum(first, 0, j),
    decreases j,
{
    if j > 0 {
        lemma_budget_sum_prefix(first, second, j - 1);
        assert((first + second)[j - 1] == first[j - 1]);
    }
}

/// The two cohorts' shares of a budget, split over `free + bearing`
/// partitions, add up to the budget.
pub proof fn lemma_cohort_budgets_sum(total: nat, free: nat, bearing: nat)
    requires
        free > 0,
        bearing > 0,
        total <= usize::MAX,
    ensures
        crate::hir::sat_add(
            crate::hir::sat_mul((total / (free + bearing)) as int, free as int),
            remainder_share(total as int % (free + bearing) as int, 0, free as int),
        ) + crate::hir::sat_add(
            crate::hir::sat_mul((total / (free + bearing)) as int, bearing as int),
            remainder_share(total as int % (free + bearing) as int, free as int, bearing as int),
        ) == total,
{
    let t = (free + bearing) as int;
    let per = total as int / t;
    let r = total as int % t;
    assert(t * per + r == total && 0 <= r < t && per >= 0) by (nonlinear_arith)
        requires
            t > 0,
            per == total as int / t,
            r == total as int % t,
            total >= 0,
    {
        vstd::arithmetic::div_mod::lemma_fundamental_div_mod(total as int, t);
    }
    assert(per * free + per * bearing == t * per && per * free >= 0 && per * bearing >= 0) by (nonlinear_arith)
        requires
            t == free + bearing,
            per >= 0,
            free >= 0,
            bearing >= 0,
    ;
}

/// The bytes accounted for the databases of partitions `from..to`, added.
pub open spec fn database_bytes_sum(parts: Seq<MatcherPartition>, from: int, to: int) -> int
    decreases to - from,
{
    if to <= from {
        0
    } else {
        database_bytes_sum(parts, from, to - 1) + parts[to - 1].database_spec().retained_bytes_spec()
    }
}

/// The bytes accounted for partitions `from..to`, added.
pub open spec fn retained_bytes_sum(parts: Seq<MatcherPartition>, from: int, to: int) -> int
    decreases to - from,
{
    if to <= from {
        0
    } else {
        retained_bytes_sum(parts, from, to - 1) + parts[to - 1].retained_bytes_spec()
    }
}

/// Which partitions hold which cohort, when cohorts are compiled apart.
#[derive(Clone, Copy, Debug, PartialEq, Eq, Structural)]
pub struct CohortLayout {
    pub enabled: bool,
    pub assertion_free_pattern_count: usize,
    pub assertion_bearing_pattern_count: usize,
    pub assertion_free_partition_count: usize,
    pub assertion_bearing_partition_count: usize,
    pub split_partition: Option<usize>,
}

impl CohortLayout {
    /// The layout of a matcher built without cohorts.
    pub fn disabled() -> (layout: Self)
        ensures
            !layout.enabled && layout.assertion_free_pattern_count == 0 && layout.assertion_bearing_pattern_count == 0
                && layout.assertion_free_partition_count == 0 && layout.assertion_bearing_partition_count == 0
                && layout.split_partition is None,
    {
        CohortLayout {
            enabled: false,
            assertion_free_pattern_count: 0,
            assertion_bearing_pattern_count: 0,
            assertion_free_partition_count: 0,
            assertion_bearing_partition_count: 0,
            split_partition: None,
        }
    }

    /// The layout when only one cohort is populated.
    pub fn single(assertion_free_pattern_count: usize, assertion_bearing_pattern_count: usize, partition_count: usize) -> (layout: Self)
        ensures
            layout.enabled,
            layout.assertion_free_pattern_count == assertion_free_pattern_count,
            layout.assertion_bearing_pattern_count == assertion_bearing_pattern_count,
            layout.assertion_free_partition_count == if assertion_free_pattern_count == 0 { 0 } else { partition_count },
            layout.assertion_bearing_partition_count == if assertion_bearing_pattern_count == 0 { 0 } else { partition_count },
            layout.split_partition is None,
    {
        CohortLayout {
            enabled: true,
            assertion_free_pattern_count,
            assertion_bearing_pattern_count,
            assertion_free_partition_count: if assertion_free_pattern_count == 0 { 0 } else { partition_count },
            assertion_bearing_partition_count: if assertion_bearing_pattern_count == 0 { 0 } else { partition_count },
            split_partition: None,
        }
    }

    /// Number of populated cohorts.
    pub fn cohort_count(self) -> (count: usize)
        ensures
            count == (if self.assertion_free_pattern_count > 0 { 1int } else { 0int }) + (if self.assertion_bearing_pattern_count > 0 { 1int } else { 0int }),
    {
        let free: usize = if self.assertion_free_pattern_count > 0 { 1 } else { 0 };
        let bearing: usize = if self.assertion_bearing_pattern_count > 0 { 1 } else { 0 };
        free + bearing
    }
}

/// Immutable compiled matcher reusable across finite UTF-16 inputs.
///
/// Partitions are scanned one after another and their matches delivered in
/// partition order; within a partition, in start order and then in
/// registration order.
pub struct Matcher {
    partitions: Vec<MatcherPartition>,
    requested_worker_count: usize,
    cohort_layout: CohortLayout,
    prefilter_enabled: bool,
    literal_prefilter_enabled: bool,
}

/// The concatenated expected events of partitions `0..k`.
pub open spec fn partitions_expected(parts: Seq<MatcherPartition>, input: Seq<u16>, k: nat) -> Seq<(u32, u64, u64)>
    decreases k,
{
    if k == 0 || k > parts.len() {
        seq![]
    } else {
        partitions_expected(parts, input, (k - 1) as nat) + expected_events(parts[k - 1].database_spec(), input)
    }
}

/// Every partition of `parts` holds only plain literals.
pub open spec fn all_partitions_literal(parts: Seq<MatcherPartition>) -> bool {
    forall|p: int| 0 <= p < parts.len() ==> all_literal(#[trigger] parts[p].patterns_spec())
}

/// The patterns of the first `k` partitions, in partition order.
pub open spec fn partition_patterns(parts: Seq<MatcherPartition>, k: nat) -> Seq<HirPattern>
    decreases k,
{
    if k == 0 || k > parts.len() {
        seq![]
    } else {
        partition_patterns(parts, (k - 1) as nat) + parts[k - 1].patterns_spec()
    }
}

/// How an all-literal scan's events are split among partitions does not
/// matter: as a multiset they are the occurrences of the partitions'
/// literals taken together.
pub proof fn lemma_partitions_literal_multiset(parts: Seq<MatcherPartition>, input: Seq<u16>, k: nat)
    requires
        k <= parts.len(),
    ensures
        partitions_literal_events(parts, input, k).to_multiset() == literal_scan_events(
            pattern_literals(partition_patterns(parts, k)),
            ids_of(partition_patterns(parts, k)),
            input,
            crate::semantics::all_starts(input.len() as int),
        ).to_multiset(),
    decreases k,
{
    let starts = crate::semantics::all_starts(input.len() as int);
    if k == 0 {
        let none = Seq::<HirPattern>::empty();
        assert(partition_patterns(parts, 0) == none);
        assert(pattern_literals(none) + pattern_literals(none) =~= pattern_literals(none));
        assert(ids_of(none) + ids_of(none) =~= ids_of(none));
        lemma_literal_scan_events_append(pattern_literals(none), ids_of(none), pattern_literals(none), ids_of(none), input, starts);
        let events = literal_scan_events(pattern_literals(none), ids_of(none), input, starts);
        assert(events.to_multiset() =~= vstd::multiset::Multiset::empty()) by {
            broadcast use vstd::multiset::group_multiset_axioms;
            assert forall|x: (u32, u64, u64)| events.to_multiset().count(x) == 0 by {
                assert(events.to_multiset().add(events.to_multiset()).count(x) == 2 * events.to_multiset().count(x));
            }
        }
        vstd::seq_lib::lemma_multiset_commutative(Seq::<(u32, u64, u64)>::empty(), Seq::<(u32, u64, u64)>::empty());
        assert(Seq::<(u32, u64, u64)>::empty() + Seq::<(u32, u64, u64)>::empty() =~= Seq::<(u32, u64, u64)>::empty());
        assert(Seq::<(u32, u64, u64)>::empty().to_multiset() =~= vstd::multiset::Multiset::empty()) by {
            broadcast use vstd::multiset::group_multiset_axioms;
            let e = Seq::<(u32, u64, u64)>::empty();
            assert forall|x: (u32, u64, u64)| e.to_multiset().count(x) == 0 by {
                assert(e.to_multiset().add(e.to_multiset()).count(x) == 2 * e.to_multiset().count(x));
            }
        }
    } else {
        lemma_partitions_literal_multiset(parts, input, (k - 1) as nat);
        let before = partition_patterns(parts, (k - 1) as nat);
        let mine = parts[k - 1].patterns_spec();
        assert(partition_patterns(parts, k) == before + mine);
        assert(pattern_literals(before + mine) =~= pattern_literals(before) + pattern_literals(mine));
        assert(ids_of(before + mine) =~= ids_of(before) + ids_of(mine));
        lemma_literal_scan_events_append(
            pattern_literals(before),
            ids_of(before),
            pattern_literals(mine),
            ids_of(mine),
            input,
            starts,
        );
        vstd::seq_lib::lemma_multiset_commutative(
            partitions_literal_events(parts, input, (k - 1) as nat),
            literal_scan_events(pattern_literals(mine), ids_of(mine), input, starts),
        );
    }
}

/// Two matchers whose partitions hold the same plain literals in the same
/// overall order report the same events, as multisets, however the
/// literals were split among partitions (by worker count or cohort).
pub proof fn lemma_literal_partitioning_irrelevant(first: Matcher, second: Matcher, input: Seq<u16>)
    requires
        all_partitions_literal(first.partitions_spec()),
        all_partitions_literal(second.partitions_spec()),
        partition_patterns(first.partitions_spec(), first.partitions_spec().len()) == partition_patterns(
            second.partitions_spec(),
            second.partitions_spec().len(),
        ),
    ensures
        partitions_literal_events(first.partitions_spec(), input, first.partitions_spec().len()).to_multiset()
            == partitions_literal_events(second.partitions_spec(), input, second.partitions_spec().len()).to_multiset(),
{
    lemma_partitions_literal_multiset(first.partitions_spec(), input, first.partitions_spec().len());
    lemma_partitions_literal_multiset(second.partitions_spec(), input, second.partitions_spec().len());
}

/// The literal occurrences each of the first `k` partitions reports, in
/// partition order.
pub open spec fn partitions_literal_events(parts: Seq<MatcherPartition>, input: Seq<u16>, k: nat) -> Seq<(u32, u64, u64)>
    decreases k,
{
    if k == 0 || k > parts.len() {
        seq![]
    } else {
        partitions_literal_events(parts, input, (k - 1) as nat) + literal_scan_events(
            pattern_literals(parts[k - 1].patterns_spec()),
            ids_of(parts[k - 1].patterns_spec()),
            input,
            crate::semantics::all_starts(input.len() as int),
        )
    }
}

/// The events of the first `k` partitions, each scanned at the starts its
/// own start selection plans for `input`.
pub open spec fn partitions_planned(
    parts: Seq<MatcherPartition>,
    input: Seq<u16>,
    prefilter_enabled: bool,
    literal_prefilter_enabled: bool,
    k: nat,
) -> Seq<(u32, u64, u64)>
    decreases k,
{
    if k == 0 || k > parts.len() {
        seq![]
    } else {
        let db = parts[k - 1].database_spec();
        let prefilter = parts[k - 1].prefilter_spec();
        partitions_planned(parts, input, prefilter_enabled, literal_prefilter_enabled, (k - 1) as nat)
            + crate::semantics::scan_events(
            db,
            input,
            planned_starts(db, prefilter, input, prefilter.planned_path(input, prefilter_enabled, literal_prefilter_enabled)),
        )
    }
}

/// The start-selection path a scan of the first `k` partitions reports:
/// the path each planned, where they agree, or mixed.
pub open spec fn merged_path(
    parts: Seq<MatcherPartition>,
    input: Seq<u16>,
    prefilter_enabled: bool,
    literal_prefilter_enabled: bool,
    k: nat,
) -> PrefilterPath
    decreases k,
{
    let last = parts[k - 1].prefilter_spec().planned_path(input, prefilter_enabled, literal_prefilter_enabled);
    if k <= 1 {
        parts[0].prefilter_spec().planned_path(input, prefilter_enabled, literal_prefilter_enabled)
    } else if merged_path(parts, input, prefilter_enabled, literal_prefilter_enabled, (k - 1) as nat) == last {
        last
    } else {
        PrefilterPath::MixedParallel
    }
}

/// How many starts the planned scans of the first `k` partitions visit, in
/// all, saturating at `usize::MAX`.
pub open spec fn starts_visited(
    parts: Seq<MatcherPartition>,
    input: Seq<u16>,
    prefilter_enabled: bool,
    literal_prefilter_enabled: bool,
    k: nat,
) -> int
    decreases k,
{
    if k == 0 {
        0
    } else {
        let part = parts[k - 1];
        crate::engine::add_spec(
            starts_visited(parts, input, prefilter_enabled, literal_prefilter_enabled, (k - 1) as nat),
            crate::engine::visited_start_count(
                part.database_spec(),
                part.prefilter_spec(),
                input,
                part.prefilter_spec().planned_path(input, prefilter_enabled, literal_prefilter_enabled),
            ),
        )
    }
}

/// Every event of the planned scans of the first `k` partitions is a
/// non-empty span inside the input, whichever starts each scan visits.
pub proof fn lemma_planned_spans_within(
    parts: Seq<MatcherPartition>,
    input: Seq<u16>,
    prefilter_enabled: bool,
    literal_prefilter_enabled: bool,
    k: nat,
)
    requires
        input.len() <= u64::MAX,
    ensures
        crate::semantics::spans_within(
            partitions_planned(parts, input, prefilter_enabled, literal_prefilter_enabled, k),
            input.len() as int,
        ),
    decreases k,
{
    if k > 0 && k <= parts.len() {
        lemma_planned_spans_within(parts, input, prefilter_enabled, literal_prefilter_enabled, (k - 1) as nat);
        let db = parts[k - 1].database_spec();
        let prefilter = parts[k - 1].prefilter_spec();
        let path = prefilter.planned_path(input, prefilter_enabled, literal_prefilter_enabled);
        let starts = planned_starts(db, prefilter, input, path);
        assert forall|j: int| 0 <= j < starts.len() implies 0 <= #[trigger] starts[j] < input.len() by {
            if path == PrefilterPath::Literal {
                crate::engine::lemma_positions_in_range(admitted_starts(prefilter.literal_spec()->0, input), j);
            }
        }
        crate::semantics::lemma_scan_events_within(db, input, starts);
        let head = partitions_planned(parts, input, prefilter_enabled, literal_prefilter_enabled, (k - 1) as nat);
        let tail = crate::semantics::scan_events(db, input, starts);
        let all = partitions_planned(parts, input, prefilter_enabled, literal_prefilter_enabled, k);
        assert(all == head + tail);
        assert forall|i: int| 0 <= i < all.len() implies (#[trigger] all[i]).1 < all[i].2 && all[i].2 <= input.len() by {
            if i < head.len() {
                assert(all[i] == head[i]);
            } else {
                assert(all[i] == tail[i - head.len()]);
            }
        }
    }
}

/// Every event of partition `p`'s planned scan is among the events of the
/// first `k` partitions' planned scans.
proof fn lemma_partitions_planned_contain(
    parts: Seq<MatcherPartition>,
    input: Seq<u16>,
    prefilter_enabled: bool,
    literal_prefilter_enabled: bool,
    k: nat,
    p: int,
    x: (u32, u64, u64),
)
    requires
        0 <= p < k <= parts.len(),
        crate::semantics::scan_events(
            parts[p].database_spec(),
            input,
            planned_starts(
                parts[p].database_spec(),
                parts[p].prefilter_spec(),
                input,
                parts[p].prefilter_spec().planned_path(input, prefilter_enabled, literal_prefilter_enabled),
            ),
        ).contains(x),
    ensures
        partitions_planned(parts, input, prefilter_enabled, literal_prefilter_enabled, k).contains(x),
    decreases k,
{
    let prefix = partitions_planned(parts, input, prefilter_enabled, literal_prefilter_enabled, (k - 1) as nat);
    let db = parts[k - 1].database_spec();
    let prefilter = parts[k - 1].prefilter_spec();
    let piece = crate::semantics::scan_events(
        db,
        input,
        planned_starts(db, prefilter, input, prefilter.planned_path(input, prefilter_enabled, literal_prefilter_enabled)),
    );
    if p < k - 1 {
        lemma_partitions_planned_contain(parts, input, prefilter_enabled, literal_prefilter_enabled, (k - 1) as nat, p, x);
        lemma_contains_left(prefix, piece, x);
    } else {
        lemma_contains_right(prefix, piece, x);
    }
}

/// Some partition of `parts` built a literal filter.
pub open spec fn any_literal_filter(parts: Seq<MatcherPartition>) -> bool {
    exists|i: int| 0 <= i < parts.len() && (#[trigger] parts[i]).prefilter_spec().literal_spec() is Some
}

impl Matcher {
    /// Every partition was compiled from its patterns.
    pub closed spec fn well_formed(&self) -> bool {
        &&& self.partitions@.len() >= 1
        &&& forall|i: int| 0 <= i < self.partitions@.len() ==> (#[trigger] self.partitions@[i]).well_formed()
    }

    /// The partitions.
    pub closed spec fn partitions_spec(&self) -> Seq<MatcherPartition> {
        self.partitions@
    }

    /// Whether start selection is enabled.
    pub closed spec fn prefilter_spec(&self) -> bool {
        self.prefilter_enabled
    }

    /// Whether the literal filter is enabled.
    pub closed spec fn literal_prefilter_spec(&self) -> bool {
        self.literal_prefilter_enabled
    }

    /// Requested worker count.
    pub closed spec fn requested_worker_count_spec(&self) -> usize {
        self.requested_worker_count
    }

    /// The cohort layout.
    pub closed spec fn layout_spec(&self) -> CohortLayout {
        self.cohort_layout
    }

    /// Whether a scan of `input` can use a literal filter.
    pub open spec fn literal_filter_may_run(&self, input: Seq<u16>) -> bool {
        &&& self.prefilter_spec()
        &&& self.literal_prefilter_spec()
        &&& input.len() >= MIN_LITERAL_INPUT_UNITS
        &&& any_literal_filter(self.partitions_spec())
    }

    /// Everything a scan of `input` reports when every start is visited.
    pub open spec fn expected(&self, input: Seq<u16>) -> Seq<(u32, u64, u64)> {
        partitions_expected(self.partitions_spec(), input, self.partitions_spec().len())
    }

    /// What `scan_partitions` reports for `input`: each partition scanned at
    /// the starts its own start selection plans.
    pub open spec fn planned(&self, input: Seq<u16>) -> Seq<(u32, u64, u64)> {
        partitions_planned(
            self.partitions_spec(),
            input,
            self.prefilter_spec(),
            self.literal_prefilter_spec(),
            self.partitions_spec().len(),
        )
    }

    /// No match is missed, whichever starts the scan visits: when the
    /// expression of a pattern of partition `p` matches `input[start..end]`
    /// with at least one unit, a scan of `input` reports that pattern from
    /// `start` to a position at or after `end`.
    pub proof fn lemma_reports_match(self, input: Seq<u16>, p: int, ordinal: int, start: int, end: int)
        requires
            self.well_formed(),
            0 <= p < self.partitions_spec().len(),
            0 <= ordinal < self.partitions_spec()[p].patterns_spec().len(),
            sequences_nonempty(self.partitions_spec()[p].patterns_spec()[ordinal].expression_spec()),
            0 <= start < end <= input.len(),
            matches_spec(self.partitions_spec()[p].patterns_spec()[ordinal].expression_spec(), input, start, start, end),
        ensures
            exists|e: int|
                end <= e <= input.len() && #[trigger] self.planned(input).contains(
                    (self.partitions_spec()[p].patterns_spec()[ordinal].pattern_id_spec()@, start as u64, e as u64),
                ),
    {
        let part = self.partitions_spec()[p];
        let db = part.database_spec();
        let prefilter = part.prefilter_spec();
        let path = prefilter.planned_path(input, self.prefilter_spec(), self.literal_prefilter_spec());
        assert(part.well_formed());
        part.lemma_reports_match_on_path(input, path, ordinal, start, end);
        let x_id = self.partitions_spec()[p].patterns_spec()[ordinal].pattern_id_spec()@;
        let e = choose|e: int|
            end <= e <= input.len() && #[trigger] crate::semantics::scan_events(db, input, planned_starts(db, prefilter, input, path)).contains(
                (x_id, start as u64, e as u64),
            );
        lemma_partitions_planned_contain(
            self.partitions_spec(),
            input,
            self.prefilter_spec(),
            self.literal_prefilter_spec(),
            self.partitions_spec().len(),
            p,
            (x_id, start as u64, e as u64),
        );
        assert(self.planned(input).contains((x_id, start as u64, e as u64)));
    }

    /// No match of a registered pattern is missed: when every pattern of
    /// `patterns` was compiled into this matcher and the expression of
    /// `patterns[r]` matches `input[start..end]` with at least one unit, a
    /// scan of `input` reports that pattern from `start` to a position at or
    /// after `end`.
    pub proof fn lemma_reports_registered_match(
        self,
        patterns: Seq<HirPattern>,
        r: int,
        input: Seq<u16>,
        start: int,
        end: int,
    )
        requires
            self.well_formed(),
            compiles_all(self.partitions_spec(), patterns),
            0 <= r < patterns.len(),
            sequences_nonempty(patterns[r].expression_spec()),
            0 <= start < end <= input.len(),
            matches_spec(patterns[r].expression_spec(), input, start, start, end),
        ensures
            exists|e: int|
                end <= e <= input.len() && #[trigger] self.planned(input).contains(
                    (patterns[r].pattern_id_spec()@, start as u64, e as u64),
                ),
    {
        assert(holds_pattern(self.partitions_spec(), patterns[r]));
        let (p, o) = choose|p: int, o: int|
            0 <= p < self.partitions_spec().len() && 0 <= o < self.partitions_spec()[p].patterns_spec().len()
                && #[trigger] self.partitions_spec()[p].patterns_spec()[o] == patterns[r];
        self.lemma_reports_match(input, p, o, start, end);
    }

    /// Every occurrence of a registered plain literal is reported: a scan
    /// reports the literal's pattern from the occurrence's start to a
    /// position at or after its end.
    pub proof fn lemma_reports_literal(
        self,
        patterns: Seq<HirPattern>,
        r: int,
        units: Seq<u16>,
        input: Seq<u16>,
        start: int,
    )
        requires
            self.well_formed(),
            compiles_all(self.partitions_spec(), patterns),
            0 <= r < patterns.len(),
            units.len() > 0,
            is_literal_hir(units, patterns[r].expression_spec()),
            0 <= start,
            start + units.len() <= input.len(),
            input.subrange(start, start + units.len()) == units,
        ensures
            exists|e: int|
                start + units.len() <= e <= input.len() && #[trigger] self.planned(input).contains(
                    (patterns[r].pattern_id_spec()@, start as u64, e as u64),
                ),
    {
        lemma_literal_matches(units, patterns[r].expression_spec(), input, start, start);
        self.lemma_reports_registered_match(patterns, r, input, start, start + units.len());
    }

    /// Every place where the text spells a registered literal, case-folded or
    /// not, is reported: a scan reports the literal's pattern from there to a
    /// position at or after the spelling's end.
    pub proof fn lemma_reports_spelled_literal(
        self,
        patterns: Seq<HirPattern>,
        r: int,
        units: Seq<u16>,
        folded: bool,
        input: Seq<u16>,
        start: int,
    )
        requires
            self.well_formed(),
            compiles_all(self.partitions_spec(), patterns),
            0 <= r < patterns.len(),
            units.len() > 0,
            spells_literal(units, folded, patterns[r].expression_spec()),
            0 <= start,
            start + units.len() <= input.len(),
            crate::language::folds_to(units, folded, input.subrange(start, start + units.len())),
        ensures
            exists|e: int|
                start + units.len() <= e <= input.len() && #[trigger] self.planned(input).contains(
                    (patterns[r].pattern_id_spec()@, start as u64, e as u64),
                ),
    {
        crate::language::lemma_spelled_literal_matches(units, folded, patterns[r].expression_spec(), input, start, start);
        self.lemma_reports_registered_match(patterns, r, input, start, start + units.len());
    }

    /// The partitions.
    pub fn partitions(&self) -> (partitions: &[MatcherPartition])
        ensures
            partitions@ == self.partitions_spec(),
    {
        self.partitions.as_slice()
    }

    /// Whether scans select their starts with the prefilter.
    pub fn prefilter_enabled(&self) -> (enabled: bool)
        ensures
            enabled == self.prefilter_spec(),
    {
        self.prefilter_enabled
    }

    /// Whether scans may use the literal layer of start selection.
    pub fn literal_prefilter_enabled(&self) -> (enabled: bool)
        ensures
            enabled == self.literal_prefilter_spec(),
    {
        self.literal_prefilter_enabled
    }

    /// Requested worker count.
    pub fn requested_worker_count(&self) -> (count: usize)
        ensures
            count == self.requested_worker_count_spec(),
    {
        self.requested_worker_count
    }

    /// Scans every partition in order and returns their matches and merged
    /// counters.
    pub fn scan_partitions(&self, input: &Utf16Text) -> (result: (Vec<Match>, ScanStats))
        requires
            self.well_formed(),
        ensures
            event_views(result.0@) == partitions_planned(
                self.partitions_spec(),
                input@,
                self.prefilter_spec(),
                self.literal_prefilter_spec(),
                self.partitions_spec().len(),
            ),
            !self.literal_filter_may_run(input@) ==> event_views(result.0@) == self.expected(input@),
            all_partitions_literal(self.partitions_spec()) ==> event_views(result.0@) == partitions_literal_events(
                self.partitions_spec(),
                input@,
                self.partitions_spec().len(),
            ),
            crate::semantics::spans_within(event_views(result.0@), input@.len() as int),
            result.1.prefilter_path == merged_path(
                self.partitions_spec(),
                input@,
                self.prefilter_spec(),
                self.literal_prefilter_spec(),
                self.partitions_spec().len(),
            ),
            result.1.prefilter_starts_scanned == starts_visited(
                self.partitions_spec(),
                input@,
                self.prefilter_spec(),
                self.literal_prefilter_spec(),
                self.partitions_spec().len(),
            ),
    {
        let units = input.as_units();
        let unit_count = units.len();
        proof {
            assert(input@.len() == unit_count);
            lemma_planned_spans_within(
                self.partitions@,
                input@,
                self.prefilter_enabled,
                self.literal_prefilter_enabled,
                self.partitions@.len(),
            );
        }
        let (mut events, mut stats) = self.partitions[0].scan(units, self.prefilter_enabled, self.literal_prefilter_enabled);
        proof {
            assert(self.partitions@[0].well_formed());
            if !self.literal_filter_may_run(input@) {
                if stats.prefilter_path == PrefilterPath::Literal {
                    assert(any_literal_filter(self.partitions_spec()));
                }
                assert(partitions_expected(self.partitions@, input@, 0) == Seq::<(u32, u64, u64)>::empty());
                assert(partitions_expected(self.partitions@, input@, 1) =~= expected_events(self.partitions@[0].database_spec(), input@));
            }
            assert(starts_visited(self.partitions@, input@, self.prefilter_enabled, self.literal_prefilter_enabled, 0) == 0);
            assert(starts_visited(self.partitions@, input@, self.prefilter_enabled, self.literal_prefilter_enabled, 1)
                == stats.prefilter_starts_scanned);
            assert(partitions_planned(self.partitions@, input@, self.prefilter_enabled, self.literal_prefilter_enabled, 0)
                == Seq::<(u32, u64, u64)>::empty());
            assert(partitions_planned(self.partitions@, input@, self.prefilter_enabled, self.literal_prefilter_enabled, 1)
                =~= event_views(events@));
            if all_partitions_literal(self.partitions@) {
                assert(all_literal(self.partitions@[0].patterns_spec()));
                assert(partitions_literal_events(self.partitions@, input@, 0) == Seq::<(u32, u64, u64)>::empty());
                assert(partitions_literal_events(self.partitions@, input@, 1) =~= event_views(events@));
            }
        }
        let mut index: usize = 1;
        while index < self.partitions.len()
            invariant
                self.well_formed(),
                units@ == input@,
                1 <= index <= self.partitions@.len(),
                !self.literal_filter_may_run(input@) ==> event_views(events@) == partitions_expected(self.partitions@, input@, index as nat),
                event_views(events@) == partitions_planned(
                    self.partitions@,
                    input@,
                    self.prefilter_enabled,
                    self.literal_prefilter_enabled,
                    index as nat,
                ),
                all_partitions_literal(self.partitions@) ==> event_views(events@) == partitions_literal_events(
                    self.partitions@,
                    input@,
                    index as nat,
                ),
                stats.prefilter_path == merged_path(
                    self.partitions@,
                    input@,
                    self.prefilter_enabled,
                    self.literal_prefilter_enabled,
                    index as nat,
                ),
                stats.prefilter_starts_scanned == starts_visited(
                    self.partitions@,
                    input@,
                    self.prefilter_enabled,
                    self.literal_prefilter_enabled,
                    index as nat,
                ),
            decreases self.partitions@.len() - index,
        {
            let ghost before = events@;
            let (more, partition_stats) = self.partitions[index].scan(units, self.prefilter_enabled, self.literal_prefilter_enabled);
            proof {
                assert(self.partitions@[index as int].well_formed());
                if !self.literal_filter_may_run(input@) && partition_stats.prefilter_path == PrefilterPath::Literal {
                    assert(any_literal_filter(self.partitions_spec()));
                }
                if all_partitions_literal(self.partitions@) {
                    assert(all_literal(self.partitions@[index as int].patterns_spec()));
                }
            }
            let mut moved = more;
            events.append(&mut moved);
            proof {
                assert(event_views(events@) =~= event_views(before) + event_views(more@));
            }
            stats.merge_partition(partition_stats);
            index = index + 1;
        }
        (events, stats)
    }

    /// Scans one input and delivers every match to `sink`, in the order of
    /// `scan_partitions`.
    pub fn scan<F: FnMut(Match)>(&self, input: &Utf16Text, sink: F) -> (result: Result<(), Error>)
        requires
            self.well_formed(),
            forall|m: Match| call_requires(sink, (m,)),
        ensures
            result is Ok,
    {
        let (events, _) = self.scan_partitions(input);
        deliver(events, sink);
        Ok(())
    }

    /// Workers a parallel run of this matcher starts besides the caller.
    pub open spec fn spawned_workers_spec(&self) -> int {
        let partitions = self.partitions_spec().len() as int;
        let all_but_one = if partitions > 0 { partitions - 1 } else { 0 };
        match self.layout_spec().split_partition {
            None => all_but_one,
            Some(split) => if self.requested_worker_count_spec() == 1 {
                let rest = if partitions > split { partitions - split } else { 0 };
                (if split > 0 { split - 1 } else { 0 }) + (if rest > 0 { rest - 1 } else { 0 })
            } else {
                all_but_one
            },
        }
    }

    /// The runs of partitions a parallel run scans together, as index
    /// ranges: with one requested worker and two cohorts, each cohort's
    /// partitions in turn; otherwise all partitions at once.
    pub fn partition_groups(&self) -> (groups: Vec<(usize, usize)>)
        ensures
            ({
                let n = self.partitions_spec().len() as usize;
                match self.layout_spec().split_partition {
                    Some(split) => if self.requested_worker_count_spec() == 1 {
                        let cut = if split < n { split } else { n };
                        groups@ == seq![(0usize, cut), (cut, n)]
                    } else {
                        groups@ == seq![(0usize, n)]
                    },
                    None => groups@ == seq![(0usize, n)],
                }
            }),
    {
        let n = self.partitions.len();
        let mut groups: Vec<(usize, usize)> = Vec::new();
        match self.cohort_layout.split_partition {
            Some(split) => {
                if self.requested_worker_count == 1 {
                    let cut = if split < n { split } else { n };
                    groups.push((0, cut));
                    groups.push((cut, n));
                } else {
                    groups.push((0, n));
                }
            },
            None => groups.push((0, n)),
        }
        proof {
            assert(groups@.len() >= 1);
        }
        groups
    }

    /// Workers a parallel run of this matcher starts besides the caller:
    /// one per partition but the first, or, for a single requested worker
    /// and two cohorts, one per partition but the first of each cohort.
    pub fn spawned_worker_count(&self) -> (count: usize)
        ensures
            count == self.spawned_workers_spec(),
            self.layout_spec().split_partition is None ==> count == if self.partitions_spec().len() > 0 { self.partitions_spec().len() - 1 } else { 0 },
    {
        let partitions = self.partitions.len();
        match self.cohort_layout.split_partition {
            None => if partitions > 0 { partitions - 1 } else { 0 },
            Some(split) => {
                if self.requested_worker_count == 1 {
                    let first: usize = if split > 0 { split - 1 } else { 0 };
                    let rest_len: usize = if partitions > split { partitions - split } else { 0 };
                    let second: usize = if rest_len > 0 { rest_len - 1 } else { 0 };
                    first + second
                } else if partitions > 0 {
                    partitions - 1
                } else {
                    0
                }
            },
        }
    }

    /// The cache budgets of all partitions, added, saturating.
    fn total_cache_budget(&self) -> (total: usize)
        ensures
            total == saturate(budget_sum(self.partitions_spec(), 0, self.partitions_spec().len() as int)),
    {
        let mut total: usize = 0;
        let mut i: usize = 0;
        while i < self.partitions.len()
            invariant
                i <= self.partitions@.len(),
                budget_sum(self.partitions@, 0, i as int) >= 0,
                total == saturate(budget_sum(self.partitions@, 0, i as int)),
            decreases self.partitions@.len() - i,
        {
            total = add_usize(total, self.partitions[i].state_cache_budget);
            i = i + 1;
        }
        total
    }

    /// The bytes accounted for all partitions' databases, added, saturating.
    fn database_bytes(&self) -> (total: usize)
        ensures
            total == saturate(database_bytes_sum(self.partitions_spec(), 0, self.partitions_spec().len() as int)),
    {
        let mut total: usize = 0;
        let mut i: usize = 0;
        while i < self.partitions.len()
            invariant
                i <= self.partitions@.len(),
                database_bytes_sum(self.partitions@, 0, i as int) >= 0,
                total == saturate(database_bytes_sum(self.partitions@, 0, i as int)),
            decreases self.partitions@.len() - i,
        {
            total = add_usize(total, self.partitions[i].database.retained_bytes());
            i = i + 1;
        }
        total
    }

    /// The bytes accounted for partitions `from` up to `to` (or the last
    /// partition), added, saturating.
    fn retained_bytes_between(&self, from: usize, to: usize) -> (total: usize)
        requires
            self.well_formed(),
        ensures
            total == saturate(retained_bytes_sum(
                self.partitions_spec(),
                from as int,
                if (to as int) < self.partitions_spec().len() { to as int } else { self.partitions_spec().len() as int },
            )),
    {
        let ghost end: int = if (to as int) < self.partitions@.len() { to as int } else { self.partitions@.len() as int };
        let mut total: usize = 0;
        let mut i: usize = from;
        while i < to && i < self.partitions.len()
            invariant
                self.well_formed(),
                end == if (to as int) < self.partitions@.len() { to as int } else { self.partitions@.len() as int },
                from <= i,
                i <= end || i == from,
                retained_bytes_sum(self.partitions@, from as int, i as int) >= 0,
                total == saturate(retained_bytes_sum(self.partitions@, from as int, i as int)),
            decreases to - i,
        {
            proof {
                assert(self.partitions@[i as int].well_formed());
            }
            total = add_usize(total, self.partitions[i].retained_bytes());
            i = i + 1;
        }
        total
    }

    /// Scans one input, delivers every match, and reports what the scan did.
    pub fn scan_with_diagnostics<F: FnMut(Match)>(&self, input: &Utf16Text, sink: F) -> (result: Result<ScanDiagnostics, Error>)
        requires
            self.well_formed(),
            forall|m: Match| call_requires(sink, (m,)),
        ensures
            result matches Ok(d) ==> d.partition_count == self.partitions_spec().len()
                && d.requested_worker_count == self.requested_worker_count_spec(),
            result matches Ok(d) ==> {
                let events = partitions_planned(
                    self.partitions_spec(),
                    input@,
                    self.prefilter_spec(),
                    self.literal_prefilter_spec(),
                    self.partitions_spec().len(),
                );
                &&& d.buffered_events == if self.partitions_spec().len() > 1 { events.len() as int } else { 0 }
                &&& d.buffered_event_bytes == crate::hir::sat_mul(d.buffered_events as int, vstd::layout::size_of::<Match>() as int)
                &&& d.spawned_workers == self.spawned_workers_spec()
                &&& d.database_retained_bytes == saturate(
                    database_bytes_sum(self.partitions_spec(), 0, self.partitions_spec().len() as int),
                )
                &&& d.total_cache_budget == saturate(budget_sum(self.partitions_spec(), 0, self.partitions_spec().len() as int))
                &&& d.prefilter_path == merged_path(
                    self.partitions_spec(),
                    input@,
                    self.prefilter_spec(),
                    self.literal_prefilter_spec(),
                    self.partitions_spec().len(),
                )
                &&& d.prefilter_starts_scanned == starts_visited(
                    self.partitions_spec(),
                    input@,
                    self.prefilter_spec(),
                    self.literal_prefilter_spec(),
                    self.partitions_spec().len(),
                )
            },
            result is Ok,
    {
        let (events, stats) = self.scan_partitions(input);
        let buffered: usize = if self.partitions.len() > 1 { events.len() } else { 0 };
        let diagnostics = self.diagnostics(stats, buffered);
        deliver(events, sink);
        Ok(diagnostics)
    }

    /// Diagnostics for one scan's counters.
    fn diagnostics(&self, stats: ScanStats, buffered_events: usize) -> (diagnostics: ScanDiagnostics)
        ensures
            diagnostics.partition_count == self.partitions_spec().len(),
            diagnostics.requested_worker_count == self.requested_worker_count_spec(),
            diagnostics.buffered_events == buffered_events,
            diagnostics.cache_states == stats.cache_states,
            diagnostics.prefilter_path == stats.prefilter_path,
            diagnostics.prefilter_bypass == stats.prefilter_bypass,
            diagnostics.spawned_workers == self.spawned_workers_spec(),
            diagnostics.database_retained_bytes == saturate(
                database_bytes_sum(self.partitions_spec(), 0, self.partitions_spec().len() as int),
            ),
            diagnostics.total_cache_budget == saturate(budget_sum(self.partitions_spec(), 0, self.partitions_spec().len() as int)),
            diagnostics.cache_hits == stats.cache_hits,
            diagnostics.cache_misses == stats.cache_misses,
            diagnostics.fallback_transitions == stats.fallback_transitions,
            diagnostics.cache_table_bytes == stats.cache_table_bytes,
            diagnostics.assertion_bypasses == stats.assertion_bypasses,
            diagnostics.prefilter_retained_bytes == stats.prefilter_retained_bytes,
            diagnostics.prefilter_candidate_bytes == stats.prefilter_candidate_bytes,
            diagnostics.prefilter_admissions == stats.prefilter_admissions,
            diagnostics.prefilter_candidate_starts == stats.prefilter_candidate_starts,
            diagnostics.prefilter_starts_scanned == stats.prefilter_starts_scanned,
            diagnostics.prefilter_starts_skipped == stats.prefilter_starts_skipped,
            diagnostics.buffered_event_bytes == crate::hir::sat_mul(buffered_events as int, vstd::layout::size_of::<Match>() as int),
    {
        ScanDiagnostics {
            requested_worker_count: self.requested_worker_count,
            partition_count: self.partitions.len(),
            spawned_workers: self.spawned_worker_count(),
            database_retained_bytes: self.database_bytes(),
            total_cache_budget: self.total_cache_budget(),
            cache_states: stats.cache_states,
            cache_hits: stats.cache_hits,
            cache_misses: stats.cache_misses,
            fallback_transitions: stats.fallback_transitions,
            cache_table_bytes: stats.cache_table_bytes,
            assertion_bypasses: stats.assertion_bypasses,
            prefilter_path: stats.prefilter_path,
            prefilter_bypass: stats.prefilter_bypass,
            prefilter_retained_bytes: stats.prefilter_retained_bytes,
            prefilter_candidate_bytes: stats.prefilter_candidate_bytes,
            prefilter_admissions: stats.prefilter_admissions,
            prefilter_candidate_starts: stats.prefilter_candidate_starts,
            prefilter_starts_scanned: stats.prefilter_starts_scanned,
            prefilter_starts_skipped: stats.prefilter_starts_skipped,
            buffered_events,
            buffered_event_bytes: crate::hir::saturating_mul(buffered_events, core::mem::size_of::<Match>()),
        }
    }

    /// The cohort layout chosen at build time, with its resource totals.
    pub fn cohort_execution_diagnostics(&self) -> (diagnostics: MatcherCohortDiagnostics)
        requires
            self.well_formed(),
        ensures
            diagnostics.enabled == self.layout_spec().enabled,
            diagnostics.assertion_free_pattern_count == self.layout_spec().assertion_free_pattern_count,
            diagnostics.assertion_bearing_pattern_count == self.layout_spec().assertion_bearing_pattern_count,
            diagnostics.assertion_free_partition_count == self.layout_spec().assertion_free_partition_count,
            diagnostics.assertion_bearing_partition_count == self.layout_spec().assertion_bearing_partition_count,
            diagnostics.total_partition_count == self.partitions_spec().len(),
            diagnostics.buffers_before_delivery == (self.partitions_spec().len() > 1),
            diagnostics.cohort_count == (if self.layout_spec().assertion_free_pattern_count > 0 { 1int } else { 0int })
                + (if self.layout_spec().assertion_bearing_pattern_count > 0 { 1int } else { 0int }),
            diagnostics.total_cache_budget == saturate(budget_sum(self.partitions_spec(), 0, self.partitions_spec().len() as int)),
            diagnostics.spawned_workers == self.spawned_workers_spec(),
            ({
                let partitions = self.partitions_spec().len() as int;
                let split = match self.layout_spec().split_partition {
                    Some(split) => split as int,
                    None => partitions,
                };
                let bearing_start = match self.layout_spec().split_partition {
                    Some(split) => split as int,
                    None => 0,
                };
                &&& diagnostics.assertion_free_retained_bytes == if self.layout_spec().assertion_free_pattern_count > 0 {
                    saturate(retained_bytes_sum(self.partitions_spec(), 0, if split < partitions { split } else { partitions }))
                } else {
                    0
                }
                &&& diagnostics.assertion_bearing_retained_bytes == if self.layout_spec().assertion_bearing_pattern_count > 0 {
                    saturate(retained_bytes_sum(self.partitions_spec(), bearing_start, partitions))
                } else {
                    0
                }
            }),
    {
        let partitions = self.partitions.len();
        let split = match self.cohort_layout.split_partition {
            Some(split) => split,
            None => partitions,
        };
        let free_bytes = if self.cohort_layout.assertion_free_pattern_count > 0 {
            self.retained_bytes_between(0, split)
        } else {
            0
        };
        let bearing_start = match self.cohort_layout.split_partition {
            Some(split) => split,
            None => 0,
        };
        let bearing_bytes = if self.cohort_layout.assertion_bearing_pattern_count > 0 {
            self.retained_bytes_between(bearing_start, partitions)
        } else {
            0
        };
        MatcherCohortDiagnostics {
            enabled: self.cohort_layout.enabled,
            cohort_count: self.cohort_layout.cohort_count(),
            assertion_free_pattern_count: self.cohort_layout.assertion_free_pattern_count,
            assertion_bearing_pattern_count: self.cohort_layout.assertion_bearing_pattern_count,
            assertion_free_partition_count: self.cohort_layout.assertion_free_partition_count,
            assertion_bearing_partition_count: self.cohort_layout.assertion_bearing_partition_count,
            total_partition_count: partitions,
            total_cache_budget: self.total_cache_budget(),
            assertion_free_retained_bytes: free_bytes,
            assertion_bearing_retained_bytes: bearing_bytes,
            spawned_workers: self.spawned_worker_count(),
            buffers_before_delivery: partitions > 1,
        }
    }
}

/// Cohort layout facts and resource totals of a built matcher.
#[derive(Clone, Copy, Debug, PartialEq, Eq, Structural)]
pub struct MatcherCohortDiagnostics {
    pub enabled: bool,
    pub cohort_count: usize,
    pub assertion_free_pattern_count: usize,
    pub assertion_bearing_pattern_count: usize,
    pub assertion_free_partition_count: usize,
    pub assertion_bearing_partition_count: usize,
    pub total_partition_count: usize,
    pub total_cache_budget: usize,
    pub assertion_free_retained_bytes: usize,
    pub assertion_bearing_retained_bytes: usize,
    pub spawned_workers: usize,
    pub buffers_before_delivery: bool,
}

impl MatcherCohortDiagnostics {
    /// Whether cohorts were compiled apart.
    pub fn enabled(self) -> (enabled: bool)
        ensures
            enabled == self.enabled,
    {
        self.enabled
    }

    /// Number of populated cohorts.
    pub fn cohort_count(self) -> (count: usize)
        ensures
            count == self.cohort_count,
    {
        self.cohort_count
    }

    /// Assertion-free patterns.
    pub fn assertion_free_pattern_count(self) -> (count: usize)
        ensures
            count == self.assertion_free_pattern_count,
    {
        self.assertion_free_pattern_count
    }

    /// Assertion-bearing patterns.
    pub fn assertion_bearing_pattern_count(self) -> (count: usize)
        ensures
            count == self.assertion_bearing_pattern_count,
    {
        self.assertion_bearing_pattern_count
    }

    /// Partitions holding assertion-free patterns.
    pub fn assertion_free_partition_count(self) -> (count: usize)
        ensures
            count == self.assertion_free_partition_count,
    {
        self.assertion_free_partition_count
    }

    /// Partitions holding assertion-bearing patterns.
    pub fn assertion_bearing_partition_count(self) -> (count: usize)
        ensures
            count == self.assertion_bearing_partition_count,
    {
        self.assertion_bearing_partition_count
    }

    /// All partitions.
    pub fn total_partition_count(self) -> (count: usize)
        ensures
            count == self.total_partition_count,
    {
        self.total_partition_count
    }

    /// Summed cache budgets.
    pub fn total_cache_budget(self) -> (budget: usize)
        ensures
            budget == self.total_cache_budget,
    {
        self.total_cache_budget
    }

    /// Bytes of the assertion-free partitions.
    pub fn assertion_free_retained_bytes(self) -> (bytes: usize)
        ensures
            bytes == self.assertion_free_retained_bytes,
    {
        self.assertion_free_retained_bytes
    }

    /// Bytes of the assertion-bearing partitions.
    pub fn assertion_bearing_retained_bytes(self) -> (bytes: usize)
        ensures
            bytes == self.assertion_bearing_retained_bytes,
    {
        self.assertion_bearing_retained_bytes
    }

    /// Workers a parallel run starts besides the caller.
    pub fn spawned_workers(self) -> (count: usize)
        ensures
            count == self.spawned_workers,
    {
        self.spawned_workers
    }

    /// Whether matches are collected before delivery.
    pub fn buffers_before_delivery(self) -> (buffers: bool)
        ensures
            buffers == self.buffers_before_delivery,
    {
        self.buffers_before_delivery
    }
}

/// Counters of one matcher scan.
#[derive(Clone, Copy, Debug, PartialEq, Eq, Structural)]
pub struct ScanDiagnostics {
    pub requested_worker_count: usize,
    pub partition_count: usize,
    pub spawned_workers: usize,
    pub database_retained_bytes: usize,
    pub total_cache_budget: usize,
    pub cache_states: usize,
    pub cache_hits: u64,
    pub cache_misses: u64,
    pub fallback_transitions: u64,
    pub cache_table_bytes: usize,
    pub assertion_bypasses: u64,
    pub prefilter_path: PrefilterPath,
    pub prefilter_bypass: PrefilterBypass,
    pub prefilter_retained_bytes: usize,
    pub prefilter_candidate_bytes: usize,
    pub prefilter_admissions: u64,
    pub prefilter_candidate_starts: usize,
    pub prefilter_starts_scanned: usize,
    pub prefilter_starts_skipped: usize,
    pub buffered_events: usize,
    pub buffered_event_bytes: usize,
}

impl ScanDiagnostics {
    /// Worker count requested at build time.
    pub fn requested_worker_count(self) -> (count: usize)
        ensures
            count == self.requested_worker_count,
    {
        self.requested_worker_count
    }

    /// Partitions scanned.
    pub fn partition_count(self) -> (count: usize)
        ensures
            count == self.partition_count,
    {
        self.partition_count
    }

    /// Workers a parallel run starts besides the caller.
    pub fn spawned_workers(self) -> (count: usize)
        ensures
            count == self.spawned_workers,
    {
        self.spawned_workers
    }

    /// Bytes accounted for the databases.
    pub fn database_retained_bytes(self) -> (bytes: usize)
        ensures
            bytes == self.database_retained_bytes,
    {
        self.database_retained_bytes
    }

    /// Summed cache budgets.
    pub fn cache_budget(self) -> (budget: usize)
        ensures
            budget == self.total_cache_budget,
    {
        self.total_cache_budget
    }

    /// Deterministic states built.
    pub fn cache_states(self) -> (count: usize)
        ensures
            count == self.cache_states,
    {
        self.cache_states
    }

    /// Transitions served from the cache.
    pub fn cache_hits(self) -> (count: u64)
        ensures
            count == self.cache_hits,
    {
        self.cache_hits
    }

    /// Transitions computed for the cache.
    pub fn cache_misses(self) -> (count: u64)
        ensures
            count == self.cache_misses,
    {
        self.cache_misses
    }

    /// Transitions computed without the cache after it filled.
    pub fn fallback_transitions(self) -> (count: u64)
        ensures
            count == self.fallback_transitions,
    {
        self.fallback_transitions
    }

    /// Bytes of the direct ASCII transition tables.
    pub fn cache_table_bytes(self) -> (bytes: usize)
        ensures
            bytes == self.cache_table_bytes,
    {
        self.cache_table_bytes
    }

    /// Scans routed around the cache because of assertions.
    pub fn assertion_bypasses(self) -> (count: u64)
        ensures
            count == self.assertion_bypasses,
    {
        self.assertion_bypasses
    }

    /// Label of the start selection used.
    pub fn prefilter_path(self) -> (label: &'static str)
        ensures
            label == self.prefilter_path.label_spec(),
    {
        self.prefilter_path.label()
    }

    /// Label of the reason the literal filter was not used.
    pub fn prefilter_bypass(self) -> (label: &'static str)
        ensures
            label == self.prefilter_bypass.label_spec(),
    {
        self.prefilter_bypass.label()
    }

    /// Bytes of the start selection tables.
    pub fn prefilter_retained_bytes(self) -> (bytes: usize)
        ensures
            bytes == self.prefilter_retained_bytes,
    {
        self.prefilter_retained_bytes
    }

    /// Bytes of the candidate bitmap.
    pub fn prefilter_candidate_bytes(self) -> (bytes: usize)
        ensures
            bytes == self.prefilter_candidate_bytes,
    {
        self.prefilter_candidate_bytes
    }

    /// Starts the literal filter admitted.
    pub fn prefilter_admissions(self) -> (count: u64)
        ensures
            count == self.prefilter_admissions,
    {
        self.prefilter_admissions
    }

    /// Distinct candidate starts.
    pub fn prefilter_candidate_starts(self) -> (count: usize)
        ensures
            count == self.prefilter_candidate_starts,
    {
        self.prefilter_candidate_starts
    }

    /// Starts the automaton visited.
    pub fn prefilter_starts_scanned(self) -> (count: usize)
        ensures
            count == self.prefilter_starts_scanned,
    {
        self.prefilter_starts_scanned
    }

    /// Starts skipped before the automaton.
    pub fn prefilter_starts_skipped(self) -> (count: usize)
        ensures
            count == self.prefilter_starts_skipped,
    {
        self.prefilter_starts_skipped
    }

    /// Matches collected before delivery.
    pub fn buffered_events(self) -> (count: usize)
        ensures
            count == self.buffered_events,
    {
        self.buffered_events
    }

    /// Bytes of the collected matches.
    pub fn buffered_event_bytes(self) -> (bytes: usize)
        ensures
            bytes == self.buffered_event_bytes,
    {
        self.buffered_event_bytes
    }
}

/// How many of `target` partitions each cohort receives: one each, then
/// one at a time to the cohort with the most patterns per partition, ties
/// to the assertion-free cohort, never beyond a cohort's pattern count.
pub fn allocate_cohort_partitions(pattern_counts: [usize; 2], requested_worker_count: usize) -> (allocation: [usize; 2])
    requires
        pattern_counts[0] > 0,
        pattern_counts[1] > 0,
        pattern_counts[0] + pattern_counts[1] <= usize::MAX,
    ensures
        1 <= allocation[0] <= pattern_counts[0],
        1 <= allocation[1] <= pattern_counts[1],
        allocation[0] + allocation[1] == cohort_target(pattern_counts[0] + pattern_counts[1], requested_worker_count as int),
        (allocation[0] as int, allocation[1] as int) == allocation_after(
            (pattern_counts[0] as int, pattern_counts[1] as int),
            (cohort_target(pattern_counts[0] + pattern_counts[1], requested_worker_count as int) - 2) as nat,
        ),
{
    let total = pattern_counts[0] + pattern_counts[1];
    let wanted: usize = if requested_worker_count < 2 { 2 } else { requested_worker_count };
    let target: usize = if wanted < total { wanted } else { total };
    let mut allocation: [usize; 2] = [1, 1];
    while allocation[0] + allocation[1] < target
        invariant
            total == pattern_counts[0] + pattern_counts[1],
            2 <= target <= total,
            target == cohort_target(total as int, requested_worker_count as int),
            1 <= allocation[0] <= pattern_counts[0],
            1 <= allocation[1] <= pattern_counts[1],
            allocation[0] + allocation[1] <= target,
            (allocation[0] as int, allocation[1] as int) == allocation_after(
                (pattern_counts[0] as int, pattern_counts[1] as int),
                (allocation[0] + allocation[1] - 2) as nat,
            ),
        decreases target - (allocation[0] + allocation[1]),
    {
        let ghost steps = (allocation[0] + allocation[1] - 2) as nat;
        let grow_free = allocation[0] < pattern_counts[0];
        let grow_bearing = allocation[1] < pattern_counts[1];
        let selected: usize = if grow_free && grow_bearing {
            proof {
                lemma_product_fits(pattern_counts[0] as int, allocation[1] as int);
                lemma_product_fits(pattern_counts[1] as int, allocation[0] as int);
            }
            let free_pressure = (pattern_counts[0] as u128) * (allocation[1] as u128);
            let bearing_pressure = (pattern_counts[1] as u128) * (allocation[0] as u128);
            if free_pressure >= bearing_pressure { 0 } else { 1 }
        } else if grow_free {
            0
        } else {
            1
        };
        proof {
            assert(selected == next_cohort(
                (pattern_counts[0] as int, pattern_counts[1] as int),
                (allocation[0] as int, allocation[1] as int),
            ));
        }
        if selected == 0 {
            allocation[0] = allocation[0] + 1;
        } else {
            allocation[1] = allocation[1] + 1;
        }
        proof {
            assert((allocation[0] + allocation[1] - 2) as nat == steps + 1);
        }
    }
    allocation
}

proof fn lemma_product_fits(a: int, b: int)
    requires
        0 <= a <= usize::MAX,
        0 <= b <= usize::MAX,
    ensures
        a * b <= u128::MAX,
{
    assert(a * b <= 0xffff_ffff_ffff_ffff * 0xffff_ffff_ffff_ffff) by (nonlinear_arith)
        requires
            0 <= a <= 0xffff_ffff_ffff_ffff,
            0 <= b <= 0xffff_ffff_ffff_ffff,
    ;
}

/// Which cohort receives the next partition: the one with the most patterns
/// per partition that still has patterns to spare, ties to the
/// assertion-free cohort.
pub open spec fn next_cohort(counts: (int, int), allocation: (int, int)) -> int {
    let grow_free = allocation.0 < counts.0;
    let grow_bearing = allocation.1 < counts.1;
    if grow_free && grow_bearing {
        if counts.0 * allocation.1 >= counts.1 * allocation.0 {
            0
        } else {
            1
        }
    } else if grow_free {
        0
    } else {
        1
    }
}

/// The allocation after `steps` partitions beyond one per cohort.
pub open spec fn allocation_after(counts: (int, int), steps: nat) -> (int, int)
    decreases steps,
{
    if steps == 0 {
        (1, 1)
    } else {
        let before = allocation_after(counts, (steps - 1) as nat);
        if next_cohort(counts, before) == 0 {
            (before.0 + 1, before.1)
        } else {
            (before.0, before.1 + 1)
        }
    }
}

/// The partition target: the request, at least two, at most the patterns.
pub open spec fn cohort_target(total: int, requested: int) -> int {
    let wanted = if requested < 2 { 2 } else { requested };
    if wanted < total { wanted } else { total }
}

/// How many of the first `extra` partitions fall in `start..start + count`.
pub open spec fn remainder_share(extra: int, start: int, count: int) -> int {
    let after = if extra > start { extra - start } else { 0 };
    if after < count { after } else { count }
}

/// The share of `total_budget` that partitions `start..start + count` of
/// `total_partitions` receive, spreading the remainder over the first
/// partitions.
pub fn cohort_cache_budget(total_budget: usize, total_partitions: usize, partition_start: usize, partition_count: usize) -> (budget: usize)
    requires
        total_partitions > 0,
    ensures
        budget == crate::hir::sat_add(
            crate::hir::sat_mul((total_budget / total_partitions) as int, partition_count as int),
            remainder_share(total_budget as int % total_partitions as int, partition_start as int, partition_count as int),
        ),
{
    let per = total_budget / total_partitions;
    let extra = total_budget % total_partitions;
    let after = if extra > partition_start { extra - partition_start } else { 0 };
    let extra_in_cohort = if after < partition_count { after } else { partition_count };
    let base = crate::hir::saturating_mul(per, partition_count);
    add_usize(base, extra_in_cohort)
}

impl MatcherBuilder {
    /// The registered patterns and the build options, consuming the builder.
    pub(crate) fn into_parts(self) -> (parts: (Vec<HirPattern>, usize, bool, bool))
        ensures
            parts.0@ == self.patterns_spec(),
            parts.1 == self.budget_spec(),
            parts.2 == self.prefilter_spec(),
            parts.3 == self.literal_prefilter_spec(),
            self.well_formed() ==> forall|i: int| 0 <= i < parts.0@.len() ==> hir_well_formed(#[trigger] parts.0@[i].expression_spec()),
    {
        (self.patterns, self.state_cache_budget, self.prefilter_enabled, self.literal_prefilter_enabled)
    }

    /// Compiles the registered patterns into an immutable matcher.
    pub fn build(self) -> (matcher: Result<Matcher, Error>)
        requires
            self.well_formed(),
        ensures
            self.patterns_spec().len() == 0 ==> matcher == Err::<Matcher, Error>(Error::NoPatterns),
            self.patterns_spec().len() > 0 && self.worker_count_spec() == 0 ==> matcher == Err::<Matcher, Error>(Error::InvalidWorkerCount),
            matcher matches Ok(m) ==> m.well_formed() && m.prefilter_spec() == self.prefilter_spec()
                && m.literal_prefilter_spec() == self.literal_prefilter_spec()
                && m.requested_worker_count_spec() == self.worker_count_spec(),
            matcher matches Ok(m) ==> (!self.cohort_spec() ==> m.partitions_spec().len() == if self.worker_count_spec() < self.patterns_spec().len() {
                self.worker_count_spec() as int
            } else {
                self.patterns_spec().len() as int
            } && !m.layout_spec().enabled && m.layout_spec().assertion_free_pattern_count == 0
                && m.layout_spec().assertion_bearing_pattern_count == 0
                && m.layout_spec().assertion_free_partition_count == 0
                && m.layout_spec().assertion_bearing_partition_count == 0 && m.layout_spec().split_partition is None),
            matcher matches Ok(m) ==> budget_sum(m.partitions_spec(), 0, m.partitions_spec().len() as int) == self.budget_spec(),
            matcher matches Ok(m) ==> compiles_all(m.partitions_spec(), self.patterns_spec()),
            matcher matches Ok(m) ==> (all_literal(self.patterns_spec()) ==> all_partitions_literal(m.partitions_spec())
                && partition_patterns(m.partitions_spec(), m.partitions_spec().len()) == self.patterns_spec()),
            matcher matches Ok(m) ==> (!self.cohort_spec() ==> forall|i: int|
                0 <= i < m.partitions_spec().len() ==> (#[trigger] m.partitions_spec()[i]).patterns_spec()
                    == self.patterns_spec().subrange(
                    partition_start(self.patterns_spec().len() as int, m.partitions_spec().len() as int, i),
                    partition_start(self.patterns_spec().len() as int, m.partitions_spec().len() as int, i + 1),
                ) && m.partitions_spec()[i].budget_spec() == budget_share(
                    self.budget_spec() as int,
                    m.partitions_spec().len() as int,
                    i,
                )),
            matcher matches Err(e) ==> e == Error::NoPatterns || e == Error::InvalidWorkerCount || e == Error::PatternSetTooLarge,
            matcher matches Ok(m) ==> (self.cohort_spec() ==> cohort_layout_of(m, self.patterns_spec(), self.worker_count_spec())),
            self.patterns_spec().len() > 0 && self.worker_count_spec() > 0 && fits_identifiers(self.patterns_spec())
                ==> matcher is Ok,
    {
        if self.patterns.len() == 0 {
            return Err(Error::NoPatterns);
        }
        if self.worker_count == 0 {
            return Err(Error::InvalidWorkerCount);
        }
        if self.cohort_compilation_enabled {
            return build_cohort_matcher(self);
        }
        let partitions = match compile_partitions(self.patterns.as_slice(), self.worker_count, self.state_cache_budget) {
            Ok(partitions) => partitions,
            Err(error) => return Err(error),
        };
        Ok(Matcher {
            partitions,
            requested_worker_count: self.worker_count,
            cohort_layout: CohortLayout::disabled(),
            prefilter_enabled: self.prefilter_enabled,
            literal_prefilter_enabled: self.literal_prefilter_enabled,
        })
    }
}

/// The patterns of `patterns` whose assertion use is `bearing`, in order.
pub open spec fn cohort_patterns(patterns: Seq<HirPattern>, bearing: bool) -> Seq<HirPattern>
    decreases patterns.len(),
{
    if patterns.len() == 0 {
        seq![]
    } else if uses_assertions_spec(patterns.last().expression_spec()) == bearing {
        cohort_patterns(patterns.drop_last(), bearing).push(patterns.last())
    } else {
        cohort_patterns(patterns.drop_last(), bearing)
    }
}

/// The layout of a matcher built with cohorts from `patterns`: the
/// assertion-free patterns in registration order, then the assertion-bearing
/// ones, with their counts; when both cohorts are present, the partitions
/// each received and the partition where the bearing cohort starts; else as
/// many partitions as workers, at most one per pattern.
pub open spec fn cohort_layout_of(m: Matcher, patterns: Seq<HirPattern>, workers: usize) -> bool {
    let free = cohort_patterns(patterns, false);
    let bearing = cohort_patterns(patterns, true);
    let layout = m.layout_spec();
    &&& layout.enabled
    &&& layout.assertion_free_pattern_count == free.len()
    &&& layout.assertion_bearing_pattern_count == bearing.len()
    &&& partition_patterns(m.partitions_spec(), m.partitions_spec().len()) == free + bearing
    &&& (free.len() > 0 && bearing.len() > 0 ==> {
        &&& layout.split_partition == Some(layout.assertion_free_partition_count)
        &&& layout.assertion_free_partition_count + layout.assertion_bearing_partition_count == m.partitions_spec().len()
        &&& (layout.assertion_free_partition_count as int, layout.assertion_bearing_partition_count as int)
            == allocation_after(
            (free.len() as int, bearing.len() as int),
            (cohort_target((free.len() + bearing.len()) as int, workers as int) - 2) as nat,
        )
    })
    &&& (free.len() == 0 || bearing.len() == 0 ==> layout.split_partition is None && m.partitions_spec().len() == if workers
        < patterns.len() {
        workers as int
    } else {
        patterns.len() as int
    })
}

/// The patterns of two runs of partitions, one after the other.
proof fn lemma_partition_patterns_append(first: Seq<MatcherPartition>, second: Seq<MatcherPartition>, k: nat)
    requires
        k <= second.len(),
    ensures
        partition_patterns(first + second, first.len() + k) == partition_patterns(first, first.len())
            + partition_patterns(second, k),
    decreases k,
{
    let joined = first + second;
    if k == 0 {
        assert(partition_patterns(second, 0) =~= Seq::<HirPattern>::empty());
        assert forall|j: nat| j <= first.len() implies #[trigger] partition_patterns(joined, j) == partition_patterns(first, j) by {
            lemma_partition_patterns_prefix(first, second, j);
        }
        assert(partition_patterns(joined, first.len()) + Seq::<HirPattern>::empty() =~= partition_patterns(joined, first.len()));
    } else {
        lemma_partition_patterns_append(first, second, (k - 1) as nat);
        assert(joined[first.len() + k - 1] == second[k - 1]);
        assert(partition_patterns(first, first.len()) + partition_patterns(second, (k - 1) as nat) + second[k - 1].patterns_spec()
            =~= partition_patterns(first, first.len()) + (partition_patterns(second, (k - 1) as nat) + second[k - 1].patterns_spec()));
    }
}

proof fn lemma_partition_patterns_prefix(first: Seq<MatcherPartition>, second: Seq<MatcherPartition>, j: nat)
    requires
        j <= first.len(),
    ensures
        partition_patterns(first + second, j) == partition_patterns(first, j),
    decreases j,
{
    if j > 0 {
        lemma_partition_patterns_prefix(first, second, (j - 1) as nat);
        assert((first + second)[j - 1] == first[j - 1]);
    }
}

/// A list read backwards, then pushed onto, reads as the new item followed
/// by the list backwards.
proof fn lemma_reverse_push(s: Seq<HirPattern>, x: HirPattern)
    ensures
        s.push(x).reverse() =~= seq![x] + s.reverse(),
{
    assert forall|i: int| 0 <= i < s.len() + 1 implies #[trigger] s.push(x).reverse()[i] == (seq![x] + s.reverse())[i] by {
        if i > 0 {
            assert(s.push(x).reverse()[i] == s.push(x)[s.len() - i]);
        }
    }
}

/// A list read backwards needs what it needs forwards.
proof fn lemma_patterns_need_reverse(s: Seq<HirPattern>)
    ensures
        patterns_state_need(s.reverse()) == patterns_state_need(s),
        patterns_predicate_need(s.reverse()) == patterns_predicate_need(s),
    decreases s.len(),
{
    if s.len() > 0 {
        let last = seq![s.last()];
        assert(s.reverse() =~= last + s.drop_last().reverse());
        lemma_patterns_need_append(last, s.drop_last().reverse());
        lemma_patterns_need_reverse(s.drop_last());
        assert(last.drop_last() =~= Seq::<HirPattern>::empty());
        assert(s.drop_last() + last =~= s);
        lemma_patterns_need_append(s.drop_last(), last);
    }
}

/// Builds a matcher whose assertion-free and assertion-bearing patterns sit
/// in separate partitions, assertion-free first.
fn build_cohort_matcher(builder: MatcherBuilder) -> (matcher: Result<Matcher, Error>)
    requires
        builder.well_formed(),
        builder.patterns_spec().len() > 0,
        builder.worker_count_spec() > 0,
    ensures
        matcher matches Ok(m) ==> m.well_formed() && m.prefilter_spec() == builder.prefilter_spec()
            && m.literal_prefilter_spec() == builder.literal_prefilter_spec()
            && m.requested_worker_count_spec() == builder.worker_count_spec() && m.layout_spec().enabled,
        matcher matches Ok(m) ==> compiles_all(m.partitions_spec(), builder.patterns_spec()),
        matcher matches Ok(m) ==> (all_literal(builder.patterns_spec()) ==> all_partitions_literal(m.partitions_spec())
            && partition_patterns(m.partitions_spec(), m.partitions_spec().len()) == builder.patterns_spec()),
        matcher matches Err(e) ==> e == Error::PatternSetTooLarge,
        fits_identifiers(builder.patterns_spec()) ==> matcher is Ok,
        matcher matches Ok(m) ==> cohort_layout_of(m, builder.patterns_spec(), builder.worker_count_spec()),
        matcher matches Ok(m) ==> budget_sum(m.partitions_spec(), 0, m.partitions_spec().len() as int) == builder.budget_spec(),
{
    let ghost all = builder.patterns@;
    let total_count = builder.patterns.len();
    let mut patterns = builder.patterns;
    let mut free_reversed: Vec<HirPattern> = Vec::new();
    let mut bearing_reversed: Vec<HirPattern> = Vec::new();
    while patterns.len() > 0
        invariant
            forall|i: int| 0 <= i < patterns@.len() ==> hir_well_formed(#[trigger] patterns@[i].expression_spec()),
            forall|i: int| 0 <= i < free_reversed@.len() ==> hir_well_formed(#[trigger] free_reversed@[i].expression_spec()),
            forall|i: int| 0 <= i < bearing_reversed@.len() ==> hir_well_formed(#[trigger] bearing_reversed@[i].expression_spec()),
            patterns@.len() + free_reversed@.len() + bearing_reversed@.len() == all.len(),
            all.len() == total_count,
            all.len() > 0,
            patterns@ == all.take(patterns@.len() as int),
            forall|r: int|
                patterns@.len() <= r < all.len() ==> free_reversed@.contains(#[trigger] all[r])
                    || bearing_reversed@.contains(all[r]),
            all_literal(all) ==> all_literal(free_reversed@) && all_literal(bearing_reversed@),
            all_literal(all) ==> bearing_reversed@.len() == 0 && free_reversed@ == all.skip(patterns@.len() as int).reverse(),
            patterns_state_need(all) == patterns_state_need(patterns@) + patterns_state_need(free_reversed@)
                + patterns_state_need(bearing_reversed@),
            patterns_predicate_need(all) == patterns_predicate_need(patterns@) + patterns_predicate_need(
                free_reversed@,
            ) + patterns_predicate_need(bearing_reversed@),
            cohort_patterns(patterns@, false) + free_reversed@.reverse() == cohort_patterns(all, false),
            cohort_patterns(patterns@, true) + bearing_reversed@.reverse() == cohort_patterns(all, true),
        decreases patterns@.len(),
    {
        let ghost n = patterns@.len();
        let ghost free_before = free_reversed@;
        let ghost bearing_before = bearing_reversed@;
        let pattern = patterns.pop().unwrap();
        proof {
            assert(pattern == all[n - 1]);
            assert(patterns@ =~= all.take(n - 1));
            if all_literal(all) {
                assert(literal_units(all[n - 1].expression_spec()) is Some);
                crate::language::lemma_literal_assertion_free(pattern.expression_spec());
                assert(all.skip(n - 1).reverse() =~= all.skip(n as int).reverse().push(all[n - 1]));
            }
        }
        if pattern.expression().uses_assertions() {
            bearing_reversed.push(pattern);
        } else {
            free_reversed.push(pattern);
        }
        proof {
            assert(free_reversed@.len() > free_before.len() ==> free_reversed@.drop_last() =~= free_before);
            assert(bearing_reversed@.len() > bearing_before.len() ==> bearing_reversed@.drop_last() =~= bearing_before);
            assert(all.take(n as int).drop_last() =~= patterns@);
            let old_patterns = all.take(n as int);
            assert(old_patterns.last() == pattern);
            lemma_reverse_push(free_before, pattern);
            lemma_reverse_push(bearing_before, pattern);
            if uses_assertions_spec(pattern.expression_spec()) {
                assert(free_reversed@ == free_before);
                assert(cohort_patterns(patterns@, true) + bearing_reversed@.reverse()
                    =~= cohort_patterns(patterns@, true).push(pattern) + bearing_before.reverse());
            } else {
                assert(bearing_reversed@ == bearing_before);
                assert(cohort_patterns(patterns@, false) + free_reversed@.reverse()
                    =~= cohort_patterns(patterns@, false).push(pattern) + free_before.reverse());
            }
            assert forall|r: int| patterns@.len() <= r < all.len() implies free_reversed@.contains(#[trigger] all[r])
                || bearing_reversed@.contains(all[r]) by {
                if r == n - 1 {
                    if bearing_reversed@.len() > bearing_before.len() {
                        assert(bearing_reversed@[bearing_before.len() as int] == all[r]);
                    } else {
                        assert(free_reversed@[free_before.len() as int] == all[r]);
                    }
                } else if free_before.contains(all[r]) {
                    let k = choose|k: int| 0 <= k < free_before.len() && free_before[k] == all[r];
                    assert(free_reversed@[k] == all[r]);
                } else {
                    let k = choose|k: int| 0 <= k < bearing_before.len() && bearing_before[k] == all[r];
                    assert(bearing_reversed@[k] == all[r]);
                }
            }
            if all_literal(all) {
                assert(literal_units(all[n - 1].expression_spec()) is Some);
                assert forall|i: int| 0 <= i < free_reversed@.len() implies #[trigger] literal_units(free_reversed@[i].expression_spec()) is Some by {
                    if i < free_before.len() {
                        assert(free_reversed@[i] == free_before[i]);
                    }
                }
                assert forall|i: int| 0 <= i < bearing_reversed@.len() implies #[trigger] literal_units(bearing_reversed@[i].expression_spec()) is Some by {
                    if i < bearing_before.len() {
                        assert(bearing_reversed@[i] == bearing_before[i]);
                    }
                }
            }
        }
    }
    proof {
        if all_literal(all) {
            assert forall|i: int| 0 <= i < free_reversed@.reverse().len() implies #[trigger] literal_units(free_reversed@.reverse()[i].expression_spec()) is Some by {
                assert(free_reversed@.reverse()[i] == free_reversed@[free_reversed@.len() - 1 - i]);
            }
            assert forall|i: int| 0 <= i < bearing_reversed@.reverse().len() implies #[trigger] literal_units(bearing_reversed@.reverse()[i].expression_spec()) is Some by {
                assert(bearing_reversed@.reverse()[i] == bearing_reversed@[bearing_reversed@.len() - 1 - i]);
            }
        }
    }
    proof {
        assert forall|r: int| 0 <= r < all.len() implies (free_reversed@.reverse().contains(#[trigger] all[r])
            || bearing_reversed@.reverse().contains(all[r])) by {
            if free_reversed@.contains(all[r]) {
                lemma_reverse_contains(free_reversed@, all[r]);
            } else {
                lemma_reverse_contains(bearing_reversed@, all[r]);
            }
        }
    }
    let free = reverse_patterns(free_reversed);
    let bearing = reverse_patterns(bearing_reversed);
    proof {
        lemma_patterns_need_reverse(free_reversed@);
        lemma_patterns_need_reverse(bearing_reversed@);
        assert(patterns@.len() == 0);
        assert(cohort_patterns(patterns@, false) + free_reversed@.reverse() =~= free_reversed@.reverse());
        assert(cohort_patterns(patterns@, true) + bearing_reversed@.reverse() =~= bearing_reversed@.reverse());
    }
    let free_count = free.len();
    let bearing_count = bearing.len();
    if free_count == 0 || bearing_count == 0 {
        let only = if free_count == 0 { bearing } else { free };
        let partitions = match compile_partitions(only.as_slice(), builder.worker_count, builder.state_cache_budget) {
            Ok(partitions) => partitions,
            Err(error) => return Err(error),
        };
        let partition_count = partitions.len();
        proof {
            if all_literal(all) {
                assert(all.skip(0) =~= all);
                assert(free@ == all.reverse().reverse());
                assert(all.reverse().reverse() =~= all);
            }
            assert forall|r: int| 0 <= r < all.len() implies #[trigger] holds_pattern(partitions@, all[r]) by {
                if free_count == 0 {
                    assert(!free@.contains(all[r]));
                } else {
                    assert(!bearing@.contains(all[r]));
                }
                lemma_holds_listed(partitions@, only@, all[r]);
            }
        }
        let matcher = Matcher {
            partitions,
            requested_worker_count: builder.worker_count,
            cohort_layout: CohortLayout::single(free_count, bearing_count, partition_count),
            prefilter_enabled: builder.prefilter_enabled,
            literal_prefilter_enabled: builder.literal_prefilter_enabled,
        };
        proof {
            assert(free@ == cohort_patterns(all, false));
            assert(bearing@ == cohort_patterns(all, true));
            if free_count == 0 {
                assert(free@ + bearing@ =~= bearing@);
            } else {
                assert(free@ + bearing@ =~= free@);
            }
            assert(matcher.partitions_spec() == partitions@);
        }
        return Ok(matcher);
    }
    let allocation = allocate_cohort_partitions([free_count, bearing_count], builder.worker_count);
    let free_partitions = allocation[0];
    let bearing_partitions = allocation[1];
    let total_partitions = free_partitions + bearing_partitions;
    let free_budget = cohort_cache_budget(builder.state_cache_budget, total_partitions, 0, free_partitions);
    let bearing_budget = cohort_cache_budget(builder.state_cache_budget, total_partitions, free_partitions, bearing_partitions);
    let mut partitions = match compile_partitions(free.as_slice(), free_partitions, free_budget) {
        Ok(partitions) => partitions,
        Err(error) => return Err(error),
    };
    let split_partition = partitions.len();
    let mut rest = match compile_partitions(bearing.as_slice(), bearing_partitions, bearing_budget) {
        Ok(partitions) => partitions,
        Err(error) => return Err(error),
    };
    let ghost first = partitions@;
    let ghost second = rest@;
    partitions.append(&mut rest);
    proof {
        assert(partitions@ == first + second);
        if all_literal(all) {
            assert forall|p: int| 0 <= p < partitions@.len() implies all_literal(#[trigger] partitions@[p].patterns_spec()) by {
                if p < first.len() {
                    assert(partitions@[p] == first[p]);
                } else {
                    assert(partitions@[p] == second[p - first.len()]);
                }
            }
        }
        assert forall|r: int| 0 <= r < all.len() implies #[trigger] holds_pattern(partitions@, all[r]) by {
            if free@.contains(all[r]) {
                lemma_holds_listed(first, free@, all[r]);
            } else {
                lemma_holds_listed(second, bearing@, all[r]);
            }
            lemma_holds_append(first, second, all[r]);
        }
        assert forall|i: int| 0 <= i < partitions@.len() implies (#[trigger] partitions@[i]).well_formed() by {
            if i < first.len() {
                assert(partitions@[i] == first[i]);
            } else {
                assert(partitions@[i] == second[i - first.len()]);
            }
        }
    }
    let matcher = Matcher {
        partitions,
        requested_worker_count: builder.worker_count,
        cohort_layout: CohortLayout {
            enabled: true,
            assertion_free_pattern_count: free_count,
            assertion_bearing_pattern_count: bearing_count,
            assertion_free_partition_count: free_partitions,
            assertion_bearing_partition_count: bearing_partitions,
            split_partition: Some(split_partition),
        },
        prefilter_enabled: builder.prefilter_enabled,
        literal_prefilter_enabled: builder.literal_prefilter_enabled,
    };
    proof {
        assert(free@ == cohort_patterns(all, false));
        assert(bearing@ == cohort_patterns(all, true));
        lemma_partition_patterns_append(first, second, second.len());
        lemma_budget_sum_append(first, second, second.len() as int);
        lemma_cohort_budgets_sum(builder.state_cache_budget as nat, free_partitions as nat, bearing_partitions as nat);
        assert(matcher.partitions_spec() == first + second);
        assert(first.len() == free_partitions);
        assert(second.len() == bearing_partitions);
    }
    Ok(matcher)
}

/// The patterns in reverse order.
fn reverse_patterns(patterns: Vec<HirPattern>) -> (reversed: Vec<HirPattern>)
    ensures
        reversed@ == patterns@.reverse(),
{
    let ghost original = patterns@;
    let mut rest = patterns;
    let mut reversed: Vec<HirPattern> = Vec::new();
    while rest.len() > 0
        invariant
            rest@ == original.take(rest@.len() as int),
            reversed@ == original.skip(rest@.len() as int).reverse(),
            rest@.len() <= original.len(),
        decreases rest@.len(),
    {
        let ghost n = rest@.len();
        let pattern = rest.pop().unwrap();
        reversed.push(pattern);
        proof {
            assert(rest@ =~= original.take(n - 1));
            assert(reversed@ =~= original.skip(n - 1).reverse());
        }
    }
    proof {
        assert(original.skip(0) =~= original);
    }
    reversed
}

} // verus!
