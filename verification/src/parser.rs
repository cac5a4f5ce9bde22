//! Parser from pattern text to normalized HIR.
use vstd::prelude::*;

use crate::case_fold::{lower_upper, simple_lower, simple_upper};
use crate::error::Error;
use crate::hir::{
    any_can_consume, can_consume_spec, flatten_sequence, minimum_consumed_spec, sequence_minimum, hir_well_formed, is_normalized_alternation, is_normalized_repeat,
    is_normalized_sequence, lemma_normalized_alternation_wf, lemma_normalized_sequence_wf,
    Assertion, Hir, HirPattern,
};
use crate::predicate::{is_ascii_word_spec, SymbolPredicate};
use crate::types::{encode_utf16, utf16_of_chars, PatternFlags, PatternId, Utf16Span};

verus! {

/// Deepest supported group nesting.
pub const MAX_GROUP_DEPTH: usize = 128;

/// Largest supported counted-repetition bound.
pub const MAX_REPEAT_BOUND: u16 = 1000;

/// `error` is a pattern error for `pattern_id` whose span lies within a
/// pattern of `length` units.
pub open spec fn is_pattern_error(error: Error, pattern_id: PatternId, length: int) -> bool {
    match error {
        Error::UnsupportedPattern { pattern_id: id, span, .. } => id == pattern_id && span@.0
            <= span@.1 <= length,
        Error::InvalidPattern { pattern_id: id, span } => id == pattern_id && span@.0 <= span@.1
            <= length,
        Error::PatternNestingTooDeep { pattern_id: id, span } => id == pattern_id && span@.0
            <= span@.1 <= length,
        _ => false,
    }
}

/// The units of a leading `(?i)` flag group.
pub open spec fn has_case_flag_prefix(units: Seq<u16>) -> bool {
    units.len() >= 4 && units[0] == 0x28 && units[1] == 0x3f && units[2] == 0x69 && units[3]
        == 0x29
}

/// A unit with no syntactic role: it stands for itself wherever it occurs.
pub open spec fn is_plain(unit: u16) -> bool {
    !(unit == 0x5c || unit == 0x2e || unit == 0x5b || unit == 0x5d || unit == 0x28 || unit == 0x29
        || unit == 0x7c || unit == 0x3f || unit == 0x2a || unit == 0x2b || unit == 0x7b || unit == 0x7d
        || unit == 0x5e || unit == 0x24)
}

/// Every unit of `units` from `from` on is plain.
pub open spec fn plain_from(units: Seq<u16>, from: int) -> bool {
    forall|i: int| from <= i < units.len() ==> #[trigger] is_plain(units[i])
}

/// The symbols spelling `units`, in order.
pub open spec fn symbols(units: Seq<u16>) -> Seq<Hir> {
    units.map_values(|unit: u16| Hir::Symbol(unit))
}

/// `h` is the normalized expression spelling exactly `units`.
pub open spec fn is_literal_hir(units: Seq<u16>, h: Hir) -> bool {
    if units.len() == 0 {
        h is Epsilon
    } else if units.len() == 1 {
        h == Hir::Symbol(units[0])
    } else {
        h matches Hir::Sequence(v) && v@ == symbols(units)
    }
}

/// `atom` is what the plain unit `unit` parses to: the unit itself, or, when
/// `folded` and the unit has case variants, the set of the unit and its simple
/// lower- and upper-case mappings.
pub open spec fn is_literal_atom(unit: u16, folded: bool, atom: Hir) -> bool {
    if folded && !(simple_lower(unit) == unit && simple_upper(unit) == unit) {
        atom matches Hir::Predicate(p) && forall|x: u16| #[trigger]
            p.contains(x) == (x == unit || x == simple_lower(unit) || x == simple_upper(unit))
    } else {
        atom == Hir::Symbol(unit)
    }
}

/// `items` are the atoms of `units`, one per unit.
pub open spec fn literal_atoms(units: Seq<u16>, folded: bool, items: Seq<Hir>) -> bool {
    &&& items.len() == units.len()
    &&& forall|i: int| 0 <= i < units.len() ==> #[trigger] is_literal_atom(units[i], folded, items[i])
}

/// `h` is the normalized expression spelling `units`, each unit widened to
/// its case variants when `folded`.
pub open spec fn spells_literal(units: Seq<u16>, folded: bool, h: Hir) -> bool {
    if units.len() == 0 {
        h is Epsilon
    } else if units.len() == 1 {
        is_literal_atom(units[0], folded, h)
    } else {
        h matches Hir::Sequence(v) && literal_atoms(units, folded, v@)
    }
}

/// Without case folding, spelling a literal is the plain symbol sequence.
pub proof fn lemma_spells_unfolded(units: Seq<u16>, h: Hir)
    requires
        spells_literal(units, false, h),
    ensures
        is_literal_hir(units, h),
{
    if units.len() > 1 {
        let v = h->Sequence_0;
        assert(v@ =~= symbols(units)) by {
            assert forall|i: int| 0 <= i < units.len() implies v@[i] == symbols(units)[i] by {
                assert(is_literal_atom(units[i], false, v@[i]));
            }
        }
    }
}

proof fn lemma_atom_shape(unit: u16, folded: bool, atom: Hir)
    requires
        is_literal_atom(unit, folded, atom),
    ensures
        atom is Symbol || atom is Predicate,
        minimum_consumed_spec(atom) == Some(1int),
        can_consume_spec(atom),
{
    if let Hir::Predicate(p) = atom {
        assert(p.contains(unit));
        p.lemma_member_nonempty(unit);
    }
}

proof fn lemma_flatten_atoms(units: Seq<u16>, folded: bool, items: Seq<Hir>)
    requires
        literal_atoms(units, folded, items),
    ensures
        flatten_sequence(items) == Some(items),
        sequence_minimum(items) is Some,
        units.len() > 0 ==> any_can_consume(items),
    decreases units.len(),
{
    if units.len() > 0 {
        let n = units.len() - 1;
        assert(is_literal_atom(units[n], folded, items[n]));
        lemma_atom_shape(units[n], folded, items[n]);
        assert(literal_atoms(units.drop_last(), folded, items.drop_last())) by {
            assert forall|i: int| 0 <= i < units.drop_last().len() implies #[trigger]
                is_literal_atom(units.drop_last()[i], folded, items.drop_last()[i]) by {
                assert(is_literal_atom(units[i], folded, items[i]));
            }
        }
        lemma_flatten_atoms(units.drop_last(), folded, items.drop_last());
        assert(items.drop_last().push(items.last()) =~= items);
    } else {
        assert(items =~= Seq::<Hir>::empty());
    }
}

proof fn lemma_spelled_sequence(units: Seq<u16>, folded: bool, items: Seq<Hir>, h: Hir)
    requires
        literal_atoms(units, folded, items),
        is_normalized_sequence(items, h),
    ensures
        spells_literal(units, folded, h),
{
    lemma_flatten_atoms(units, folded, items);
}

proof fn lemma_spelled_alternation(units: Seq<u16>, folded: bool, s: Hir, h: Hir)
    requires
        spells_literal(units, folded, s),
        is_normalized_alternation(seq![s], h),
    ensures
        spells_literal(units, folded, h),
{
    if units.len() == 1 {
        lemma_atom_shape(units[0], folded, s);
    }
    assert(seq![s].drop_last() =~= Seq::<Hir>::empty());
    assert(crate::hir::flatten_alternation(Seq::<Hir>::empty()) == Seq::<Hir>::empty());
    assert(!(s is Never) && !(s is Alternation));
    assert(crate::hir::flatten_alternation(seq![s]) =~= seq![s]);
}

proof fn lemma_spelled_consumes(units: Seq<u16>, folded: bool, h: Hir)
    requires
        units.len() > 0,
        spells_literal(units, folded, h),
    ensures
        can_consume_spec(h),
{
    if units.len() == 1 {
        lemma_atom_shape(units[0], folded, h);
    } else {
        lemma_flatten_atoms(units, folded, h->Sequence_0@);
    }
}

/// The units the shorthand class `\letter` names: `\d` the ASCII digits,
/// `\w` the ASCII word units, `\s` space and tab through carriage return, and
/// the upper-case letters everything else.
pub open spec fn shorthand_member(letter: u16, x: u16) -> bool {
    let digit = 0x30 <= x <= 0x39;
    let word = (0x30 <= x <= 0x39) || (0x41 <= x <= 0x5a) || x == 0x5f || (0x61 <= x <= 0x7a);
    let space = x == 0x20 || (0x09 <= x <= 0x0d);
    if letter == 0x64 {
        digit
    } else if letter == 0x44 {
        !digit
    } else if letter == 0x77 {
        word
    } else if letter == 0x57 {
        !word
    } else if letter == 0x73 {
        space
    } else {
        !space
    }
}

/// The unit a control escape `\n`, `\t`, `\r`, `\f` stands for.
pub open spec fn control_unit(letter: u16) -> Option<u16> {
    if letter == 0x6e {
        Some(0x0au16)
    } else if letter == 0x74 {
        Some(0x09u16)
    } else if letter == 0x72 {
        Some(0x0du16)
    } else if letter == 0x66 {
        Some(0x0cu16)
    } else {
        None
    }
}

/// The unit that the class token at `i` lists: a unit other than `-` and
/// `\`, an escaped `\`, `]`, `[`, `-` or `^`, or a control escape.
pub open spec fn class_unit_at(units: Seq<u16>, i: int) -> Option<u16> {
    if units[i] == 0x2d {
        None
    } else if units[i] != 0x5c {
        Some(units[i])
    } else if i + 1 >= units.len() {
        None
    } else {
        let e = units[i + 1];
        if e == 0x5c || e == 0x5d || e == 0x5b || e == 0x2d || e == 0x5e {
            Some(e)
        } else {
            control_unit(e)
        }
    }
}

/// The class token at `i` is a shorthand escape.
pub open spec fn class_shorthand_at(units: Seq<u16>, i: int) -> bool {
    units[i] == 0x5c && i + 1 < units.len() && is_shorthand(units[i + 1])
}

/// Where the class token at `i` ends.
pub open spec fn class_token_end(units: Seq<u16>, i: int) -> int {
    if units[i] == 0x5c {
        i + 2
    } else {
        i + 1
    }
}

/// `listed` with the unit still waiting to be listed, if any.
pub open spec fn with_pending(listed: Set<u16>, pending: Option<u16>) -> Set<u16> {
    match pending {
        Some(unit) => listed.insert(unit),
        None => listed,
    }
}

/// The units a class body lists from `i` on, and where the class ends after
/// its `]`; `pending` is a listed unit that may still open a range, `range`
/// the first unit of a range whose last unit comes next. `None` where the
/// body is malformed: a range with no first or last unit, a range running
/// backwards, a shorthand as a range end, an unknown escape, or no `]`.
pub open spec fn class_members(
    units: Seq<u16>,
    i: int,
    pending: Option<u16>,
    range: Option<u16>,
    listed: Set<u16>,
) -> Option<(Set<u16>, int)>
    decreases units.len() - i,
{
    if i < 0 || i >= units.len() {
        None
    } else if units[i] == 0x5d {
        if range is Some {
            None
        } else {
            Some((with_pending(listed, pending), i + 1))
        }
    } else if units[i] == 0x2d {
        match pending {
            Some(first) => class_members(units, i + 1, None, Some(first), listed),
            None => None,
        }
    } else if class_unit_at(units, i) is Some {
        let unit = class_unit_at(units, i)->0;
        match range {
            Some(first) => if first <= unit {
                class_members(
                    units,
                    class_token_end(units, i),
                    None,
                    None,
                    listed.union(Set::new(|x: u16| first <= x <= unit)),
                )
            } else {
                None
            },
            None => class_members(units, class_token_end(units, i), Some(unit), None, with_pending(listed, pending)),
        }
    } else if class_shorthand_at(units, i) {
        if range is Some {
            None
        } else {
            class_members(
                units,
                i + 2,
                None,
                None,
                with_pending(listed, pending).union(Set::new(|x: u16| shorthand_member(units[i + 1], x))),
            )
        }
    } else {
        None
    }
}

/// The class opened at `i` is negated: `[` is followed by `^`.
pub open spec fn class_inverted(units: Seq<u16>, i: int) -> bool {
    i + 1 < units.len() && units[i + 1] == 0x5e
}

/// Where the body of the class opened at `i` starts.
pub open spec fn class_body_start(units: Seq<u16>, i: int) -> int {
    if class_inverted(units, i) {
        i + 2
    } else {
        i + 1
    }
}

/// The units a well-formed class opened at `i` lists, and where it ends.
pub open spec fn class_at(units: Seq<u16>, i: int) -> Option<(Set<u16>, int)> {
    class_members(units, class_body_start(units, i), None, None, Set::empty())
}

/// The units the class opened at `i` lists.
pub open spec fn class_listed(units: Seq<u16>, i: int) -> Set<u16> {
    match class_at(units, i) {
        Some((listed, _)) => listed,
        None => Set::empty(),
    }
}

/// Where the class opened at `i` ends.
pub open spec fn class_end(units: Seq<u16>, i: int) -> int {
    match class_at(units, i) {
        Some((_, end)) => end,
        None => i + 1,
    }
}

/// `x` is one of the `listed` units or, when `folded`, a simple lower- or
/// upper-case mapping of one of them.
pub open spec fn class_admits(listed: Set<u16>, folded: bool, x: u16) -> bool {
    listed.contains(x) || (folded && exists|y: u16| #[trigger] listed.contains(y) && (simple_lower(y) == x
        || simple_upper(y) == x))
}

/// A simple atom starts at `i`: a plain unit, a line anchor, a dot, a
/// well-formed character class, an escaped literal, a word-boundary escape, a
/// shorthand escape, or a control escape.
pub open spec fn is_simple_atom_start(units: Seq<u16>, i: int) -> bool {
    &&& 0 <= i < units.len()
    &&& is_plain(units[i]) || units[i] == 0x5e || units[i] == 0x24 || units[i] == 0x2e || (units[i]
        == 0x5b && class_at(units, i) is Some) || (units[i] == 0x5c && i + 1 < units.len() && (
    is_escaped_literal(units[i + 1]) || units[i + 1] == 0x62 || units[i + 1] == 0x42 || is_shorthand(
        units[i + 1],
    ) || control_unit(units[i + 1]) is Some))
}

/// Where the simple atom at `i` ends.
pub open spec fn atom_end(units: Seq<u16>, i: int) -> int {
    if units[i] == 0x5c {
        i + 2
    } else if units[i] == 0x5b {
        class_end(units, i)
    } else {
        i + 1
    }
}

/// `atom` is what the simple atom at `i` parses to.
pub open spec fn simple_atom(units: Seq<u16>, folded: bool, i: int, atom: Hir) -> bool {
    if is_plain(units[i]) {
        is_literal_atom(units[i], folded, atom)
    } else if units[i] == 0x5e {
        atom == Hir::Assertion(Assertion::LineStart)
    } else if units[i] == 0x24 {
        atom == Hir::Assertion(Assertion::LineEnd)
    } else if units[i] == 0x2e {
        atom matches Hir::Predicate(p) && forall|x: u16| #[trigger] p.contains(x)
    } else if units[i] == 0x5b {
        atom matches Hir::Predicate(p) && forall|x: u16| #[trigger]
            p.contains(x) == (class_inverted(units, i) != class_admits(class_listed(units, i), folded, x))
    } else if is_escaped_literal(units[i + 1]) {
        is_literal_atom(units[i + 1], folded, atom)
    } else if units[i + 1] == 0x62 {
        atom == Hir::Assertion(Assertion::WordBoundary)
    } else if units[i + 1] == 0x42 {
        atom == Hir::Assertion(Assertion::NonWordBoundary)
    } else if is_shorthand(units[i + 1]) {
        atom matches Hir::Predicate(p) && forall|x: u16| #[trigger] p.contains(x) == shorthand_member(units[i + 1], x)
    } else {
        atom == Hir::Symbol(control_unit(units[i + 1])->0)
    }
}

/// From `i` on, `units` is a run of simple atoms, each followed by at most
/// one well-formed quantifier.
pub open spec fn quantified_text(units: Seq<u16>, i: int) -> bool
    decreases units.len() - i,
{
    if i < 0 || i > units.len() {
        false
    } else if i == units.len() {
        true
    } else if !is_simple_atom_start(units, i) {
        false
    } else if atom_end(units, i) < units.len() && is_quantifier_start(units[atom_end(units, i)]) {
        match quantifier_bounds(units, atom_end(units, i)) {
            Some((_, _, end)) => i < atom_end(units, i) < end <= units.len() && quantified_text(units, end),
            None => false,
        }
    } else {
        i < atom_end(units, i) <= units.len() && quantified_text(units, atom_end(units, i))
    }
}

/// Where the simple atom at `i` and its quantifier, if any, end.
pub open spec fn token_end(units: Seq<u16>, i: int) -> int {
    let a = atom_end(units, i);
    if a < units.len() && is_quantifier_start(units[a]) {
        match quantifier_bounds(units, a) {
            Some((_, _, end)) => end,
            None => a,
        }
    } else {
        a
    }
}

/// `item` is what the simple atom at `i` parses to, repeated as its
/// quantifier says when one follows it: a quantifier binds to that one atom.
pub open spec fn token_item(units: Seq<u16>, folded: bool, i: int, item: Hir) -> bool {
    let a = atom_end(units, i);
    if a < units.len() && is_quantifier_start(units[a]) {
        match quantifier_bounds(units, a) {
            Some((low, high, _)) => exists|atom: Hir| #[trigger]
                simple_atom(units, folded, i, atom) && is_normalized_repeat(atom, low, high, item),
            None => false,
        }
    } else {
        simple_atom(units, folded, i, item)
    }
}

/// `items` are the tokens of `units` from `i` to `j`, one per plain unit,
/// which start at `starts`.
pub open spec fn tokens_spell(units: Seq<u16>, folded: bool, i: int, j: int, items: Seq<Hir>, starts: Seq<int>) -> bool {
    &&& starts.len() == items.len() + 1
    &&& starts[0] == i
    &&& starts.last() == j
    &&& forall|k: int|
        0 <= k < items.len() ==> starts[k] < #[trigger] starts[k + 1] && starts[k + 1] == token_end(
            units,
            starts[k],
        ) && is_simple_atom_start(units, starts[k]) && token_item(units, folded, starts[k], items[k])
}

/// Quantified text from `from` on spells `h`: the normalized sequence of its
/// tokens.
pub open spec fn quantified_outcome(units: Seq<u16>, folded: bool, from: int, h: Hir) -> bool {
    exists|items: Seq<Hir>, starts: Seq<int>|
        #[trigger] tokens_spell(units, folded, from, units.len() as int, items, starts)
            && is_normalized_sequence(items, h)
}

proof fn lemma_simple_atom_shape(units: Seq<u16>, folded: bool, i: int, atom: Hir)
    requires
        is_simple_atom_start(units, i),
        simple_atom(units, folded, i, atom),
    ensures
        atom is Symbol || atom is Predicate || atom is Assertion,
{
    if is_plain(units[i]) {
        lemma_atom_shape(units[i], folded, atom);
    } else if units[i] == 0x5c && is_escaped_literal(units[i + 1]) {
        lemma_atom_shape(units[i + 1], folded, atom);
    }
}

/// A token parses to an expression that is neither a sequence, an
/// alternation, nor `Never`.
proof fn lemma_token_item_shape(units: Seq<u16>, folded: bool, i: int, item: Hir)
    requires
        is_simple_atom_start(units, i),
        token_item(units, folded, i, item),
    ensures
        item is Epsilon || item is Symbol || item is Predicate || item is Repeat || item is Assertion,
{
    let a = atom_end(units, i);
    if a < units.len() && is_quantifier_start(units[a]) {
        let (low, high, end) = quantifier_bounds(units, a)->0;
        let atom = choose|atom: Hir| #[trigger]
            simple_atom(units, folded, i, atom) && is_normalized_repeat(atom, low, high, item);
        lemma_simple_atom_shape(units, folded, i, atom);
    } else {
        lemma_simple_atom_shape(units, folded, i, item);
    }
}

proof fn lemma_flatten_tokens(items: Seq<Hir>)
    requires
        forall|k: int| 0 <= k < items.len() ==> (#[trigger] items[k] is Epsilon || items[k] is Symbol
            || items[k] is Predicate || items[k] is Repeat || items[k] is Assertion),
    ensures
        flatten_sequence(items) matches Some(kept) && forall|m: int| 0 <= m < kept.len() ==> (
        #[trigger] kept[m] is Symbol || kept[m] is Predicate || kept[m] is Repeat || kept[m] is Assertion),
    decreases items.len(),
{
    if items.len() > 0 {
        assert forall|k: int| 0 <= k < items.drop_last().len() implies (#[trigger] items.drop_last()[k] is Epsilon
            || items.drop_last()[k] is Symbol || items.drop_last()[k] is Predicate
            || items.drop_last()[k] is Repeat || items.drop_last()[k] is Assertion) by {
            assert(items.drop_last()[k] == items[k]);
        }
        lemma_flatten_tokens(items.drop_last());
        assert(items[items.len() - 1] == items.last());
    }
}

/// Normalizing the one-branch alternation of quantified text changes nothing.
proof fn lemma_quantified_alternation(units: Seq<u16>, folded: bool, from: int, s: Hir, h: Hir)
    requires
        quantified_outcome(units, folded, from, s),
        is_normalized_alternation(seq![s], h),
    ensures
        h == s,
{
    let (items, starts) = choose|items: Seq<Hir>, starts: Seq<int>|
        #[trigger] tokens_spell(units, folded, from, units.len() as int, items, starts)
            && is_normalized_sequence(items, s);
    assert forall|k: int| 0 <= k < items.len() implies (#[trigger] items[k] is Epsilon || items[k] is Symbol
        || items[k] is Predicate || items[k] is Repeat || items[k] is Assertion) by {
        assert(starts[k] < starts[k + 1]);
        lemma_token_item_shape(units, folded, starts[k], items[k]);
    }
    lemma_flatten_tokens(items);
    assert(seq![s].drop_last() =~= Seq::<Hir>::empty());
    assert(crate::hir::flatten_alternation(Seq::<Hir>::empty()) == Seq::<Hir>::empty());
    let kept = flatten_sequence(items)->0;
    if kept.len() == 1 {
        assert(kept[0] is Symbol || kept[0] is Predicate || kept[0] is Repeat || kept[0] is Assertion);
    }
    assert(!(s is Never) && !(s is Alternation));
    assert(crate::hir::flatten_alternation(seq![s]) =~= seq![s]);
}

/// The outcome of parsing quantified text that starts at `from`: the
/// normalized sequence of its tokens, or, where that cannot consume input, an
/// invalid-pattern error spanning the whole pattern.
pub open spec fn quantified_parse(
    units: Seq<u16>,
    folded: bool,
    from: int,
    pattern_id: PatternId,
    parsed: Result<HirPattern, Error>,
) -> bool {
    ||| parsed matches Ok(pattern) && quantified_outcome(units, folded, from, pattern.expression_spec())
    ||| parsed matches Err(Error::InvalidPattern { pattern_id: id, span }) && id == pattern_id && span@
        == (0u64, units.len() as u64) && exists|h: Hir| #[trigger]
        quantified_outcome(units, folded, from, h) && !can_consume_spec(h)
}

/// Under case folding a class holds every listed unit together with its
/// simple lower- and upper-case mappings, and a class opened with `[^` holds
/// none of them; without folding a listed unit is in the class exactly when
/// the class is not negated.
pub proof fn lemma_class_variants(units: Seq<u16>, folded: bool, i: int, atom: Hir, member: u16)
    requires
        is_simple_atom_start(units, i),
        units[i] == 0x5b,
        simple_atom(units, folded, i, atom),
        class_listed(units, i).contains(member),
    ensures
        atom matches Hir::Predicate(p) && p.contains(member) == !class_inverted(units, i) && (folded ==> p.contains(
            simple_lower(member),
        ) == !class_inverted(units, i) && p.contains(simple_upper(member)) == !class_inverted(units, i)),
{
    assert(!is_plain(0x5bu16));
    let p = atom->Predicate_0;
    assert(class_admits(class_listed(units, i), folded, member));
    if folded {
        assert(class_admits(class_listed(units, i), folded, simple_lower(member)));
        assert(class_admits(class_listed(units, i), folded, simple_upper(member)));
        assert(p.contains(simple_lower(member)) == !class_inverted(units, i));
        assert(p.contains(simple_upper(member)) == !class_inverted(units, i));
    }
}

/// A negated class holds exactly the units that the same class without `^`
/// leaves out.
pub proof fn lemma_negated_class_complements(units: Seq<u16>, folded: bool, i: int, atom: Hir, x: u16)
    requires
        is_simple_atom_start(units, i),
        units[i] == 0x5b,
        class_inverted(units, i),
        simple_atom(units, folded, i, atom),
    ensures
        atom matches Hir::Predicate(p) && p.contains(x) == !class_admits(class_listed(units, i), folded, x),
{
    assert(!is_plain(0x5bu16));
}

/// A shorthand escape holds exactly the units its letter names: `\d` the
/// ASCII digits and nothing else, `\D` everything else, and so on.
pub proof fn lemma_shorthand_atom(units: Seq<u16>, folded: bool, i: int, atom: Hir, x: u16)
    requires
        is_simple_atom_start(units, i),
        units[i] == 0x5c,
        is_shorthand(units[i + 1]),
        simple_atom(units, folded, i, atom),
    ensures
        atom matches Hir::Predicate(p) && p.contains(x) == shorthand_member(units[i + 1], x),
        units[i + 1] == 0x64 ==> (atom->Predicate_0.contains(x) <==> 0x30 <= x <= 0x39),
{
    assert(!is_plain(0x5cu16));
    assert(!is_escaped_literal(units[i + 1]));
}

/// The decimal number the digits `units[from..to]` write.
pub open spec fn written_number(units: Seq<u16>, from: int, to: int) -> int
    decreases to - from,
{
    if to <= from {
        0
    } else {
        written_number(units, from, to - 1) * 10 + (units[to - 1] - 0x30)
    }
}

proof fn lemma_digit_run(units: Seq<u16>, i: int)
    ensures
        i <= digit_run_end(units, i),
        digit_run_end(units, i) > i ==> 0 <= i && digit_run_end(units, i) <= units.len(),
        forall|k: int| i <= k < digit_run_end(units, i) ==> #[trigger] is_digit(units[k]),
    decreases units.len() - i,
{
    if 0 <= i < units.len() && is_digit(units[i]) {
        lemma_digit_run(units, i + 1);
    }
}

proof fn lemma_written_number_nonnegative(units: Seq<u16>, from: int, to: int)
    requires
        forall|k: int| from <= k < to ==> #[trigger] is_digit(units[k]),
    ensures
        written_number(units, from, to) >= 0,
    decreases to - from,
{
    if to > from {
        lemma_written_number_nonnegative(units, from, to - 1);
        assert(is_digit(units[to - 1]));
    }
}

/// Reading digits keeps their number while it stays within the largest
/// repetition bound, and holds one above the bound past it.
proof fn lemma_capped_decimal(units: Seq<u16>, from: int, to: int)
    requires
        forall|k: int| from <= k < to ==> #[trigger] is_digit(units[k]),
    ensures
        capped_decimal(units, from, to) == if written_number(units, from, to) <= MAX_REPEAT_BOUND {
            written_number(units, from, to)
        } else {
            MAX_REPEAT_BOUND + 1
        },
    decreases to - from,
{
    if to > from {
        lemma_capped_decimal(units, from, to - 1);
        lemma_written_number_nonnegative(units, from, to - 1);
        assert(is_digit(units[to - 1]));
    }
}

/// A braced quantifier repeats as often as its digits write: `{n}` exactly
/// `n` times, `{n,}` at least `n`, `{n,m}` from `n` to `m`; every written
/// bound is at most 1000, and the lower bound is at most the upper one.
pub proof fn lemma_braced_bounds_written(units: Seq<u16>, i: int)
    requires
        braced_bounds(units, i) is Some,
    ensures
        ({
            let (low, high, _) = braced_bounds(units, i)->0;
            let low_end = digit_run_end(units, i + 1);
            &&& low as int == written_number(units, i + 1, low_end)
            &&& low <= MAX_REPEAT_BOUND
            &&& low_end < units.len()
            &&& (units[low_end] == 0x7d ==> high == Some(low))
            &&& (units[low_end] == 0x2c && low_end + 1 < units.len() && units[low_end + 1] == 0x7d ==> high is None)
            &&& (units[low_end] == 0x2c && !(low_end + 1 < units.len() && units[low_end + 1] == 0x7d) ==> (high
                matches Some(h) && h as int == written_number(units, low_end + 1, digit_run_end(units, low_end + 1))))
            &&& (high matches Some(h) ==> low <= h <= MAX_REPEAT_BOUND)
        }),
{
    let low_end = digit_run_end(units, i + 1);
    lemma_digit_run(units, i + 1);
    lemma_capped_decimal(units, i + 1, low_end);
    lemma_digit_run(units, low_end + 1);
    lemma_capped_decimal(units, low_end + 1, digit_run_end(units, low_end + 1));
    let (low, high, end) = braced_bounds(units, i)->0;
    let low_value = capped_decimal(units, i + 1, low_end);
    assert(low_end > i + 1);
    assert(low_value <= MAX_REPEAT_BOUND);
    assert(low_value == written_number(units, i + 1, low_end));
    lemma_written_number_nonnegative(units, i + 1, low_end);
    lemma_written_number_nonnegative(units, low_end + 1, digit_run_end(units, low_end + 1));
    assert(low as int == low_value);
    assert(low_end < units.len());
}

/// A braced quantifier whose bound is written above 1000 is refused.
pub proof fn lemma_braced_bound_cap(units: Seq<u16>, i: int)
    requires
        digit_run_end(units, i + 1) > i + 1,
        written_number(units, i + 1, digit_run_end(units, i + 1)) > MAX_REPEAT_BOUND,
    ensures
        braced_bounds(units, i) is None,
{
    lemma_digit_run(units, i + 1);
    lemma_capped_decimal(units, i + 1, digit_run_end(units, i + 1));
}

/// Where the body of the group opened at `i` starts: after `(?:`, or after a
/// bare `(`; `None` for any other `(?` form.
pub open spec fn group_body(units: Seq<u16>, i: int) -> Option<int> {
    if i + 1 < units.len() && units[i + 1] == 0x3f {
        if i + 2 < units.len() && units[i + 2] == 0x3a {
            Some(i + 3)
        } else {
            None
        }
    } else {
        Some(i + 1)
    }
}

/// Where the atom at `i` ends, inside groups nested `depth` deep: a simple
/// atom, or a group whose body is a well-formed alternation closed by `)`.
pub open spec fn atom_text_end(units: Seq<u16>, i: int, depth: int) -> Option<int>
    decreases units.len() - i, 0nat,
{
    if !(0 <= i < units.len()) {
        None
    } else if is_simple_atom_start(units, i) {
        Some(atom_end(units, i))
    } else if units[i] == 0x28 && depth < MAX_GROUP_DEPTH {
        match group_body(units, i) {
            Some(body) => if i < body <= units.len() {
                match alternation_text_end(units, body, depth + 1) {
                    Some(close) => if body <= close < units.len() && units[close] == 0x29 {
                        Some(close + 1)
                    } else {
                        None
                    },
                    None => None,
                }
            } else {
                None
            },
            None => None,
        }
    } else {
        None
    }
}

/// Where the atom at `i` and its quantifier, if any, end.
pub open spec fn token_text_end(units: Seq<u16>, i: int, depth: int) -> Option<int>
    decreases units.len() - i, 1nat,
{
    match atom_text_end(units, i, depth) {
        Some(a) => if !(i < a <= units.len()) {
            None
        } else if a < units.len() && is_quantifier_start(units[a]) {
            match quantifier_bounds(units, a) {
                Some((_, _, end)) => if a < end <= units.len() && !(end < units.len() && is_quantifier_start(
                    units[end],
                )) {
                    Some(end)
                } else {
                    None
                },
                None => None,
            }
        } else {
            Some(a)
        },
        None => None,
    }
}

/// Where the sequence of tokens that starts at `i` ends: at the end of the
/// text, a `|`, or a `)`.
pub open spec fn sequence_text_end(units: Seq<u16>, i: int, depth: int) -> Option<int>
    decreases units.len() - i, 2nat,
{
    if !(0 <= i <= units.len()) {
        None
    } else if i == units.len() || units[i] == 0x7c || units[i] == 0x29 {
        Some(i)
    } else {
        match token_text_end(units, i, depth) {
            Some(e) => if i < e <= units.len() {
                sequence_text_end(units, e, depth)
            } else {
                None
            },
            None => None,
        }
    }
}

/// Where the alternation of sequences that starts at `i` ends: at the end
/// of the text or a `)`.
pub open spec fn alternation_text_end(units: Seq<u16>, i: int, depth: int) -> Option<int>
    decreases units.len() - i, 3nat,
{
    match sequence_text_end(units, i, depth) {
        Some(k) => if i <= k < units.len() && units[k] == 0x7c {
            alternation_text_end(units, k + 1, depth)
        } else if i <= k <= units.len() {
            Some(k)
        } else {
            None
        },
        None => None,
    }
}

/// How one token parsed: its atom and, for a group, the group's branches
/// with the items of each branch and how each of those items parsed.
pub struct TokenTree {
    pub atom: Hir,
    pub branches: Seq<Hir>,
    pub branch_items: Seq<Seq<Hir>>,
    pub branch_trees: Seq<Seq<TokenTree>>,
}

/// `tree.atom` is what the atom at `i` parses to: a simple atom, or the
/// normalized alternation of the branches its group spells.
pub open spec fn atom_means(units: Seq<u16>, folded: bool, i: int, depth: int, tree: TokenTree) -> bool
    decreases units.len() - i, 0nat,
{
    if !(0 <= i < units.len()) {
        false
    } else if is_simple_atom_start(units, i) {
        simple_atom(units, folded, i, tree.atom)
    } else if units[i] == 0x28 {
        match group_body(units, i) {
            Some(body) => if i < body <= units.len() {
                branches_spell(units, folded, body, depth + 1, tree.branches, tree.branch_items, tree.branch_trees)
                    && is_normalized_alternation(tree.branches, tree.atom)
            } else {
                false
            },
            None => false,
        }
    } else {
        false
    }
}

/// `item` is what the token at `i` parses to: its atom, repeated as its
/// quantifier says when one follows.
pub open spec fn token_means(units: Seq<u16>, folded: bool, i: int, depth: int, item: Hir, tree: TokenTree) -> bool
    decreases units.len() - i, 1nat,
{
    match atom_text_end(units, i, depth) {
        Some(a) => atom_means(units, folded, i, depth, tree) && if a < units.len() && is_quantifier_start(units[a]) {
            match quantifier_bounds(units, a) {
                Some((low, high, _)) => is_normalized_repeat(tree.atom, low, high, item),
                None => false,
            }
        } else {
            item == tree.atom
        },
        None => false,
    }
}

/// `items` are the tokens of the sequence that starts at `i`, in order, and
/// `trees` how each parsed.
pub open spec fn items_spell(
    units: Seq<u16>,
    folded: bool,
    i: int,
    depth: int,
    items: Seq<Hir>,
    trees: Seq<TokenTree>,
) -> bool
    decreases units.len() - i, 2nat,
{
    if !(0 <= i <= units.len()) {
        false
    } else if i == units.len() || units[i] == 0x7c || units[i] == 0x29 {
        items.len() == 0 && trees.len() == 0
    } else if items.len() == 0 || trees.len() == 0 {
        false
    } else {
        match token_text_end(units, i, depth) {
            Some(e) => if i < e <= units.len() {
                token_means(units, folded, i, depth, items[0], trees[0]) && items_spell(
                    units,
                    folded,
                    e,
                    depth,
                    items.drop_first(),
                    trees.drop_first(),
                )
            } else {
                false
            },
            None => false,
        }
    }
}

/// `branches` are the normalized sequences of the alternation that starts at
/// `i`, in order, each the normalized sequence of its `items`.
pub open spec fn branches_spell(
    units: Seq<u16>,
    folded: bool,
    i: int,
    depth: int,
    branches: Seq<Hir>,
    items: Seq<Seq<Hir>>,
    trees: Seq<Seq<TokenTree>>,
) -> bool
    decreases units.len() - i, 3nat,
{
    match sequence_text_end(units, i, depth) {
        Some(k) => {
            &&& branches.len() > 0
            &&& items.len() == branches.len()
            &&& trees.len() == branches.len()
            &&& items_spell(units, folded, i, depth, items[0], trees[0])
            &&& is_normalized_sequence(items[0], branches[0])
            &&& if i <= k < units.len() && units[k] == 0x7c {
                branches_spell(
                    units,
                    folded,
                    k + 1,
                    depth,
                    branches.drop_first(),
                    items.drop_first(),
                    trees.drop_first(),
                )
            } else {
                branches.len() == 1
            }
        },
        None => false,
    }
}

/// `items` are the tokens from `i` up to `j`, and `trees` how each parsed.
pub open spec fn tokens_from_to(
    units: Seq<u16>,
    folded: bool,
    i: int,
    j: int,
    depth: int,
    items: Seq<Hir>,
    trees: Seq<TokenTree>,
) -> bool
    decreases items.len(),
{
    if items.len() == 0 {
        i == j && trees.len() == 0
    } else if trees.len() == 0 {
        false
    } else {
        match token_text_end(units, i, depth) {
            Some(e) => i < e <= units.len() && token_means(units, folded, i, depth, items[0], trees[0])
                && tokens_from_to(units, folded, e, j, depth, items.drop_first(), trees.drop_first()),
            None => false,
        }
    }
}

proof fn lemma_tokens_push(
    units: Seq<u16>,
    folded: bool,
    i: int,
    j: int,
    depth: int,
    items: Seq<Hir>,
    trees: Seq<TokenTree>,
    x: Hir,
    t: TokenTree,
    e: int,
)
    requires
        tokens_from_to(units, folded, i, j, depth, items, trees),
        token_text_end(units, j, depth) == Some(e),
        j < e <= units.len(),
        token_means(units, folded, j, depth, x, t),
    ensures
        tokens_from_to(units, folded, i, e, depth, items.push(x), trees.push(t)),
    decreases items.len(),
{
    if items.len() > 0 {
        let next = token_text_end(units, i, depth)->0;
        lemma_tokens_push(units, folded, next, j, depth, items.drop_first(), trees.drop_first(), x, t, e);
        assert(items.push(x).drop_first() =~= items.drop_first().push(x));
        assert(trees.push(t).drop_first() =~= trees.drop_first().push(t));
        assert(items.push(x)[0] == items[0]);
        assert(trees.push(t)[0] == trees[0]);
    } else {
        assert(items.push(x).drop_first() =~= Seq::<Hir>::empty());
        assert(trees.push(t).drop_first() =~= Seq::<TokenTree>::empty());
        assert(items.push(x)[0] == x);
        assert(trees.push(t)[0] == t);
        assert(tokens_from_to(units, folded, e, e, depth, Seq::<Hir>::empty(), Seq::<TokenTree>::empty()));
    }
}

proof fn lemma_token_not_terminator(units: Seq<u16>, i: int, depth: int)
    requires
        token_text_end(units, i, depth) is Some,
    ensures
        0 <= i < units.len(),
        units[i] != 0x7c && units[i] != 0x29,
{
    assert(atom_text_end(units, i, depth) is Some);
}

proof fn lemma_tokens_close(
    units: Seq<u16>,
    folded: bool,
    i: int,
    j: int,
    depth: int,
    items: Seq<Hir>,
    trees: Seq<TokenTree>,
)
    requires
        tokens_from_to(units, folded, i, j, depth, items, trees),
        0 <= i,
        0 <= j <= units.len(),
        j == units.len() || units[j] == 0x7c || units[j] == 0x29,
    ensures
        items_spell(units, folded, i, depth, items, trees),
        sequence_text_end(units, i, depth) == Some(j),
    decreases items.len(),
{
    if items.len() > 0 {
        let e = token_text_end(units, i, depth)->0;
        lemma_token_not_terminator(units, i, depth);
        lemma_tokens_close(units, folded, e, j, depth, items.drop_first(), trees.drop_first());
    }
}

/// `branches` are the sequences from `i` up to `j`, each followed by `|`.
pub open spec fn branches_from_to(
    units: Seq<u16>,
    folded: bool,
    i: int,
    j: int,
    depth: int,
    branches: Seq<Hir>,
    items: Seq<Seq<Hir>>,
    trees: Seq<Seq<TokenTree>>,
) -> bool
    decreases branches.len(),
{
    if branches.len() == 0 {
        i == j && items.len() == 0 && trees.len() == 0
    } else if items.len() == 0 || trees.len() == 0 {
        false
    } else {
        match sequence_text_end(units, i, depth) {
            Some(k) => i <= k < units.len() && units[k] == 0x7c && items_spell(units, folded, i, depth, items[0], trees[0])
                && is_normalized_sequence(items[0], branches[0]) && branches_from_to(
                units,
                folded,
                k + 1,
                j,
                depth,
                branches.drop_first(),
                items.drop_first(),
                trees.drop_first(),
            ),
            None => false,
        }
    }
}

proof fn lemma_branches_push(
    units: Seq<u16>,
    folded: bool,
    i: int,
    j: int,
    depth: int,
    branches: Seq<Hir>,
    items: Seq<Seq<Hir>>,
    trees: Seq<Seq<TokenTree>>,
    x: Hir,
    xi: Seq<Hir>,
    xt: Seq<TokenTree>,
    k: int,
)
    requires
        branches_from_to(units, folded, i, j, depth, branches, items, trees),
        sequence_text_end(units, j, depth) == Some(k),
        j <= k < units.len(),
        units[k] == 0x7c,
        items_spell(units, folded, j, depth, xi, xt),
        is_normalized_sequence(xi, x),
    ensures
        branches_from_to(units, folded, i, k + 1, depth, branches.push(x), items.push(xi), trees.push(xt)),
    decreases branches.len(),
{
    if branches.len() > 0 {
        let next = sequence_text_end(units, i, depth)->0;
        lemma_branches_push(
            units,
            folded,
            next + 1,
            j,
            depth,
            branches.drop_first(),
            items.drop_first(),
            trees.drop_first(),
            x,
            xi,
            xt,
            k,
        );
        assert(branches.push(x).drop_first() =~= branches.drop_first().push(x));
        assert(items.push(xi).drop_first() =~= items.drop_first().push(xi));
        assert(trees.push(xt).drop_first() =~= trees.drop_first().push(xt));
        assert(branches.push(x)[0] == branches[0]);
        assert(items.push(xi)[0] == items[0]);
        assert(trees.push(xt)[0] == trees[0]);
    } else {
        assert(branches.push(x).drop_first() =~= Seq::<Hir>::empty());
        assert(items.push(xi).drop_first() =~= Seq::<Seq<Hir>>::empty());
        assert(trees.push(xt).drop_first() =~= Seq::<Seq<TokenTree>>::empty());
        assert(branches.push(x)[0] == x);
        assert(items.push(xi)[0] == xi);
        assert(trees.push(xt)[0] == xt);
        assert(branches_from_to(
            units,
            folded,
            k + 1,
            k + 1,
            depth,
            Seq::<Hir>::empty(),
            Seq::<Seq<Hir>>::empty(),
            Seq::<Seq<TokenTree>>::empty(),
        ));
    }
}

proof fn lemma_branches_close(
    units: Seq<u16>,
    folded: bool,
    i: int,
    j: int,
    depth: int,
    branches: Seq<Hir>,
    items: Seq<Seq<Hir>>,
    trees: Seq<Seq<TokenTree>>,
    last: Hir,
    li: Seq<Hir>,
    lt: Seq<TokenTree>,
)
    requires
        branches_from_to(units, folded, i, j, depth, branches, items, trees),
        branches_spell(units, folded, j, depth, seq![last], seq![li], seq![lt]),
    ensures
        branches_spell(units, folded, i, depth, branches.push(last), items.push(li), trees.push(lt)),
        alternation_text_end(units, i, depth) == alternation_text_end(units, j, depth),
    decreases branches.len(),
{
    if branches.len() > 0 {
        let next = sequence_text_end(units, i, depth)->0;
        lemma_branches_close(
            units,
            folded,
            next + 1,
            j,
            depth,
            branches.drop_first(),
            items.drop_first(),
            trees.drop_first(),
            last,
            li,
            lt,
        );
        assert(branches.push(last).drop_first() =~= branches.drop_first().push(last));
        assert(items.push(li).drop_first() =~= items.drop_first().push(li));
        assert(trees.push(lt).drop_first() =~= trees.drop_first().push(lt));
        assert(branches.push(last)[0] == branches[0]);
        assert(items.push(li)[0] == items[0]);
        assert(trees.push(lt)[0] == trees[0]);
    } else {
        assert(branches.push(last) =~= seq![last]);
        assert(items.push(li) =~= seq![li]);
        assert(trees.push(lt) =~= seq![lt]);
    }
}

/// The outcome of parsing a pattern whose text from `from` on is one
/// well-formed alternation (groups nested at most 128 deep): the normalized
/// alternation of the branches it spells, or, where that cannot consume
/// input, an invalid-pattern error spanning the whole pattern.
pub open spec fn grammar_parse(
    units: Seq<u16>,
    folded: bool,
    from: int,
    pattern_id: PatternId,
    parsed: Result<HirPattern, Error>,
) -> bool {
    ||| parsed matches Ok(pattern) && exists|bs: Seq<Hir>, il: Seq<Seq<Hir>>, tl: Seq<Seq<TokenTree>>| #[trigger]
        branches_spell(units, folded, from, 0, bs, il, tl) && is_normalized_alternation(bs, pattern.expression_spec())
    ||| parsed matches Err(Error::InvalidPattern { pattern_id: id, span }) && id == pattern_id && span@
        == (0u64, units.len() as u64) && exists|bs: Seq<Hir>, il: Seq<Seq<Hir>>, tl: Seq<Seq<TokenTree>>, h: Hir|
        #![trigger branches_spell(units, folded, from, 0, bs, il, tl), is_normalized_alternation(bs, h)]
        branches_spell(units, folded, from, 0, bs, il, tl) && is_normalized_alternation(bs, h) && !can_consume_spec(h)
}

/// Parses a pattern with no compile-time flags.
pub fn parse(pattern_id: PatternId, source: &str) -> (parsed: Result<HirPattern, Error>)
    ensures
        utf16_of_chars(source@).len() == 0 <==> parsed == Err::<HirPattern, Error>((Error::EmptyPattern { pattern_id })),
        parsed matches Ok(pattern) ==> pattern.pattern_id_spec() == pattern_id && hir_well_formed(
            pattern.expression_spec(),
        ) && can_consume_spec(pattern.expression_spec()),
        parsed matches Err(error) ==> error == (Error::EmptyPattern { pattern_id })
            || is_pattern_error(error, pattern_id, utf16_of_chars(source@).len() as int),
        utf16_of_chars(source@).len() > 0 && plain_from(utf16_of_chars(source@), 0) ==> (parsed matches Ok(
            pattern,
        ) && is_literal_hir(utf16_of_chars(source@), pattern.expression_spec())),
        has_case_flag_prefix(utf16_of_chars(source@)) && utf16_of_chars(source@).len() > 4 && plain_from(
            utf16_of_chars(source@),
            4,
        ) ==> (parsed matches Ok(pattern) && spells_literal(
            utf16_of_chars(source@).subrange(4, utf16_of_chars(source@).len() as int),
            true,
            pattern.expression_spec(),
        )),
        utf16_of_chars(source@).len() > 0 && quantified_text(utf16_of_chars(source@), 0) ==> quantified_parse(
            utf16_of_chars(source@),
            false,
            0,
            pattern_id,
            parsed,
        ),
        has_case_flag_prefix(utf16_of_chars(source@)) && quantified_text(utf16_of_chars(source@), 4)
            ==> quantified_parse(utf16_of_chars(source@), true, 4, pattern_id, parsed),
        utf16_of_chars(source@).len() > 0 && alternation_text_end(utf16_of_chars(source@), 0, 0) == Some(
            utf16_of_chars(source@).len() as int,
        ) ==> grammar_parse(utf16_of_chars(source@), false, 0, pattern_id, parsed),
        has_case_flag_prefix(utf16_of_chars(source@)) && alternation_text_end(utf16_of_chars(source@), 4, 0) == Some(
            utf16_of_chars(source@).len() as int,
        ) ==> grammar_parse(utf16_of_chars(source@), true, 4, pattern_id, parsed),
{
    parse_with_flags(pattern_id, source, PatternFlags::none())
}

/// Parses a pattern with explicit compile-time flags.
///
/// The pattern must be non-empty and able to consume input; a pattern that
/// can only match the empty string is rejected as invalid.
pub fn parse_with_flags(pattern_id: PatternId, source: &str, flags: PatternFlags) -> (parsed: Result<
    HirPattern,
    Error,
>)
    ensures
        utf16_of_chars(source@).len() == 0 <==> parsed == Err::<HirPattern, Error>((Error::EmptyPattern { pattern_id })),
        parsed matches Ok(pattern) ==> pattern.pattern_id_spec() == pattern_id && hir_well_formed(
            pattern.expression_spec(),
        ) && can_consume_spec(pattern.expression_spec()),
        parsed matches Err(error) ==> error == (Error::EmptyPattern { pattern_id })
            || is_pattern_error(error, pattern_id, utf16_of_chars(source@).len() as int),
        utf16_of_chars(source@).len() > 0 && plain_from(utf16_of_chars(source@), 0)
            && !flags.is_case_insensitive_spec() ==> (parsed matches Ok(pattern) && is_literal_hir(
            utf16_of_chars(source@),
            pattern.expression_spec(),
        )),
        utf16_of_chars(source@).len() > 0 && plain_from(utf16_of_chars(source@), 0) ==> (parsed matches Ok(
            pattern,
        ) && spells_literal(
            utf16_of_chars(source@),
            flags.is_case_insensitive_spec(),
            pattern.expression_spec(),
        )),
        has_case_flag_prefix(utf16_of_chars(source@)) && utf16_of_chars(source@).len() > 4 && plain_from(
            utf16_of_chars(source@),
            4,
        ) ==> (parsed matches Ok(pattern) && spells_literal(
            utf16_of_chars(source@).subrange(4, utf16_of_chars(source@).len() as int),
            true,
            pattern.expression_spec(),
        )),
        utf16_of_chars(source@).len() > 0 && quantified_text(utf16_of_chars(source@), 0) ==> quantified_parse(
            utf16_of_chars(source@),
            flags.is_case_insensitive_spec(),
            0,
            pattern_id,
            parsed,
        ),
        has_case_flag_prefix(utf16_of_chars(source@)) && quantified_text(utf16_of_chars(source@), 4)
            ==> quantified_parse(utf16_of_chars(source@), true, 4, pattern_id, parsed),
        utf16_of_chars(source@).len() > 0 && alternation_text_end(utf16_of_chars(source@), 0, 0) == Some(
            utf16_of_chars(source@).len() as int,
        ) ==> grammar_parse(utf16_of_chars(source@), flags.is_case_insensitive_spec(), 0, pattern_id, parsed),
        has_case_flag_prefix(utf16_of_chars(source@)) && alternation_text_end(utf16_of_chars(source@), 4, 0) == Some(
            utf16_of_chars(source@).len() as int,
        ) ==> grammar_parse(utf16_of_chars(source@), true, 4, pattern_id, parsed),
{
    let units = encode_utf16(source);
    parse_units(pattern_id, units, flags)
}

/// Parses already-encoded pattern units.
pub fn parse_units(pattern_id: PatternId, units: Vec<u16>, flags: PatternFlags) -> (parsed: Result<
    HirPattern,
    Error,
>)
    ensures
        units@.len() == 0 <==> parsed == Err::<HirPattern, Error>((Error::EmptyPattern { pattern_id })),
        parsed matches Ok(pattern) ==> pattern.pattern_id_spec() == pattern_id && hir_well_formed(
            pattern.expression_spec(),
        ) && can_consume_spec(pattern.expression_spec()),
        parsed matches Err(error) ==> error == (Error::EmptyPattern { pattern_id })
            || is_pattern_error(error, pattern_id, units@.len() as int),
        units@.len() > 0 && plain_from(units@, 0) && !flags.is_case_insensitive_spec() ==> (parsed matches Ok(
            pattern,
        ) && is_literal_hir(units@, pattern.expression_spec())),
        units@.len() > 0 && plain_from(units@, 0) ==> (parsed matches Ok(pattern) && spells_literal(
            units@,
            flags.is_case_insensitive_spec(),
            pattern.expression_spec(),
        )),
        has_case_flag_prefix(units@) && units@.len() > 4 && plain_from(units@, 4) ==> (parsed matches Ok(
            pattern,
        ) && spells_literal(units@.subrange(4, units@.len() as int), true, pattern.expression_spec())),
        units@.len() > 0 && quantified_text(units@, 0) ==> quantified_parse(
            units@,
            flags.is_case_insensitive_spec(),
            0,
            pattern_id,
            parsed,
        ),
        has_case_flag_prefix(units@) && quantified_text(units@, 4) ==> quantified_parse(
            units@,
            true,
            4,
            pattern_id,
            parsed,
        ),
        units@.len() > 0 && alternation_text_end(units@, 0, 0) == Some(units@.len() as int) ==> grammar_parse(
            units@,
            flags.is_case_insensitive_spec(),
            0,
            pattern_id,
            parsed,
        ),
        has_case_flag_prefix(units@) && alternation_text_end(units@, 4, 0) == Some(units@.len() as int)
            ==> grammar_parse(units@, true, 4, pattern_id, parsed),
{
    if units.len() == 0 {
        return Err(Error::EmptyPattern { pattern_id });
    }
    let length = units.len();
    let prefixed = units.len() >= 4 && units[0] == 0x28 && units[1] == 0x3f && units[2] == 0x69
        && units[3] == 0x29;
    let mut parser = Parser {
        pattern_id,
        units,
        index: if prefixed {
            4
        } else {
            0
        },
        case_insensitive: prefixed || flags.is_case_insensitive(),
    };
    proof {
        if units@.len() > 0 && plain_from(units@, 0) {
            assert(!is_plain(0x28));
            assert(is_plain(units@[0]));
        }
    }
    let expression = match parser.parse_alternation(0) {
        Ok(expression) => expression,
        Err(error) => return Err(error),
    };
    proof {
        if units@.len() > 0 && plain_from(units@, 0) {
            assert(units@.subrange(0, units@.len() as int) =~= units@);
            lemma_spelled_consumes(units@, parser.case_insensitive, expression);
            if !flags.is_case_insensitive_spec() {
                lemma_spells_unfolded(units@, expression);
            }
        }
        if has_case_flag_prefix(units@) && units@.len() > 4 && plain_from(units@, 4) {
            lemma_spelled_consumes(units@.subrange(4, units@.len() as int), true, expression);
        }
    }
    if parser.index < parser.units.len() {
        // Only an unbalanced closing parenthesis stops an alternation early.
        let position = parser.index;
        return Err(invalid(pattern_id, position, position + 1));
    }
    proof {
        let from: int = if prefixed {
            4
        } else {
            0
        };
        if units@.len() > 0 && quantified_text(units@, 0) {
            assert(is_simple_atom_start(units@, 0));
            assert(from == 0);
        }
        if has_case_flag_prefix(units@) {
            assert(group_body(units@, 0) is None);
            assert(!is_simple_atom_start(units@, 0));
            assert(atom_text_end(units@, 0, 0) is None);
            assert(token_text_end(units@, 0, 0) is None);
            assert(sequence_text_end(units@, 0, 0) is None);
            assert(alternation_text_end(units@, 0, 0) is None);
        }
    }
    if !expression.can_consume() {
        return Err(invalid(pattern_id, 0, length));
    }
    Ok(HirPattern::new(pattern_id, expression))
}

fn span(start: usize, end: usize) -> (span: Utf16Span)
    requires
        start <= end,
    ensures
        span@ == (start as u64, end as u64),
        span@.0 == start && span@.1 == end,
{
    Utf16Span::from_bounds(start as u64, end as u64)
}

fn unsupported(pattern_id: PatternId, start: usize, end: usize, code_unit: u16) -> (error: Error)
    requires
        start <= end,
    ensures
        error matches Error::UnsupportedPattern { pattern_id: id, span, code_unit: unit } && id
            == pattern_id && unit == code_unit && span@ == (start as u64, end as u64),
        forall|length: int| end <= length ==> is_pattern_error(error, pattern_id, length),
{
    Error::UnsupportedPattern { pattern_id, span: span(start, end), code_unit }
}

fn invalid(pattern_id: PatternId, start: usize, end: usize) -> (error: Error)
    requires
        start <= end,
    ensures
        error matches Error::InvalidPattern { pattern_id: id, span } && id == pattern_id && span@
            == (start as u64, end as u64),
        forall|length: int| end <= length ==> is_pattern_error(error, pattern_id, length),
{
    Error::InvalidPattern { pattern_id, span: span(start, end) }
}

/// One code unit, widened to its case variants when requested.
fn literal(symbol: u16, case_insensitive: bool) -> (atom: Hir)
    ensures
        hir_well_formed(atom),
        can_consume_spec(atom),
        !case_insensitive ==> atom == Hir::Symbol(symbol),
        is_literal_atom(symbol, case_insensitive, atom),
        atom matches Hir::Predicate(p) ==> forall|x: u16|
            p.contains(x) == (x == symbol || x == simple_lower(symbol) || x == simple_upper(
                symbol,
            )),
{
    if !case_insensitive {
        return Hir::Symbol(symbol);
    }
    let (lower, upper) = lower_upper(symbol);
    if lower == symbol && upper == symbol {
        return Hir::Symbol(symbol);
    }
    let mut predicate = SymbolPredicate::empty();
    predicate.insert(symbol);
    predicate.insert(lower);
    predicate.insert(upper);
    proof {
        assert(predicate.contains(symbol));
    }
    let atom = Hir::Predicate(predicate);
    proof {
        predicate.lemma_member_nonempty(symbol);
    }
    atom
}

/// A decimal digit.
pub open spec fn is_digit(unit: u16) -> bool {
    0x30 <= unit <= 0x39
}

/// Where the run of decimal digits that starts at `i` ends.
pub open spec fn digit_run_end(units: Seq<u16>, i: int) -> int
    decreases units.len() - i,
{
    if 0 <= i < units.len() && is_digit(units[i]) {
        digit_run_end(units, i + 1)
    } else {
        i
    }
}

/// The decimal value of the digits `units[from..to]`, held at one above the
/// largest repetition bound once it passes that bound.
pub open spec fn capped_decimal(units: Seq<u16>, from: int, to: int) -> int
    decreases to - from,
{
    if to <= from {
        0
    } else {
        let before = capped_decimal(units, from, to - 1);
        if before <= MAX_REPEAT_BOUND {
            let widened = before * 10 + (units[to - 1] - 0x30);
            if widened > MAX_REPEAT_BOUND {
                MAX_REPEAT_BOUND + 1
            } else {
                widened
            }
        } else {
            before
        }
    }
}

/// A unit that begins a quantifier: `?`, `*`, `+` or `{`.
pub open spec fn is_quantifier_start(unit: u16) -> bool {
    unit == 0x3f || unit == 0x2a || unit == 0x2b || unit == 0x7b
}

/// The bounds written by the braced quantifier whose `{` stands at `i`, and
/// where it ends; `None` where it is malformed or passes the supported bound.
pub open spec fn braced_bounds(units: Seq<u16>, i: int) -> Option<(u16, Option<u16>, int)> {
    let low_end = digit_run_end(units, i + 1);
    let low = capped_decimal(units, i + 1, low_end);
    let comma = low_end < units.len() && units[low_end] == 0x2c;
    let open_ended = comma && low_end + 1 < units.len() && units[low_end + 1] == 0x7d;
    let high_end = digit_run_end(units, low_end + 1);
    let close = if !comma {
        low_end
    } else if open_ended {
        low_end + 1
    } else {
        high_end
    };
    let high = if !comma {
        low
    } else {
        capped_decimal(units, low_end + 1, high_end)
    };
    if low_end == i + 1 || (comma && !open_ended && high_end == low_end + 1) || !(close < units.len()
        && units[close] == 0x7d) || low > MAX_REPEAT_BOUND || (!open_ended && (high > MAX_REPEAT_BOUND
        || high < low)) {
        None
    } else {
        Some((low as u16, if open_ended { None } else { Some(high as u16) }, close + 1))
    }
}

/// The bounds of the quantifier at `i` and where it ends, or `None` where a
/// braced quantifier is malformed.
pub open spec fn quantifier_bounds(units: Seq<u16>, i: int) -> Option<(u16, Option<u16>, int)> {
    if units[i] == 0x3f {
        Some((0, Some(1u16), i + 1))
    } else if units[i] == 0x2a {
        Some((0, None, i + 1))
    } else if units[i] == 0x2b {
        Some((1, None, i + 1))
    } else {
        braced_bounds(units, i)
    }
}

/// Some member of `predicate` below `bound` has `x` as its lowercase or
/// uppercase form.
pub open spec fn case_variant_of(predicate: SymbolPredicate, x: u16, bound: int) -> bool {
    exists|y: u16|
        (y as int) < bound && #[trigger] predicate.contains(y) && (simple_lower(y) == x || simple_upper(y) == x)
}

/// Adds every case variant of every member.
fn fold_case(predicate: SymbolPredicate) -> (folded: SymbolPredicate)
    requires
        predicate.well_formed(),
    ensures
        folded.well_formed(),
        forall|x: u16| #[trigger] folded.contains(x) == (predicate.contains(x) || case_variant_of(predicate, x, 0x10000)),
{
    let mut folded = predicate.duplicate();
    let mut unit: u32 = 0;
    while unit <= 0xffff
        invariant
            predicate.well_formed(),
            folded.well_formed(),
            unit <= 0x10000,
            forall|x: u16| #[trigger] folded.contains(x) == (predicate.contains(x) || case_variant_of(predicate, x, unit as int)),
        decreases 0x10000 - unit,
    {
        let symbol = unit as u16;
        let ghost before = folded;
        if predicate.matches(symbol) {
            let (lower, upper) = lower_upper(symbol);
            folded.insert(lower);
            folded.insert(upper);
        }
        proof {
            assert forall|x: u16| #[trigger] folded.contains(x) == (predicate.contains(x) || case_variant_of(predicate, x, unit + 1)) by {
                if case_variant_of(predicate, x, unit + 1) && !case_variant_of(predicate, x, unit as int) {
                    let y = choose|y: u16|
                        (y as int) < unit + 1 && #[trigger] predicate.contains(y) && (simple_lower(y) == x || simple_upper(y) == x);
                    assert(y == symbol);
                }
                if predicate.contains(symbol) && (simple_lower(symbol) == x || simple_upper(symbol) == x) {
                    assert(case_variant_of(predicate, x, unit + 1));
                }
                if case_variant_of(predicate, x, unit as int) {
                    let y = choose|y: u16|
                        (y as int) < unit && #[trigger] predicate.contains(y) && (simple_lower(y) == x || simple_upper(y) == x);
                    assert(case_variant_of(predicate, x, unit + 1));
                }
                assert(before.contains(x) == (predicate.contains(x) || case_variant_of(predicate, x, unit as int)));
            }
        }
        unit = unit + 1;
    }
    folded
}

/// Builds the shorthand class for `\d`, `\D`, `\w`, `\W`, `\s`, or `\S`.
fn shorthand(unit: u16) -> (predicate: SymbolPredicate)
    requires
        is_shorthand(unit),
    ensures
        predicate.well_formed(),
        unit == 0x64 ==> forall|x: u16| predicate.contains(x) == (0x30 <= x <= 0x39),
        unit == 0x44 ==> forall|x: u16| predicate.contains(x) == !(0x30 <= x <= 0x39),
        unit == 0x77 ==> forall|x: u16| predicate.contains(x) == is_ascii_word_spec(x),
        unit == 0x57 ==> forall|x: u16| predicate.contains(x) == !is_ascii_word_spec(x),
        unit == 0x73 ==> forall|x: u16| predicate.contains(x) == (x == 0x20 || (0x09 <= x <= 0x0d)),
        unit == 0x53 ==> forall|x: u16| predicate.contains(x) == !(x == 0x20 || (0x09 <= x <= 0x0d)),
        forall|x: u16| #[trigger] predicate.contains(x) == shorthand_member(unit, x),
{
    let predicate = if unit == 0x64 {
        SymbolPredicate::digit()
    } else if unit == 0x44 {
        SymbolPredicate::digit().complement()
    } else if unit == 0x77 {
        SymbolPredicate::word()
    } else if unit == 0x57 {
        SymbolPredicate::word().complement()
    } else if unit == 0x73 {
        SymbolPredicate::whitespace()
    } else {
        SymbolPredicate::whitespace().complement()
    };
    proof {
        assert forall|x: u16| #[trigger] predicate.contains(x) == shorthand_member(unit, x) by {
            assert(is_ascii_word_spec(x) == ((0x30 <= x <= 0x39) || (0x41 <= x <= 0x5a) || x == 0x5f || (0x61
                <= x <= 0x7a)));
        }
    }
    predicate
}

/// `\d`, `\D`, `\w`, `\W`, `\s`, `\S`.
pub open spec fn is_shorthand(unit: u16) -> bool {
    unit == 0x64 || unit == 0x44 || unit == 0x77 || unit == 0x57 || unit == 0x73 || unit == 0x53
}

/// Units that an escape turns into themselves.
pub open spec fn is_escaped_literal(unit: u16) -> bool {
    unit == 0x5c || unit == 0x2e || unit == 0x2a || unit == 0x2b || unit == 0x3f || unit == 0x5b
        || unit == 0x5d || unit == 0x28 || unit == 0x29 || unit == 0x7c || unit == 0x5e || unit
        == 0x24 || unit == 0x2d || unit == 0x7b || unit == 0x7d || unit == 0x2f
}

fn escaped_literal(unit: u16) -> (literal: bool)
    ensures
        literal == is_escaped_literal(unit),
{
    unit == 0x5c || unit == 0x2e || unit == 0x2a || unit == 0x2b || unit == 0x3f || unit == 0x5b
        || unit == 0x5d || unit == 0x28 || unit == 0x29 || unit == 0x7c || unit == 0x5e || unit
        == 0x24 || unit == 0x2d || unit == 0x7b || unit == 0x7d || unit == 0x2f
}

fn shorthand_unit(unit: u16) -> (short: bool)
    ensures
        short == is_shorthand(unit),
{
    unit == 0x64 || unit == 0x44 || unit == 0x77 || unit == 0x57 || unit == 0x73 || unit == 0x53
}

/// Control escapes `\n`, `\t`, `\r`, `\f`.
fn control_escape(unit: u16) -> (symbol: Option<u16>)
    ensures
        unit == 0x6e ==> symbol == Some(0x0au16),
        unit == 0x74 ==> symbol == Some(0x09u16),
        unit == 0x72 ==> symbol == Some(0x0du16),
        unit == 0x66 ==> symbol == Some(0x0cu16),
        !(unit == 0x6e || unit == 0x74 || unit == 0x72 || unit == 0x66) ==> symbol is None,
{
    if unit == 0x6e {
        Some(0x0a)
    } else if unit == 0x74 {
        Some(0x09)
    } else if unit == 0x72 {
        Some(0x0d)
    } else if unit == 0x66 {
        Some(0x0c)
    } else {
        None
    }
}

enum ClassToken {
    Literal(u16, usize),
    Predicate(SymbolPredicate),
    RangeMarker(usize),
}

struct Parser {
    pattern_id: PatternId,
    units: Vec<u16>,
    index: usize,
    case_insensitive: bool,
}

impl Parser {
    spec fn well_formed(&self) -> bool {
        self.index <= self.units@.len() <= usize::MAX
    }

    /// What a parsing step may change: only the position, forwards.
    spec fn advanced_from(&self, before: &Parser) -> bool {
        &&& self.units@ == before.units@
        &&& self.pattern_id == before.pattern_id
        &&& self.case_insensitive == before.case_insensitive
        &&& before.index <= self.index <= self.units@.len()
    }

    fn peek(&self) -> (unit: Option<u16>)
        requires
            self.well_formed(),
        ensures
            self.index < self.units@.len() ==> unit == Some(self.units@[self.index as int]),
            self.index >= self.units@.len() ==> unit is None,
    {
        if self.index < self.units.len() {
            Some(self.units[self.index])
        } else {
            None
        }
    }

    fn peek_at(&self, offset: usize) -> (unit: Option<u16>)
        requires
            self.well_formed(),
        ensures
            self.index + offset < self.units@.len() ==> unit == Some(
                self.units@[self.index + offset],
            ),
            self.index + offset >= self.units@.len() ==> unit is None,
    {
        if offset < self.units.len() - self.index {
            Some(self.units[self.index + offset])
        } else {
            None
        }
    }

    /// alternation := sequence ('|' sequence)*
    fn parse_alternation(&mut self, depth: usize) -> (parsed: Result<Hir, Error>)
        requires
            old(self).well_formed(),
            depth <= MAX_GROUP_DEPTH,
        ensures
            final(self).advanced_from(old(self)),
            parsed matches Ok(h) ==> hir_well_formed(h),
            parsed matches Ok(_) ==> final(self).index == final(self).units@.len() || final(self).units@[final(self).index as int] == 0x29,
            parsed matches Err(e) ==> is_pattern_error(e, old(self).pattern_id, old(self).units@.len() as int),
            plain_from(old(self).units@, old(self).index as int) ==> (parsed matches Ok(h) && spells_literal(
                old(self).units@.subrange(old(self).index as int, old(self).units@.len() as int),
                old(self).case_insensitive,
                h,
            ) && final(self).index == final(self).units@.len()),
            quantified_text(old(self).units@, old(self).index as int) ==> (parsed matches Ok(h)
                && quantified_outcome(old(self).units@, old(self).case_insensitive, old(self).index as int, h)
                && final(self).index == final(self).units@.len()),
            alternation_text_end(old(self).units@, old(self).index as int, depth as int) matches Some(k) ==> (parsed matches Ok(
                h,
            ) && final(self).index == k && exists|bs: Seq<Hir>, il: Seq<Seq<Hir>>, tl: Seq<Seq<TokenTree>>| #[trigger]
                branches_spell(old(self).units@, old(self).case_insensitive, old(self).index as int, depth as int, bs, il, tl)
                && is_normalized_alternation(bs, h)),
        decreases MAX_GROUP_DEPTH - depth, 4nat,
    {
        let ghost start = *self;
        let mut branches: Vec<Hir> = Vec::new();
        let first = match self.parse_sequence(depth) {
            Ok(first) => first,
            Err(error) => return Err(error),
        };
        let ghost first_view = first;
        let ghost alt_ok = alternation_text_end(start.units@, start.index as int, depth as int) is Some;
        let ghost mut cur: int = start.index as int;
        let ghost mut done_b: Seq<Hir> = Seq::empty();
        let ghost mut done_i: Seq<Seq<Hir>> = Seq::empty();
        let ghost mut done_t: Seq<Seq<TokenTree>> = Seq::empty();
        let ghost mut last_i: Seq<Hir> = Seq::empty();
        let ghost mut last_t: Seq<TokenTree> = Seq::empty();
        proof {
            if alt_ok {
                assert(sequence_text_end(start.units@, start.index as int, depth as int) is Some);
                let (li, lt) = choose|items: Seq<Hir>, trees: Seq<TokenTree>| #[trigger]
                    items_spell(start.units@, start.case_insensitive, start.index as int, depth as int, items, trees)
                        && is_normalized_sequence(items, first_view);
                last_i = li;
                last_t = lt;
            }
        }
        branches.push(first);
        while self.peek() == Some(0x7c)
            invariant
                self.advanced_from(&start),
                start == *old(self),
                start.well_formed(),
                depth <= MAX_GROUP_DEPTH,
                forall|i: int| 0 <= i < branches@.len() ==> #[trigger] hir_well_formed(branches@[i]),
                self.index == self.units@.len() || self.units@[self.index as int] == 0x29
                    || self.units@[self.index as int] == 0x7c,
                plain_from(start.units@, start.index as int) ==> self.index == self.units@.len()
                    && branches@ == seq![first_view],
                quantified_text(start.units@, start.index as int) ==> self.index == self.units@.len()
                    && branches@ == seq![first_view],
                alt_ok == (alternation_text_end(start.units@, start.index as int, depth as int) is Some),
                alt_ok ==> {
                    &&& branches_from_to(self.units@, start.case_insensitive, start.index as int, cur, depth as int, done_b, done_i, done_t)
                    &&& branches@.len() == done_b.len() + 1
                    &&& branches@.drop_last() == done_b
                    &&& sequence_text_end(self.units@, cur, depth as int) == Some(self.index as int)
                    &&& cur <= self.index
                    &&& items_spell(self.units@, start.case_insensitive, cur, depth as int, last_i, last_t)
                    &&& is_normalized_sequence(last_i, branches@.last())
                    &&& alternation_text_end(self.units@, start.index as int, depth as int) == alternation_text_end(
                        self.units@,
                        cur,
                        depth as int,
                    )
                },
            decreases self.units@.len() - self.index,
        {
            let ghost bar = self.index as int;
            let ghost previous = branches@;
            proof {
                if alt_ok {
                    let units = self.units@;
                    assert(units[bar] == 0x7c);
                    lemma_branches_push(
                        units,
                        start.case_insensitive,
                        start.index as int,
                        cur,
                        depth as int,
                        done_b,
                        done_i,
                        done_t,
                        previous.last(),
                        last_i,
                        last_t,
                        bar,
                    );
                    assert(alternation_text_end(units, cur, depth as int) == alternation_text_end(units, bar + 1, depth as int));
                    assert(alternation_text_end(units, bar + 1, depth as int) is Some);
                    assert(sequence_text_end(units, bar + 1, depth as int) is Some);
                    done_b = done_b.push(previous.last());
                    done_i = done_i.push(last_i);
                    done_t = done_t.push(last_t);
                    cur = bar + 1;
                }
            }
            self.index = self.index + 1;
            let branch = match self.parse_sequence(depth) {
                Ok(branch) => branch,
                Err(error) => return Err(error),
            };
            branches.push(branch);
            proof {
                if alt_ok {
                    let (li, lt) = choose|items: Seq<Hir>, trees: Seq<TokenTree>| #[trigger]
                        items_spell(self.units@, start.case_insensitive, cur, depth as int, items, trees)
                            && is_normalized_sequence(items, branch);
                    last_i = li;
                    last_t = lt;
                    assert(branches@.drop_last() =~= previous);
                    assert(previous =~= done_b.drop_last().push(previous.last()));
                }
            }
        }
        proof {
            if alt_ok {
                let units = self.units@;
                let last = branches@.last();
                assert(branches_spell(units, start.case_insensitive, cur, depth as int, seq![last], seq![last_i], seq![last_t]));
                lemma_branches_close(
                    units,
                    start.case_insensitive,
                    start.index as int,
                    cur,
                    depth as int,
                    done_b,
                    done_i,
                    done_t,
                    last,
                    last_i,
                    last_t,
                );
                assert(branches@ =~= done_b.push(last));
            }
        }
        let ghost items = branches@;
        let alternation = Hir::alternation(branches);
        proof {
            lemma_normalized_alternation_wf(items, alternation);
            if quantified_text(start.units@, start.index as int) {
                assert(items =~= seq![first_view]);
                lemma_quantified_alternation(
                    start.units@,
                    start.case_insensitive,
                    start.index as int,
                    first_view,
                    alternation,
                );
            }
            if plain_from(start.units@, start.index as int) {
                assert(items =~= seq![first_view]);
                lemma_spelled_alternation(
                    start.units@.subrange(start.index as int, start.units@.len() as int),
                    start.case_insensitive,
                    first_view,
                    alternation,
                );
            }
        }
        Ok(alternation)
    }

    /// sequence := (atom quantifier?)*
    fn parse_sequence(&mut self, depth: usize) -> (parsed: Result<Hir, Error>)
        requires
            old(self).well_formed(),
            depth <= MAX_GROUP_DEPTH,
        ensures
            final(self).advanced_from(old(self)),
            parsed matches Ok(h) ==> hir_well_formed(h),
            parsed matches Ok(_) ==> final(self).index == final(self).units@.len() || final(self).units@[final(self).index as int] == 0x29 || final(self).units@[final(self).index as int]
                == 0x7c,
            parsed matches Err(e) ==> is_pattern_error(e, old(self).pattern_id, old(self).units@.len() as int),
            plain_from(old(self).units@, old(self).index as int) ==> (parsed matches Ok(h) && spells_literal(
                old(self).units@.subrange(old(self).index as int, old(self).units@.len() as int),
                old(self).case_insensitive,
                h,
            ) && final(self).index == final(self).units@.len()),
            quantified_text(old(self).units@, old(self).index as int) ==> (parsed matches Ok(h)
                && quantified_outcome(old(self).units@, old(self).case_insensitive, old(self).index as int, h)
                && final(self).index == final(self).units@.len()),
            sequence_text_end(old(self).units@, old(self).index as int, depth as int) matches Some(k) ==> (parsed matches Ok(
                h,
            ) && final(self).index == k && exists|items: Seq<Hir>, trees: Seq<TokenTree>| #[trigger]
                items_spell(old(self).units@, old(self).case_insensitive, old(self).index as int, depth as int, items, trees)
                && is_normalized_sequence(items, h)),
        decreases MAX_GROUP_DEPTH - depth, 3nat,
    {
        let ghost start = *self;
        let ghost seq_end = sequence_text_end(start.units@, start.index as int, depth as int);
        let ghost mut trees: Seq<TokenTree> = Seq::empty();
        let ghost plain = plain_from(start.units@, start.index as int);
        let ghost quantified_run = quantified_text(start.units@, start.index as int);
        let ghost mut starts: Seq<int> = seq![start.index as int];
        let mut items: Vec<Hir> = Vec::new();
        loop
            invariant
                self.advanced_from(&start),
                start == *old(self),
                start.well_formed(),
                depth <= MAX_GROUP_DEPTH,
                forall|i: int| 0 <= i < items@.len() ==> #[trigger] hir_well_formed(items@[i]),
                plain == plain_from(start.units@, start.index as int),
                plain ==> literal_atoms(
                    self.units@.subrange(start.index as int, self.index as int),
                    start.case_insensitive,
                    items@,
                ),
                quantified_run == quantified_text(start.units@, start.index as int),
                seq_end == sequence_text_end(start.units@, start.index as int, depth as int),
                seq_end is Some ==> sequence_text_end(self.units@, self.index as int, depth as int) == seq_end
                    && tokens_from_to(self.units@, start.case_insensitive, start.index as int, self.index as int, depth as int, items@, trees),
                quantified_run ==> quantified_text(self.units@, self.index as int) && tokens_spell(
                    self.units@,
                    start.case_insensitive,
                    start.index as int,
                    self.index as int,
                    items@,
                    starts,
                ),
            ensures
                self.advanced_from(&start),
                forall|i: int| 0 <= i < items@.len() ==> #[trigger] hir_well_formed(items@[i]),
                self.index == self.units@.len() || self.units@[self.index as int] == 0x29
                    || self.units@[self.index as int] == 0x7c,
                plain ==> literal_atoms(
                    self.units@.subrange(start.index as int, self.index as int),
                    start.case_insensitive,
                    items@,
                ) && self.index == self.units@.len(),
                quantified_run ==> tokens_spell(
                    self.units@,
                    start.case_insensitive,
                    start.index as int,
                    self.index as int,
                    items@,
                    starts,
                ) && self.index == self.units@.len(),
                seq_end is Some ==> seq_end == Some(self.index as int) && tokens_from_to(
                    self.units@,
                    start.case_insensitive,
                    start.index as int,
                    self.index as int,
                    depth as int,
                    items@,
                    trees,
                ),
            decreases self.units@.len() - self.index,
        {
            let next = self.peek();
            match next {
                None => break,
                Some(unit) => {
                    if unit == 0x7c || unit == 0x29 {
                        proof {
                            if plain {
                                assert(is_plain(self.units@[self.index as int]));
                            }
                            if quantified_run {
                                assert(is_simple_atom_start(self.units@, self.index as int));
                            }
                        }
                        break;
                    }
                },
            }
            let atom_start = self.index;
            let ghost starts_before = starts;
            proof {
                if plain {
                    assert(is_plain(self.units@[atom_start as int]));
                }
                if quantified_run {
                    assert(is_simple_atom_start(self.units@, atom_start as int));
                }
                if seq_end is Some {
                    assert(sequence_text_end(self.units@, atom_start as int, depth as int) == seq_end);
                    assert(token_text_end(self.units@, atom_start as int, depth as int) is Some);
                    assert(atom_text_end(self.units@, atom_start as int, depth as int) is Some);
                }
            }
            let atom = match self.parse_atom(depth) {
                Ok(atom) => atom,
                Err(error) => return Err(error),
            };
            let ghost atom_view = atom;
            let ghost atom_tree = if seq_end is Some {
                choose|tree: TokenTree| #[trigger]
                    atom_means(self.units@, start.case_insensitive, atom_start as int, depth as int, tree) && tree.atom
                        == atom_view
            } else {
                TokenTree { atom: atom_view, branches: Seq::empty(), branch_items: Seq::empty(), branch_trees: Seq::empty() }
            };
            proof {
                if plain && self.index < self.units@.len() {
                    assert(is_plain(self.units@[self.index as int]));
                }
                if quantified_run {
                    let units = self.units@;
                    let i = atom_start as int;
                    let a = atom_end(units, i);
                    if a < units.len() && is_quantifier_start(units[a]) {
                        let (low, high, end) = quantifier_bounds(units, a)->0;
                        assert(quantified_text(units, i));
                        assert(quantified_text(units, end));
                        if end < units.len() {
                            assert(is_simple_atom_start(units, end));
                        }
                    } else {
                        assert(quantified_text(units, i));
                        assert(quantified_text(units, a));
                    }
                }
            }
            let quantified = match self.parse_quantifier(atom, atom_start) {
                Ok(quantified) => quantified,
                Err(error) => return Err(error),
            };
            let ghost before = items@;
            items.push(quantified);
            proof {
                if seq_end is Some {
                    let units = self.units@;
                    let e = token_text_end(units, atom_start as int, depth as int)->0;
                    assert(self.index as int == e);
                    assert(token_means(units, start.case_insensitive, atom_start as int, depth as int, quantified, atom_tree));
                    lemma_tokens_push(
                        units,
                        start.case_insensitive,
                        start.index as int,
                        atom_start as int,
                        depth as int,
                        before,
                        trees,
                        quantified,
                        atom_tree,
                        e,
                    );
                    trees = trees.push(atom_tree);
                    assert(items@ =~= before.push(quantified));
                }
                if quantified_run {
                    let units = self.units@;
                    let i = atom_start as int;
                    let a = atom_end(units, i);
                    if a < units.len() && is_quantifier_start(units[a]) {
                        let (low, high, end) = quantifier_bounds(units, a)->0;
                        assert(simple_atom(units, start.case_insensitive, i, atom_view)
                            && is_normalized_repeat(atom_view, low, high, quantified));
                    }
                    assert(token_item(units, start.case_insensitive, i, quantified));
                    assert(self.index as int == token_end(units, i));
                    starts = starts_before.push(self.index as int);
                    assert(items@ =~= before.push(quantified));
                    assert(is_simple_atom_start(units, i));
                    assert forall|k: int| 0 <= k < items@.len() implies starts[k] < #[trigger] starts[k + 1]
                        && starts[k + 1] == token_end(units, starts[k]) && is_simple_atom_start(units, starts[k])
                        && token_item(
                        units,
                        start.case_insensitive,
                        starts[k],
                        items@[k],
                    ) by {
                        if k < before.len() {
                            assert(starts[k] == starts_before[k] && starts[k + 1] == starts_before[k + 1]);
                            assert(items@[k] == before[k]);
                        }
                    }
                }
                if plain {
                    assert(self.units@.subrange(start.index as int, self.index as int) =~= self.units@.subrange(
                        start.index as int,
                        atom_start as int,
                    ).push(self.units@[atom_start as int]));
                    let spelled = self.units@.subrange(start.index as int, self.index as int);
                    assert(items@ =~= before.push(quantified));
                    assert forall|i: int| 0 <= i < spelled.len() implies #[trigger] is_literal_atom(
                        spelled[i],
                        start.case_insensitive,
                        items@[i],
                    ) by {
                        if i < spelled.len() - 1 {
                            assert(spelled[i] == self.units@.subrange(
                                start.index as int,
                                atom_start as int,
                            )[i]);
                        }
                    }
                }
            }
        }
        let ghost kept = items@;
        let sequence = Hir::sequence(items);
        proof {
            lemma_normalized_sequence_wf(kept, sequence);
            if plain {
                lemma_spelled_sequence(
                    self.units@.subrange(start.index as int, self.index as int),
                    start.case_insensitive,
                    kept,
                    sequence,
                );
            }
            if quantified_run {
                assert(tokens_spell(self.units@, start.case_insensitive, start.index as int, self.units@.len() as int, kept, starts));
            }
            if seq_end is Some {
                lemma_tokens_close(
                    self.units@,
                    start.case_insensitive,
                    start.index as int,
                    self.index as int,
                    depth as int,
                    kept,
                    trees,
                );
                assert(items_spell(self.units@, start.case_insensitive, start.index as int, depth as int, kept, trees)
                    && is_normalized_sequence(kept, sequence));
            }
        }
        Ok(sequence)
    }

    /// One atom: literal, dot, class, escape, anchor, or group.
    fn parse_atom(&mut self, depth: usize) -> (parsed: Result<Hir, Error>)
        requires
            old(self).well_formed(),
            old(self).index < old(self).units@.len(),
            depth <= MAX_GROUP_DEPTH,
        ensures
            final(self).advanced_from(old(self)),
            parsed matches Ok(h) ==> hir_well_formed(h) && final(self).index > old(self).index,
            parsed matches Err(e) ==> is_pattern_error(e, old(self).pattern_id, old(self).units@.len() as int),
            is_plain(old(self).units@[old(self).index as int]) ==> (parsed matches Ok(h) && is_literal_atom(
                old(self).units@[old(self).index as int],
                old(self).case_insensitive,
                h,
            )) && final(self).index == old(self).index + 1,
            is_simple_atom_start(old(self).units@, old(self).index as int) ==> (parsed matches Ok(h)
                && simple_atom(old(self).units@, old(self).case_insensitive, old(self).index as int, h))
                && final(self).index == atom_end(old(self).units@, old(self).index as int),
            atom_text_end(old(self).units@, old(self).index as int, depth as int) matches Some(a) ==> (parsed matches Ok(h)
                && final(self).index == a && exists|tree: TokenTree| #[trigger]
                atom_means(old(self).units@, old(self).case_insensitive, old(self).index as int, depth as int, tree)
                && tree.atom == h),
        decreases MAX_GROUP_DEPTH - depth, 2nat,
    {
        let ghost before = *self;
        let parsed = self.parse_atom_at(depth);
        proof {
            let units = before.units@;
            let i = before.index as int;
            if atom_text_end(units, i, depth as int) is Some && is_simple_atom_start(units, i) {
                let h = parsed->Ok_0;
                let tree = TokenTree {
                    atom: h,
                    branches: Seq::empty(),
                    branch_items: Seq::empty(),
                    branch_trees: Seq::empty(),
                };
                assert(atom_means(units, before.case_insensitive, i, depth as int, tree));
            }
        }
        parsed
    }

    /// The atom itself, before any quantifier.
    fn parse_atom_at(&mut self, depth: usize) -> (parsed: Result<Hir, Error>)
        requires
            old(self).well_formed(),
            old(self).index < old(self).units@.len(),
            depth <= MAX_GROUP_DEPTH,
        ensures
            final(self).advanced_from(old(self)),
            parsed matches Ok(h) ==> hir_well_formed(h) && final(self).index > old(self).index,
            parsed matches Err(e) ==> is_pattern_error(e, old(self).pattern_id, old(self).units@.len() as int),
            is_plain(old(self).units@[old(self).index as int]) ==> (parsed matches Ok(h) && is_literal_atom(
                old(self).units@[old(self).index as int],
                old(self).case_insensitive,
                h,
            )) && final(self).index == old(self).index + 1,
            is_simple_atom_start(old(self).units@, old(self).index as int) ==> (parsed matches Ok(h)
                && simple_atom(old(self).units@, old(self).case_insensitive, old(self).index as int, h))
                && final(self).index == atom_end(old(self).units@, old(self).index as int),
            old(self).units@[old(self).index as int] == 0x28 ==> (atom_text_end(old(self).units@, old(self).index as int, depth as int) matches Some(a) ==> (parsed matches Ok(h)
                && final(self).index == a && exists|tree: TokenTree| #[trigger]
                atom_means(old(self).units@, old(self).case_insensitive, old(self).index as int, depth as int, tree)
                && tree.atom == h)),
        decreases MAX_GROUP_DEPTH - depth, 1nat,
    {
        let start = self.index;
        let unit = self.units[self.index];
        if unit == 0x2e {
            self.index = self.index + 1;
            return Ok(Hir::Predicate(SymbolPredicate::any()));
        }
        if unit == 0x5e {
            self.index = self.index + 1;
            return Ok(Hir::Assertion(Assertion::LineStart));
        }
        if unit == 0x24 {
            self.index = self.index + 1;
            return Ok(Hir::Assertion(Assertion::LineEnd));
        }
        if unit == 0x5c {
            return self.parse_escape();
        }
        if unit == 0x5b {
            return self.parse_character_class();
        }
        if unit == 0x28 {
            return self.parse_group(depth);
        }
        if unit == 0x2a || unit == 0x2b || unit == 0x3f || unit == 0x7b {
            // A quantifier with nothing to repeat.
            return Err(invalid(self.pattern_id, start, start + 1));
        }
        self.index = self.index + 1;
        Ok(literal(unit, self.case_insensitive))
    }

    /// group := '(' ('?:')? alternation ')'
    fn parse_group(&mut self, depth: usize) -> (parsed: Result<Hir, Error>)
        requires
            old(self).well_formed(),
            old(self).index < old(self).units@.len(),
            old(self).units@[old(self).index as int] == 0x28,
            depth <= MAX_GROUP_DEPTH,
        ensures
            final(self).advanced_from(old(self)),
            parsed matches Ok(h) ==> hir_well_formed(h) && final(self).index > old(self).index,
            parsed matches Err(e) ==> is_pattern_error(e, old(self).pattern_id, old(self).units@.len() as int),
            atom_text_end(old(self).units@, old(self).index as int, depth as int) matches Some(a) ==> (parsed matches Ok(h)
                && final(self).index == a && exists|tree: TokenTree| #[trigger]
                atom_means(old(self).units@, old(self).case_insensitive, old(self).index as int, depth as int, tree)
                && tree.atom == h),
        decreases MAX_GROUP_DEPTH - depth, 0nat,
    {
        let start = self.index;
        if depth >= MAX_GROUP_DEPTH {
            return Err(
                Error::PatternNestingTooDeep { pattern_id: self.pattern_id, span: span(start, start + 1) },
            );
        }
        self.index = self.index + 1;
        if self.peek() == Some(0x3f) {
            if self.peek_at(1) == Some(0x3a) {
                self.index = self.index + 2;
            } else {
                // Scoped flags, lookaround, and named groups are outside the
                // supported language.
                let position = self.index;
                return Err(unsupported(self.pattern_id, position, position + 1, 0x3f));
            }
        }
        let ghost body = self.index as int;
        let inner = match self.parse_alternation(depth + 1) {
            Ok(inner) => inner,
            Err(error) => return Err(error),
        };
        if self.peek() != Some(0x29) {
            let end = self.index;
            return Err(invalid(self.pattern_id, start, end));
        }
        self.index = self.index + 1;
        proof {
            let units = self.units@;
            if atom_text_end(units, start as int, depth as int) is Some {
                assert(!is_simple_atom_start(units, start as int));
                assert(group_body(units, start as int) == Some(body));
                let (bs, il, tl) = choose|bs: Seq<Hir>, il: Seq<Seq<Hir>>, tl: Seq<Seq<TokenTree>>| #[trigger]
                    branches_spell(units, self.case_insensitive, body, depth + 1, bs, il, tl)
                        && is_normalized_alternation(bs, inner);
                let tree = TokenTree { atom: inner, branches: bs, branch_items: il, branch_trees: tl };
                assert(atom_means(units, self.case_insensitive, start as int, depth as int, tree));
            }
        }
        Ok(inner)
    }

    /// escape := '\' (literal | control | shorthand | 'b' | 'B')
    fn parse_escape(&mut self) -> (parsed: Result<Hir, Error>)
        requires
            old(self).well_formed(),
            old(self).index < old(self).units@.len(),
        ensures
            final(self).advanced_from(old(self)),
            parsed matches Ok(h) ==> hir_well_formed(h) && final(self).index > old(self).index,
            parsed matches Err(e) ==> is_pattern_error(e, old(self).pattern_id, old(self).units@.len() as int),
            old(self).units@[old(self).index as int] == 0x5c && is_simple_atom_start(old(self).units@, old(self).index as int)
                ==> (parsed matches Ok(h) && simple_atom(old(self).units@, old(self).case_insensitive, old(self).index as int, h))
                && final(self).index == old(self).index + 2,
    {
        let start = self.index;
        self.index = self.index + 1;
        let escaped = match self.peek() {
            Some(unit) => unit,
            None => {
                let end = self.index;
                return Err(invalid(self.pattern_id, start, end));
            },
        };
        self.index = self.index + 1;
        if escaped_literal(escaped) {
            return Ok(literal(escaped, self.case_insensitive));
        }
        if let Some(symbol) = control_escape(escaped) {
            return Ok(Hir::Symbol(symbol));
        }
        if shorthand_unit(escaped) {
            return Ok(Hir::Predicate(shorthand(escaped)));
        }
        if escaped == 0x62 {
            return Ok(Hir::Assertion(Assertion::WordBoundary));
        }
        if escaped == 0x42 {
            return Ok(Hir::Assertion(Assertion::NonWordBoundary));
        }
        let end = self.index;
        Err(invalid(self.pattern_id, start, end))
    }

    /// class := '[' '^'? (literal | escape | range | shorthand)* ']'
    fn parse_character_class(&mut self) -> (parsed: Result<Hir, Error>)
        requires
            old(self).well_formed(),
            old(self).index < old(self).units@.len(),
        ensures
            final(self).advanced_from(old(self)),
            parsed matches Ok(h) ==> hir_well_formed(h) && final(self).index > old(self).index,
            parsed matches Err(e) ==> is_pattern_error(e, old(self).pattern_id, old(self).units@.len() as int),
            class_at(old(self).units@, old(self).index as int) matches Some((listed, end)) ==> (parsed matches Ok(
                Hir::Predicate(p),
            ) && (forall|x: u16| #[trigger]
                p.contains(x) == (class_inverted(old(self).units@, old(self).index as int) != class_admits(
                    listed,
                    old(self).case_insensitive,
                    x,
                )))) && final(self).index == end,
    {
        let class_start = self.index;
        self.index = self.index + 1;
        let inverted = self.peek() == Some(0x5e);
        if inverted {
            self.index = self.index + 1;
        }
        let mut predicate = SymbolPredicate::empty();
        let mut pending_literal: Option<(u16, usize)> = None;
        let mut range_start: Option<(u16, usize)> = None;
        let ghost start = *self;
        let ghost full = class_at(self.units@, class_start as int);
        let ghost mut listed: Set<u16> = Set::empty();
        loop
            invariant
                self.advanced_from(&start),
                start.advanced_from(old(self)),
                old(self).well_formed(),
                class_start == old(self).index,
                start.well_formed(),
                class_start < start.index,
                predicate.well_formed(),
                pending_literal matches Some((_, p)) ==> p <= self.index,
                range_start matches Some((_, p)) ==> p <= self.index,
                inverted == class_inverted(self.units@, class_start as int),
                full == class_at(self.units@, class_start as int),
                forall|x: u16| #[trigger] predicate.contains(x) == listed.contains(x),
                range_start is Some ==> pending_literal is None,
                class_members(
                    self.units@,
                    self.index as int,
                    match pending_literal {
                        Some((unit, _)) => Some(unit),
                        None => None,
                    },
                    match range_start {
                        Some((unit, _)) => Some(unit),
                        None => None,
                    },
                    listed,
                ) == full,
            decreases self.units@.len() - self.index,
        {
            let ghost pending_view: Option<u16> = match pending_literal {
                Some((unit, _)) => Some(unit),
                None => None,
            };
            let ghost index_before = self.index as int;
            let unit = match self.peek() {
                Some(unit) => unit,
                None => {
                    let end = self.index;
                    return Err(invalid(self.pattern_id, class_start, end));
                },
            };
            if unit == 0x5d {
                if range_start.is_some() {
                    let end = self.index + 1;
                    return Err(invalid(self.pattern_id, class_start, end));
                }
                if let Some((literal_unit, _)) = pending_literal {
                    predicate.insert(literal_unit);
                }
                let ghost closed = with_pending(listed, pending_view);
                assert(full == Some((closed, index_before + 1)));
                assert forall|x: u16| #[trigger] predicate.contains(x) == closed.contains(x) by {}
                self.index = self.index + 1;
                let ghost unfolded = predicate;
                if self.case_insensitive {
                    predicate = fold_case(predicate);
                    proof {
                        assert forall|x: u16| #[trigger] predicate.contains(x) == class_admits(closed, true, x) by {
                            if case_variant_of(unfolded, x, 0x10000) {
                                let y = choose|y: u16|
                                    (y as int) < 0x10000 && #[trigger] unfolded.contains(y) && (simple_lower(y) == x
                                        || simple_upper(y) == x);
                                assert(closed.contains(y));
                            }
                            if exists|y: u16| #[trigger] closed.contains(y) && (simple_lower(y) == x || simple_upper(y)
                                == x) {
                                let y = choose|y: u16| #[trigger]
                                    closed.contains(y) && (simple_lower(y) == x || simple_upper(y) == x);
                                assert(unfolded.contains(y));
                                assert((y as int) < 0x10000);
                            }
                        }
                    }
                }
                assert forall|x: u16| #[trigger] predicate.contains(x) == class_admits(closed, self.case_insensitive, x) by {}
                let ghost admitted = predicate;
                if inverted {
                    predicate = predicate.complement();
                }
                assert forall|x: u16| #[trigger] predicate.contains(x) == (inverted != class_admits(closed, self.case_insensitive, x)) by {
                    if inverted {
                        assert(predicate.contains(x) == !admitted.contains(x));
                    }
                }
                return Ok(Hir::Predicate(predicate));
            }
            let token = match self.parse_class_token() {
                Ok(token) => token,
                Err(error) => return Err(error),
            };
            match token {
                ClassToken::Literal(literal_unit, position) => {
                    match range_start {
                        Some((first, range_position)) => {
                            range_start = None;
                            if !predicate.insert_range(first, literal_unit) {
                                let end = self.index;
                                return Err(invalid(self.pattern_id, range_position, end));
                            }
                            proof {
                                listed = listed.union(Set::new(|x: u16| first <= x <= literal_unit));
                            }
                        },
                        None => {
                            if let Some((previous, _)) = pending_literal {
                                predicate.insert(previous);
                            }
                            proof {
                                listed = with_pending(listed, pending_view);
                            }
                            pending_literal = Some((literal_unit, position));
                        },
                    }
                },
                ClassToken::Predicate(class) => {
                    if range_start.is_some() {
                        let end = self.index;
                        return Err(invalid(self.pattern_id, class_start, end));
                    }
                    if let Some((previous, _)) = pending_literal {
                        predicate.insert(previous);
                    }
                    pending_literal = None;
                    predicate = predicate.union(class);
                    proof {
                        listed = with_pending(listed, pending_view).union(
                            Set::new(|x: u16| shorthand_member(self.units@[index_before + 1], x)),
                        );
                    }
                },
                ClassToken::RangeMarker(position) => {
                    match pending_literal {
                        None => {
                            let end = self.index;
                            return Err(invalid(self.pattern_id, position, end));
                        },
                        Some(pending) => {
                            pending_literal = None;
                            range_start = Some(pending);
                        },
                    }
                },
            }
        }
    }

    fn parse_class_token(&mut self) -> (token: Result<ClassToken, Error>)
        requires
            old(self).well_formed(),
            old(self).index < old(self).units@.len(),
        ensures
            final(self).advanced_from(old(self)),
            token matches Ok(t) ==> final(self).index > old(self).index && match t {
                ClassToken::Literal(_, p) => p == old(self).index,
                ClassToken::Predicate(p) => p.well_formed(),
                ClassToken::RangeMarker(p) => p == old(self).index,
            },
            token matches Err(e) ==> is_pattern_error(e, old(self).pattern_id, old(self).units@.len() as int),
            token matches Ok(ClassToken::Literal(unit, _)) ==> class_unit_at(old(self).units@, old(self).index as int)
                == Some(unit) && final(self).index == class_token_end(old(self).units@, old(self).index as int),
            token matches Ok(ClassToken::Predicate(p)) ==> class_unit_at(old(self).units@, old(self).index as int) is None
                && class_shorthand_at(old(self).units@, old(self).index as int) && final(self).index == old(self).index
                + 2 && p.well_formed() && forall|x: u16| #[trigger] p.contains(x) == shorthand_member(
                old(self).units@[old(self).index + 1],
                x,
            ),
            token matches Ok(ClassToken::RangeMarker(_)) ==> old(self).units@[old(self).index as int] == 0x2d
                && final(self).index == old(self).index + 1,
            token is Err ==> old(self).units@[old(self).index as int] != 0x2d && class_unit_at(
                old(self).units@,
                old(self).index as int,
            ) is None && !class_shorthand_at(old(self).units@, old(self).index as int),
    {
        let start = self.index;
        let unit = self.units[self.index];
        self.index = self.index + 1;
        if unit == 0x2d {
            return Ok(ClassToken::RangeMarker(start));
        }
        if unit != 0x5c {
            return Ok(ClassToken::Literal(unit, start));
        }
        let escaped = match self.peek() {
            Some(escaped) => escaped,
            None => {
                let end = self.index;
                return Err(invalid(self.pattern_id, start, end));
            },
        };
        self.index = self.index + 1;
        if escaped == 0x5c || escaped == 0x5d || escaped == 0x5b || escaped == 0x2d || escaped
            == 0x5e {
            return Ok(ClassToken::Literal(escaped, start));
        }
        if let Some(symbol) = control_escape(escaped) {
            return Ok(ClassToken::Literal(symbol, start));
        }
        if shorthand_unit(escaped) {
            return Ok(ClassToken::Predicate(shorthand(escaped)));
        }
        let end = self.index;
        Err(invalid(self.pattern_id, start, end))
    }

    /// Parses a decimal count, saturating above the supported bound.
    fn parse_count(&mut self) -> (count: Option<u16>)
        requires
            old(self).well_formed(),
        ensures
            final(self).advanced_from(old(self)),
            final(self).index == digit_run_end(old(self).units@, old(self).index as int),
            count matches Some(c) ==> final(self).index > old(self).index
                && c == capped_decimal(old(self).units@, old(self).index as int, final(self).index as int),
            count is None <==> final(self).index == old(self).index,
    {
        let mut value: u16 = 0;
        let mut digits: usize = 0;
        let ghost start = *self;
        loop
            invariant
                self.advanced_from(&start),
                start.well_formed(),
                value <= MAX_REPEAT_BOUND + 1,
                digits == self.index - start.index,
                value == capped_decimal(start.units@, start.index as int, self.index as int),
                digit_run_end(self.units@, self.index as int) == digit_run_end(start.units@, start.index as int),
            ensures
                digit_run_end(self.units@, self.index as int) == self.index,
            decreases self.units@.len() - self.index,
        {
            let unit = match self.peek() {
                Some(unit) => unit,
                None => break,
            };
            if unit < 0x30 || unit > 0x39 {
                break;
            }
            let digit = unit - 0x30;
            if value <= MAX_REPEAT_BOUND {
                let widened = (value as u32) * 10 + (digit as u32);
                value = if widened > (MAX_REPEAT_BOUND as u32) {
                    MAX_REPEAT_BOUND + 1
                } else {
                    widened as u16
                };
            }
            self.index = self.index + 1;
            digits = digits + 1;
        }
        if digits == 0 {
            None
        } else {
            Some(value)
        }
    }

    /// quantifier := ('?' | '*' | '+' | '{' n (',' m?)? '}'), greedy only.
    fn parse_quantifier(&mut self, atom: Hir, atom_start: usize) -> (parsed: Result<Hir, Error>)
        requires
            old(self).well_formed(),
            atom_start < old(self).index,
            hir_well_formed(atom),
        ensures
            final(self).advanced_from(old(self)),
            parsed matches Ok(h) ==> hir_well_formed(h),
            parsed matches Err(e) ==> is_pattern_error(e, old(self).pattern_id, old(self).units@.len() as int),
            old(self).index == old(self).units@.len() || is_plain(old(self).units@[old(self).index as int])
                ==> parsed == Ok::<Hir, Error>(atom) && final(self).index == old(self).index,
            !(old(self).index < old(self).units@.len() && is_quantifier_start(old(self).units@[old(self).index as int]))
                ==> parsed == Ok::<Hir, Error>(atom) && final(self).index == old(self).index,
            old(self).index < old(self).units@.len() && is_quantifier_start(old(self).units@[old(self).index as int])
                ==> match quantifier_bounds(old(self).units@, old(self).index as int) {
                None => parsed is Err,
                Some((low, high, end)) => if end < old(self).units@.len() && is_quantifier_start(old(self).units@[end]) {
                    parsed is Err && final(self).index == end
                } else {
                    final(self).index == end && (parsed matches Ok(h) && is_normalized_repeat(atom, low, high, h))
                },
            },
    {
        let quantifier_start = self.index;
        let unit = match self.peek() {
            Some(unit) => unit,
            None => return Ok(atom),
        };
        let (min, max): (u16, Option<u16>) = if unit == 0x3f {
            self.index = self.index + 1;
            (0, Some(1))
        } else if unit == 0x2a {
            self.index = self.index + 1;
            (0, None)
        } else if unit == 0x2b {
            self.index = self.index + 1;
            (1, None)
        } else if unit == 0x7b {
            self.index = self.index + 1;
            let low = match self.parse_count() {
                Some(low) => low,
                None => {
                    let end = self.index;
                    return Err(invalid(self.pattern_id, quantifier_start, end));
                },
            };
            let high = if self.peek() == Some(0x2c) {
                self.index = self.index + 1;
                if self.peek() == Some(0x7d) {
                    None
                } else {
                    match self.parse_count() {
                        Some(high) => Some(high),
                        None => {
                            let end = self.index;
                            return Err(invalid(self.pattern_id, quantifier_start, end));
                        },
                    }
                }
            } else {
                Some(low)
            };
            if self.peek() != Some(0x7d) {
                let end = self.index;
                return Err(invalid(self.pattern_id, quantifier_start, end));
            }
            self.index = self.index + 1;
            let end = self.index;
            if low > MAX_REPEAT_BOUND {
                return Err(invalid(self.pattern_id, quantifier_start, end));
            }
            match high {
                Some(limit) => {
                    if limit > MAX_REPEAT_BOUND || limit < low {
                        return Err(invalid(self.pattern_id, quantifier_start, end));
                    }
                },
                None => {},
            }
            (low, high)
        } else {
            return Ok(atom);
        };
        // Lazy and possessive quantifiers are outside the supported language;
        // a second quantifier has nothing to repeat.
        match self.peek() {
            Some(next) => {
                if next == 0x3f || next == 0x2b {
                    let position = self.index;
                    return Err(unsupported(self.pattern_id, position, position + 1, next));
                }
                if next == 0x2a || next == 0x7b {
                    let position = self.index;
                    return Err(invalid(self.pattern_id, position, position + 1));
                }
            },
            None => {},
        }
        let ghost source = atom;
        let repeated = Hir::repeat(atom, min, max);
        proof {
            assert(is_normalized_repeat(source, min, max, repeated));
        }
        Ok(repeated)
    }
}

} // verus!
