//! Single-UTF-16-unit case mappings used by case-insensitive patterns.
use vstd::prelude::*;

verus! {

/// The Unicode lowercase mapping of a non-surrogate code unit, as scalar
/// values.
pub uninterp spec fn lowercase_mapping(symbol: u16) -> Seq<u32>;

/// The Unicode uppercase mapping of a non-surrogate code unit, as scalar
/// values.
pub uninterp spec fn uppercase_mapping(symbol: u16) -> Seq<u32>;

/// Whether `symbol` is a UTF-16 surrogate, which has no case.
pub open spec fn is_surrogate(symbol: u16) -> bool {
    0xd800 <= symbol <= 0xdfff
}

/// Keeps a mapping only when it is one unit of the Basic Multilingual Plane.
pub open spec fn single_unit(symbol: u16, mapping: Seq<u32>) -> u16 {
    if mapping.len() == 1 && mapping[0] < 0x10000 {
        mapping[0] as u16
    } else {
        symbol
    }
}

/// The simple (one-character) lowercase mapping where it differs from a
/// full mapping of several characters: U+0130 lowercases to U+0069.
pub open spec fn simple_lower_exception(symbol: u16) -> Option<u16> {
    if symbol == 0x0130 {
        Some(0x0069u16)
    } else {
        None
    }
}

/// The simple (one-character) uppercase mapping where it differs from a
/// full mapping of several characters: the Greek letters with iota
/// subscript uppercase to their titlecase forms.
pub open spec fn simple_upper_exception(symbol: u16) -> Option<u16> {
    if (0x1f80 <= symbol <= 0x1f87) || (0x1f90 <= symbol <= 0x1f97) || (0x1fa0 <= symbol <= 0x1fa7) {
        Some((symbol + 8) as u16)
    } else if symbol == 0x1fb3 {
        Some(0x1fbcu16)
    } else if symbol == 0x1fc3 {
        Some(0x1fccu16)
    } else if symbol == 0x1ff3 {
        Some(0x1ffcu16)
    } else {
        None
    }
}

/// The simple lowercase of `symbol`, when it is one unit, or `symbol` itself.
pub open spec fn simple_lower(symbol: u16) -> u16 {
    if is_surrogate(symbol) {
        symbol
    } else {
        match simple_lower_exception(symbol) {
            Some(mapped) => mapped,
            None => single_unit(symbol, lowercase_mapping(symbol)),
        }
    }
}

/// The simple uppercase of `symbol`, when it is one unit, or `symbol` itself.
pub open spec fn simple_upper(symbol: u16) -> u16 {
    if is_surrogate(symbol) {
        symbol
    } else {
        match simple_upper_exception(symbol) {
            Some(mapped) => mapped,
            None => single_unit(symbol, uppercase_mapping(symbol)),
        }
    }
}

/// The units whose simple lowercase differs from their full lowercase.
fn lower_exception(symbol: u16) -> (mapped: Option<u16>)
    ensures
        mapped == simple_lower_exception(symbol),
{
    if symbol == 0x0130 {
        Some(0x0069)
    } else {
        None
    }
}

/// The units whose simple uppercase differs from their full uppercase.
fn upper_exception(symbol: u16) -> (mapped: Option<u16>)
    ensures
        mapped == simple_upper_exception(symbol),
{
    if (0x1f80 <= symbol && symbol <= 0x1f87) || (0x1f90 <= symbol && symbol <= 0x1f97) || (0x1fa0 <= symbol
        && symbol <= 0x1fa7) {
        Some(symbol + 8)
    } else if symbol == 0x1fb3 {
        Some(0x1fbc)
    } else if symbol == 0x1fc3 {
        Some(0x1fcc)
    } else if symbol == 0x1ff3 {
        Some(0x1ffc)
    } else {
        None
    }
}

/// Calls `char::to_lowercase` on the scalar value `symbol`, which the
/// caller guarantees is not a surrogate, and returns the mapped scalar values.
/// The contract names the result; it claims only that the same unit always
/// maps the same way.
#[verifier::external_body]
fn lowercase_of(symbol: u16) -> (mapped: Vec<u32>)
    requires
        !is_surrogate(symbol),
    ensures
        mapped@ == lowercase_mapping(symbol),
{
    char::from_u32(u32::from(symbol)).map_or_else(Vec::new, |c| c.to_lowercase().map(u32::from).collect())
}

/// Calls `char::to_uppercase` on the scalar value `symbol`, which the
/// caller guarantees is not a surrogate, and returns the mapped scalar values.
/// The contract names the result; it claims only that the same unit always
/// maps the same way.
#[verifier::external_body]
fn uppercase_of(symbol: u16) -> (mapped: Vec<u32>)
    requires
        !is_surrogate(symbol),
    ensures
        mapped@ == uppercase_mapping(symbol),
{
    char::from_u32(u32::from(symbol)).map_or_else(Vec::new, |c| c.to_uppercase().map(u32::from).collect())
}

fn keep_single_unit(symbol: u16, mapped: &Vec<u32>) -> (unit: u16)
    ensures
        unit == single_unit(symbol, mapped@),
{
    if mapped.len() == 1 && mapped[0] < 0x10000 {
        mapped[0] as u16
    } else {
        symbol
    }
}

/// Returns the simple (one-character) lowercase and uppercase forms of
/// `symbol`; surrogates and units whose simple mapping is not one unit map
/// to themselves.
pub fn lower_upper(symbol: u16) -> (pair: (u16, u16))
    ensures
        pair == (simple_lower(symbol), simple_upper(symbol)),
{
    if 0xd800 <= symbol && symbol <= 0xdfff {
        return (symbol, symbol);
    }
    let lower = match lower_exception(symbol) {
        Some(mapped) => mapped,
        None => keep_single_unit(symbol, &lowercase_of(symbol)),
    };
    let upper = match upper_exception(symbol) {
        Some(mapped) => mapped,
        None => keep_single_unit(symbol, &uppercase_of(symbol)),
    };
    (lower, upper)
}

} // verus!
