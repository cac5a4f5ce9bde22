//! Pattern files and ASCII corpora for measurement runs.
//!
//! A pattern file holds one row per pattern: a positive decimal pattern ID,
//! one tab, and the non-empty pattern expression, which holds no tab. Rows
//! end with a line feed, optionally preceded by carriage returns.
use vstd::prelude::*;

use std::collections::HashSet;

use crate::types::{PatternId, Utf16Text};

verus! {

broadcast use vstd::std_specs::hash::group_hash_axioms;

/// Why a pattern file or corpus was refused. Rows are numbered from one.
#[derive(Clone, Copy, Debug, PartialEq, Eq, Structural)]
pub enum RowError {
    /// The pattern file holds a byte outside ASCII.
    PatternsNotAscii,
    /// The pattern file is not valid UTF-8.
    PatternsNotUtf8,
    /// A row has no tab between its ID and its expression.
    MissingTab { row: usize },
    /// A row's expression is empty or holds a tab.
    InvalidExpression { row: usize },
    /// A row's ID is not a decimal `u32`.
    InvalidId { row: usize },
    /// A row's ID is zero.
    ZeroId { row: usize },
    /// An ID occurs on two rows.
    DuplicateId { id: u32 },
    /// The file holds no row.
    NoRows,
    /// The corpus holds a byte outside ASCII.
    CorpusNotAscii,
}

/// One pattern row: its ID and the bytes of its expression.
#[derive(Clone, Debug, PartialEq, Eq)]
pub struct HarnessPattern {
    pub id: PatternId,
    pub expression: Vec<u8>,
}

/// Every byte is ASCII.
pub open spec fn ascii_bytes(bytes: Seq<u8>) -> bool {
    forall|i: int| 0 <= i < bytes.len() ==> #[trigger] bytes[i] < 128
}

/// Whether `bytes` is well-formed UTF-8.
pub uninterp spec fn utf8_valid(bytes: Seq<u8>) -> bool;

/// Checks `bytes` for UTF-8 well-formedness with `std::str::from_utf8`,
/// which accepts exactly the well-formed UTF-8 sequences; ASCII bytes are
/// always well formed.
#[verifier::external_body]
fn is_utf8(bytes: &[u8]) -> (valid: bool)
    ensures
        valid == utf8_valid(bytes@),
        ascii_bytes(bytes@) ==> valid,
{
    std::str::from_utf8(bytes).is_ok()
}

fn all_ascii(bytes: &[u8]) -> (ascii: bool)
    ensures
        ascii == ascii_bytes(bytes@),
{
    let mut i: usize = 0;
    while i < bytes.len()
        invariant
            i <= bytes@.len(),
            forall|k: int| 0 <= k < i ==> #[trigger] bytes@[k] < 128,
        decreases bytes@.len() - i,
    {
        if bytes[i] >= 128 {
            return false;
        }
        i = i + 1;
    }
    true
}

/// Position of the first line feed at or after `from`, or the length.
pub open spec fn line_end(bytes: Seq<u8>, from: int) -> int
    decreases bytes.len() - from,
{
    if from >= bytes.len() {
        bytes.len() as int
    } else if bytes[from] == 0x0a {
        from
    } else {
        line_end(bytes, from + 1)
    }
}

/// `line` without one trailing carriage return.
pub open spec fn strip_return(line: Seq<u8>) -> Seq<u8> {
    if line.len() > 0 && line.last() == 0x0d {
        line.drop_last()
    } else {
        line
    }
}

/// The text of the row between `from` and `end`: a row ended by a line
/// feed loses up to two trailing carriage returns, the last row up to one.
pub open spec fn row_text(bytes: Seq<u8>, from: int, end: int) -> Seq<u8> {
    let raw = bytes.subrange(from, end);
    if end < bytes.len() {
        strip_return(strip_return(raw))
    } else {
        strip_return(raw)
    }
}

/// The rows of `bytes` from `from` on. A final line feed ends the last row
/// rather than starting an empty one.
pub open spec fn rows_from(bytes: Seq<u8>, from: int) -> Seq<Seq<u8>>
    decreases bytes.len() - from,
{
    if from < 0 || from >= bytes.len() {
        seq![]
    } else {
        proof {
            lemma_line_end_bounds(bytes, from);
        }
        let end = line_end(bytes, from);
        if end < bytes.len() {
            seq![row_text(bytes, from, end)] + rows_from(bytes, end + 1)
        } else {
            seq![row_text(bytes, from, end)]
        }
    }
}

/// Position of the first tab in `text`, if any.
pub open spec fn first_tab(text: Seq<u8>) -> Option<int>
    decreases text.len(),
{
    if text.len() == 0 {
        None
    } else {
        match first_tab(text.drop_last()) {
            Some(i) => Some(i),
            None => if text.last() == 0x09 {
                Some(text.len() - 1)
            } else {
                None
            },
        }
    }
}

/// Decimal value of an all-digit string.
pub open spec fn decimal_value(digits: Seq<u8>) -> int
    decreases digits.len(),
{
    if digits.len() == 0 {
        0
    } else {
        decimal_value(digits.drop_last()) * 10 + (digits.last() - 0x30)
    }
}

/// Every byte is a decimal digit.
pub open spec fn all_digits(bytes: Seq<u8>) -> bool {
    forall|i: int| 0 <= i < bytes.len() ==> 0x30 <= #[trigger] bytes[i] <= 0x39
}

/// The `u32` written by `text`: an optional plus sign, then at least one
/// decimal digit, with a value that fits.
pub open spec fn parse_id(text: Seq<u8>) -> Option<u32> {
    let digits = if text.len() > 0 && text[0] == 0x2b {
        text.drop_first()
    } else {
        text
    };
    if digits.len() > 0 && all_digits(digits) && decimal_value(digits) <= u32::MAX {
        Some(decimal_value(digits) as u32)
    } else {
        None
    }
}

/// The ID and expression of row number `row`, or why it is refused.
pub open spec fn parse_row(text: Seq<u8>, row: usize) -> Result<(u32, Seq<u8>), RowError> {
    match first_tab(text) {
        None => Err(RowError::MissingTab { row }),
        Some(tab) => {
            let expression = text.subrange(tab + 1, text.len() as int);
            if expression.len() == 0 || first_tab(expression) is Some {
                Err(RowError::InvalidExpression { row })
            } else {
                match parse_id(text.subrange(0, tab)) {
                    None => Err(RowError::InvalidId { row }),
                    Some(id) => if id == 0 {
                        Err(RowError::ZeroId { row })
                    } else {
                        Ok((id, expression))
                    },
                }
            }
        },
    }
}

/// The parsed first `k` rows, or the first refusal among them.
pub open spec fn parse_rows(rows: Seq<Seq<u8>>, k: nat) -> Result<Seq<(u32, Seq<u8>)>, RowError>
    decreases k,
{
    if k == 0 {
        Ok(seq![])
    } else {
        match parse_rows(rows, (k - 1) as nat) {
            Err(error) => Err(error),
            Ok(before) => match parse_row(rows[k - 1], k as usize) {
                Err(error) => Err(error),
                Ok((id, expression)) => if before.map_values(|p: (u32, Seq<u8>)| p.0).contains(id) {
                    Err(RowError::DuplicateId { id })
                } else {
                    Ok(before.push((id, expression)))
                },
            },
        }
    }
}

/// The outcome of reading a pattern file.
pub open spec fn pattern_file_spec(bytes: Seq<u8>, require_ascii: bool) -> Result<Seq<(u32, Seq<u8>)>, RowError> {
    if require_ascii && !ascii_bytes(bytes) {
        Err(RowError::PatternsNotAscii)
    } else if !utf8_valid(bytes) {
        Err(RowError::PatternsNotUtf8)
    } else {
        let rows = rows_from(bytes, 0);
        match parse_rows(rows, rows.len()) {
            Err(error) => Err(error),
            Ok(parsed) => if parsed.len() == 0 {
                Err(RowError::NoRows)
            } else {
                Ok(parsed)
            },
        }
    }
}

/// The (ID, expression) pairs of parsed rows.
pub open spec fn row_views(patterns: Seq<HarnessPattern>) -> Seq<(u32, Seq<u8>)> {
    patterns.map_values(|p: HarnessPattern| (p.id@, p.expression@))
}

pub proof fn lemma_line_end_bounds(bytes: Seq<u8>, from: int)
    requires
        0 <= from,
    ensures
        from <= line_end(bytes, from) || from >= bytes.len(),
        line_end(bytes, from) <= bytes.len(),
        forall|i: int| from <= i < line_end(bytes, from) ==> #[trigger] bytes[i] != 0x0a,
        line_end(bytes, from) < bytes.len() ==> bytes[line_end(bytes, from)] == 0x0a,
    decreases bytes.len() - from,
{
    if from < bytes.len() && bytes[from] != 0x0a {
        lemma_line_end_bounds(bytes, from + 1);
    }
}

fn find_line_end(bytes: &[u8], from: usize) -> (end: usize)
    requires
        from <= bytes@.len(),
    ensures
        end == line_end(bytes@, from as int),
{
    let mut i = from;
    while i < bytes.len() && bytes[i] != 0x0a
        invariant
            from <= i <= bytes@.len(),
            line_end(bytes@, from as int) == line_end(bytes@, i as int),
        decreases bytes@.len() - i,
    {
        i = i + 1;
    }
    i
}

fn find_tab(text: &[u8]) -> (tab: Option<usize>)
    ensures
        match tab {
            Some(i) => first_tab(text@) == Some(i as int) && i < text@.len(),
            None => first_tab(text@) is None,
        },
{
    let mut i: usize = 0;
    while i < text.len()
        invariant
            i <= text@.len(),
            first_tab(text@.take(i as int)) is None,
        decreases text@.len() - i,
    {
        proof {
            assert(text@.take(i + 1).drop_last() =~= text@.take(i as int));
        }
        if text[i] == 0x09 {
            proof {
                lemma_first_tab_prefix(text@, i as int);
            }
            return Some(i);
        }
        i = i + 1;
    }
    proof {
        assert(text@.take(i as int) =~= text@);
    }
    None
}

proof fn lemma_first_tab_prefix(text: Seq<u8>, i: int)
    requires
        0 <= i < text.len(),
        text[i] == 0x09,
        first_tab(text.take(i)) is None,
    ensures
        first_tab(text) == Some(i),
    decreases text.len(),
{
    if i < text.len() - 1 {
        assert(text.drop_last().take(i) =~= text.take(i));
        lemma_first_tab_prefix(text.drop_last(), i);
    } else {
        assert(text.drop_last() =~= text.take(i));
    }
}

/// Parses the ID text of a row.
fn parse_id_bytes(text: &[u8]) -> (id: Option<u32>)
    ensures
        id == parse_id(text@),
{
    let start: usize = if text.len() > 0 && text[0] == 0x2b {
        1
    } else {
        0
    };
    let ghost digits = text@.subrange(start as int, text@.len() as int);
    proof {
        if start == 1 {
            assert(digits =~= text@.drop_first());
        } else {
            assert(digits =~= text@);
        }
    }
    if start >= text.len() {
        return None;
    }
    let mut value: u64 = 0;
    let mut i: usize = start;
    while i < text.len()
        invariant
            start <= i <= text@.len(),
            digits == text@.subrange(start as int, text@.len() as int),
            digits == (if text@.len() > 0 && text@[0] == 0x2b {
                text@.drop_first()
            } else {
                text@
            }),
            digits.len() > 0,
            all_digits(text@.subrange(start as int, i as int)),
            value == decimal_value(text@.subrange(start as int, i as int)),
            value <= u32::MAX,
        decreases text@.len() - i,
    {
        let byte = text[i];
        proof {
            assert(text@.subrange(start as int, i + 1).drop_last() =~= text@.subrange(start as int, i as int));
        }
        if byte < 0x30 || byte > 0x39 {
            proof {
                assert(digits[i - start] == byte);
                assert(!all_digits(digits));
                assert(parse_id(text@) is None);
            }
            return None;
        }
        let next = value * 10 + (byte - 0x30) as u64;
        if next > 0xffff_ffff {
            proof {
                let prefix = text@.subrange(start as int, i + 1);
                assert(prefix.last() == byte);
                assert(decimal_value(prefix) == next);
                assert(digits.take(i - start + 1) =~= prefix);
                lemma_decimal_monotone(digits, i - start + 1);
                assert(parse_id(text@) is None);
            }
            return None;
        }
        value = next;
        i = i + 1;
    }
    proof {
        assert(text@.subrange(start as int, i as int) =~= digits);
    }
    Some(value as u32)
}

/// A prefix of an all-digit string never has a larger value.
proof fn lemma_decimal_monotone(digits: Seq<u8>, k: int)
    requires
        0 <= k <= digits.len(),
        all_digits(digits.take(k)) ==> true,
    ensures
        all_digits(digits) ==> decimal_value(digits.take(k)) <= decimal_value(digits),
    decreases digits.len(),
{
    if all_digits(digits) && k < digits.len() {
        assert(digits.drop_last().take(k) =~= digits.take(k));
        assert(all_digits(digits.drop_last()));
        lemma_decimal_monotone(digits.drop_last(), k);
        assert(decimal_value(digits.drop_last()) >= 0) by {
            lemma_decimal_nonnegative(digits.drop_last());
        }
    } else if k == digits.len() {
        assert(digits.take(k) =~= digits);
    }
}

proof fn lemma_decimal_nonnegative(digits: Seq<u8>)
    requires
        all_digits(digits),
    ensures
        decimal_value(digits) >= 0,
    decreases digits.len(),
{
    if digits.len() > 0 {
        assert(all_digits(digits.drop_last()));
        lemma_decimal_nonnegative(digits.drop_last());
    }
}

/// Parsing the first `k` rows looks at those rows alone.
proof fn lemma_parse_rows_prefix(a: Seq<Seq<u8>>, b: Seq<Seq<u8>>, k: nat)
    requires
        k <= a.len(),
    ensures
        parse_rows(a + b, k) == parse_rows(a, k),
    decreases k,
{
    if k > 0 {
        lemma_parse_rows_prefix(a, b, (k - 1) as nat);
        assert((a + b)[k - 1] == a[k - 1]);
    }
}

/// The text of the row between `from` and `end`.
fn row_slice(bytes: &[u8], from: usize, end: usize) -> (text: &[u8])
    requires
        from <= end <= bytes@.len(),
    ensures
        text@ == row_text(bytes@, from as int, end as int),
{
    let ghost raw = bytes@.subrange(from as int, end as int);
    let mut stop = end;
    if stop > from && bytes[stop - 1] == 0x0d {
        stop = stop - 1;
    }
    proof {
        assert(bytes@.subrange(from as int, stop as int) =~= strip_return(raw));
    }
    if end < bytes.len() {
        let ghost once = bytes@.subrange(from as int, stop as int);
        if stop > from && bytes[stop - 1] == 0x0d {
            stop = stop - 1;
        }
        proof {
            assert(bytes@.subrange(from as int, stop as int) =~= strip_return(once));
        }
    }
    vstd::slice::slice_subrange(bytes, from, stop)
}

/// Parses one row, numbered `row`.
fn parse_row_bytes(text: &[u8], row: usize) -> (parsed: Result<(u32, Vec<u8>), RowError>)
    ensures
        match parse_row(text@, row) {
            Ok((id, expression)) => parsed matches Ok((i, e)) && i == id && e@ == expression,
            Err(error) => parsed == Err::<(u32, Vec<u8>), RowError>(error),
        },
{
    let tab = match find_tab(text) {
        Some(tab) => tab,
        None => return Err(RowError::MissingTab { row }),
    };
    let length = text.len();
    let expression = vstd::slice::slice_subrange(text, tab + 1, length);
    if expression.len() == 0 {
        return Err(RowError::InvalidExpression { row });
    }
    match find_tab(expression) {
        Some(_) => return Err(RowError::InvalidExpression { row }),
        None => {},
    }
    let id_text = vstd::slice::slice_subrange(text, 0, tab);
    let id = match parse_id_bytes(id_text) {
        Some(id) => id,
        None => return Err(RowError::InvalidId { row }),
    };
    if id == 0 {
        return Err(RowError::ZeroId { row });
    }
    Ok((id, vstd::slice::slice_to_vec(expression)))
}

/// Reads a pattern file: one row per pattern, as the module describes.
/// With `require_ascii`, a byte outside ASCII refuses the whole file.
pub fn parse_pattern_rows(bytes: &[u8], require_ascii: bool) -> (parsed: Result<Vec<HarnessPattern>, RowError>)
    ensures
        match pattern_file_spec(bytes@, require_ascii) {
            Ok(rows) => parsed matches Ok(patterns) && row_views(patterns@) == rows,
            Err(error) => parsed == Err::<Vec<HarnessPattern>, RowError>(error),
        },
{
    if require_ascii && !all_ascii(bytes) {
        return Err(RowError::PatternsNotAscii);
    }
    if !is_utf8(bytes) {
        return Err(RowError::PatternsNotUtf8);
    }
    let ghost all_rows = rows_from(bytes@, 0);
    let total = bytes.len();
    let mut patterns: Vec<HarnessPattern> = Vec::new();
    let mut ids: HashSet<u32> = HashSet::new();
    let mut done: usize = 0;
    let mut from: usize = 0;
    let ghost mut seen: Seq<Seq<u8>> = seq![];
    let mut finished = bytes.len() == 0;
    proof {
        assert(seen + rows_from(bytes@, 0) =~= all_rows);
        assert(row_views(patterns@) =~= Seq::<(u32, Seq<u8>)>::empty());
        assert(row_views(patterns@).map_values(|p: (u32, Seq<u8>)| p.0).to_set() =~= Set::<u32>::empty());
    }
    while !finished
        invariant
            all_rows == rows_from(bytes@, 0),
            total == bytes@.len(),
            !require_ascii || ascii_bytes(bytes@),
            utf8_valid(bytes@),
            from <= bytes@.len(),
            !finished ==> from < bytes@.len(),
            finished ==> rows_from(bytes@, from as int) == Seq::<Seq<u8>>::empty(),
            seen.len() == done,
            done <= from,
            all_rows == seen + rows_from(bytes@, from as int),
            parse_rows(seen, done as nat) == Ok::<Seq<(u32, Seq<u8>)>, RowError>(row_views(patterns@)),
            ids@ == row_views(patterns@).map_values(|p: (u32, Seq<u8>)| p.0).to_set(),
        decreases bytes@.len() - from, if finished { 0int } else { 1int },
    {
        let end = find_line_end(bytes, from);
        proof {
            lemma_line_end_bounds(bytes@, from as int);
        }
        let text = row_slice(bytes, from, end);
        let row = done + 1;
        let ghost before = patterns@;
        let ghost next_seen = seen.push(text@);
        proof {
            assert(rows_from(bytes@, from as int) =~= seq![text@] + rows_from(bytes@, end + 1));
            assert(next_seen + rows_from(bytes@, end + 1) =~= seen + rows_from(bytes@, from as int));
            assert(next_seen.drop_last() =~= seen);
            assert(next_seen[done as int] == text@);
            assert(next_seen =~= seen + seq![text@]);
            lemma_parse_rows_prefix(seen, seq![text@], done as nat);
        }
        let (id, expression) = match parse_row_bytes(text, row) {
            Ok(pair) => pair,
            Err(error) => {
                proof {
                    lemma_parse_rows_prefix(next_seen, rows_from(bytes@, end + 1), (done + 1) as nat);
                    lemma_parse_rows_stops(all_rows, (done + 1) as nat, all_rows.len());
                }
                return Err(error);
            },
        };
        let ghost known = row_views(patterns@).map_values(|p: (u32, Seq<u8>)| p.0);
        proof {
            assert(ids@.contains(id) == known.contains(id));
        }
        if ids.contains(&id) {
            proof {
                lemma_parse_rows_prefix(next_seen, rows_from(bytes@, end + 1), (done + 1) as nat);
                lemma_parse_rows_stops(all_rows, (done + 1) as nat, all_rows.len());
            }
            return Err(RowError::DuplicateId { id });
        }
        ids.insert(id);
        patterns.push(HarnessPattern { id: PatternId::new(id), expression });
        proof {
            assert(row_views(patterns@) =~= row_views(before).push((id, expression@)));
            assert(row_views(patterns@).map_values(|p: (u32, Seq<u8>)| p.0) =~= known.push(id));
            known.lemma_push_to_set_commute(id);
        }
        proof {
            seen = next_seen;
        }
        done = row;
        if end >= bytes.len() {
            finished = true;
            from = end;
            proof {
                assert(rows_from(bytes@, end + 1) =~= Seq::<Seq<u8>>::empty());
                assert(rows_from(bytes@, end as int) =~= Seq::<Seq<u8>>::empty());
            }
        } else {
            from = end + 1;
            if from >= bytes.len() {
                finished = true;
            }
        }
    }
    proof {
        assert(all_rows =~= seen);
    }
    if patterns.len() == 0 {
        return Err(RowError::NoRows);
    }
    Ok(patterns)
}

/// Once some row is refused, parsing more rows reports the same refusal.
proof fn lemma_parse_rows_stops(rows: Seq<Seq<u8>>, k: nat, n: nat)
    requires
        k <= n,
        parse_rows(rows, k) is Err,
    ensures
        parse_rows(rows, n) == parse_rows(rows, k),
    decreases n - k,
{
    if k < n {
        lemma_parse_rows_stops(rows, k, (n - 1) as nat);
    }
}

/// A pattern file and its ASCII corpus, read for a measurement run.
#[derive(Debug)]
pub struct HarnessFixture {
    pub patterns: Vec<HarnessPattern>,
    pub input: Utf16Text,
    pub corpus_bytes: usize,
}

/// The code units of ASCII bytes, one per byte.
pub open spec fn ascii_units(bytes: Seq<u8>) -> Seq<u16> {
    bytes.map_values(|b: u8| b as u16)
}

impl HarnessFixture {
    /// Reads an ASCII pattern file and an ASCII corpus; the corpus becomes
    /// one UTF-16 unit per byte.
    pub fn from_bytes(pattern_bytes: &[u8], corpus_bytes: &[u8]) -> (fixture: Result<HarnessFixture, RowError>)
        ensures
            !ascii_bytes(corpus_bytes@) ==> fixture == Err::<HarnessFixture, RowError>(RowError::CorpusNotAscii),
            ascii_bytes(corpus_bytes@) ==> match pattern_file_spec(pattern_bytes@, true) {
                Ok(rows) => fixture matches Ok(f) && row_views(f.patterns@) == rows && f.input@ == ascii_units(
                    corpus_bytes@,
                ) && f.corpus_bytes == corpus_bytes@.len(),
                Err(error) => fixture matches Err(e) && e == error,
            },
    {
        if !all_ascii(corpus_bytes) {
            return Err(RowError::CorpusNotAscii);
        }
        let patterns = match parse_pattern_rows(pattern_bytes, true) {
            Ok(patterns) => patterns,
            Err(error) => return Err(error),
        };
        let mut units: Vec<u16> = Vec::new();
        let mut i: usize = 0;
        while i < corpus_bytes.len()
            invariant
                i <= corpus_bytes@.len(),
                units@ == ascii_units(corpus_bytes@.take(i as int)),
            decreases corpus_bytes@.len() - i,
        {
            units.push(corpus_bytes[i] as u16);
            proof {
                assert(ascii_units(corpus_bytes@.take(i + 1)) =~= ascii_units(corpus_bytes@.take(i as int)).push(
                    corpus_bytes@[i as int] as u16,
                ));
            }
            i = i + 1;
        }
        proof {
            assert(corpus_bytes@.take(i as int) =~= corpus_bytes@);
        }
        Ok(HarnessFixture { patterns, input: Utf16Text::from_units(units), corpus_bytes: corpus_bytes.len() })
    }
}

/// One reported match, by pattern ID and span bounds.
#[derive(Clone, Copy, Debug, PartialEq, Eq, PartialOrd, Ord, Hash, Structural)]
pub struct Event {
    pub pattern_id: u32,
    pub start: u64,
    pub end: u64,
}

/// The FNV-1a offset basis.
pub const FNV_OFFSET: u64 = 0xcbf2_9ce4_8422_2325;
/// The FNV-1a prime.
pub const FNV_PRIME: u64 = 0x0000_0100_0000_01b3;

/// One FNV-1a step over a byte.
pub open spec fn fnv_byte(hash: u64, byte: u8) -> u64 {
    (hash ^ (byte as u64)).wrapping_mul(FNV_PRIME)
}

/// FNV-1a over `bytes`, from `hash`.
pub open spec fn fnv_bytes(hash: u64, bytes: Seq<u8>) -> u64
    decreases bytes.len(),
{
    if bytes.len() == 0 {
        hash
    } else {
        fnv_byte(fnv_bytes(hash, bytes.drop_last()), bytes.last())
    }
}

/// The little-endian bytes of the low `count` bytes of `value`.
pub open spec fn le_bytes(value: u64, count: nat) -> Seq<u8> {
    Seq::new(count, |k: int| ((value >> (8 * k) as u64) & 0xff) as u8)
}

/// The bytes an event is hashed over: its ID, start, and end, each little
/// endian.
pub open spec fn event_bytes(event: Event) -> Seq<u8> {
    le_bytes(event.pattern_id as u64, 4) + le_bytes(event.start, 8) + le_bytes(event.end, 8)
}

fn fnv_value(hash: u64, value: u64, count: usize) -> (result: u64)
    requires
        count <= 8,
    ensures
        result == fnv_bytes(hash, le_bytes(value, count as nat)),
{
    let mut result = hash;
    let mut k: usize = 0;
    while k < count
        invariant
            k <= count <= 8,
            result == fnv_bytes(hash, le_bytes(value, k as nat)),
        decreases count - k,
    {
        let shift = (8 * k) as u64;
        let byte = ((value >> shift) & 0xff) as u8;
        proof {
            assert(le_bytes(value, (k + 1) as nat).drop_last() =~= le_bytes(value, k as nat));
            assert(le_bytes(value, (k + 1) as nat).last() == byte);
        }
        result = (result ^ (byte as u64)).wrapping_mul(FNV_PRIME);
        k = k + 1;
    }
    result
}

proof fn lemma_fnv_concat(hash: u64, a: Seq<u8>, b: Seq<u8>)
    ensures
        fnv_bytes(hash, a + b) == fnv_bytes(fnv_bytes(hash, a), b),
    decreases b.len(),
{
    if b.len() == 0 {
        assert(a + b =~= a);
    } else {
        assert((a + b).drop_last() =~= a + b.drop_last());
        lemma_fnv_concat(hash, a, b.drop_last());
    }
}

/// FNV-1a of an event's little-endian ID, start, and end.
pub fn event_hash(event: &Event) -> (hash: u64)
    ensures
        hash == fnv_bytes(FNV_OFFSET, event_bytes(*event)),
{
    let id_hash = fnv_value(FNV_OFFSET, event.pattern_id as u64, 4);
    let start_hash = fnv_value(id_hash, event.start, 8);
    let end_hash = fnv_value(start_hash, event.end, 8);
    proof {
        let id_bytes = le_bytes(event.pattern_id as u64, 4);
        let start_bytes = le_bytes(event.start, 8);
        let end_bytes = le_bytes(event.end, 8);
        lemma_fnv_concat(FNV_OFFSET, id_bytes, start_bytes);
        lemma_fnv_concat(FNV_OFFSET, id_bytes + start_bytes, end_bytes);
    }
    end_hash
}

/// `value` rotated left by `amount` bits, `amount < 64`.
pub open spec fn rotate_left_spec(value: u64, amount: u32) -> u64 {
    if amount == 0 {
        value
    } else {
        (value << amount) | (value >> (64 - amount) as u32)
    }
}

fn rotate_left(value: u64, amount: u32) -> (rotated: u64)
    requires
        amount < 64,
    ensures
        rotated == rotate_left_spec(value, amount),
{
    if amount == 0 {
        value
    } else {
        (value << amount) | (value >> (64 - amount))
    }
}

/// An order-independent summary of a multiset of events.
#[derive(Clone, Copy, Debug, Default, PartialEq, Eq, Structural)]
pub struct EventSummary {
    pub count: usize,
    pub sum: u64,
    pub xor: u64,
    pub sum_of_squares: u64,
}

/// The summary after adding `event`.
pub open spec fn summary_add(summary: EventSummary, event: Event) -> EventSummary {
    let hash = fnv_bytes(FNV_OFFSET, event_bytes(event));
    EventSummary {
        count: (summary.count + 1) as usize,
        sum: summary.sum.wrapping_add(hash),
        xor: summary.xor ^ rotate_left_spec(hash, event.pattern_id % 64),
        sum_of_squares: summary.sum_of_squares.wrapping_add(hash.wrapping_mul(hash)),
    }
}

/// The summary of `events`, added in order to an empty one.
pub open spec fn summary_of(events: Seq<Event>) -> EventSummary
    decreases events.len(),
{
    if events.len() == 0 {
        EventSummary { count: 0, sum: 0, xor: 0, sum_of_squares: 0 }
    } else {
        summary_add(summary_of(events.drop_last()), events.last())
    }
}

proof fn lemma_wrapping_add_swap(total: u64, a: u64, b: u64)
    ensures
        total.wrapping_add(a).wrapping_add(b) == total.wrapping_add(b).wrapping_add(a),
{
}

proof fn lemma_xor_swap(total: u64, a: u64, b: u64)
    ensures
        (total ^ a) ^ b == (total ^ b) ^ a,
{
    assert((total ^ a) ^ b == (total ^ b) ^ a) by (bit_vector);
}

/// Adding two events to a summary in either order gives the same summary.
pub proof fn lemma_summary_add_commutes(summary: EventSummary, a: Event, b: Event)
    ensures
        summary_add(summary_add(summary, a), b) == summary_add(summary_add(summary, b), a),
{
    let ha = fnv_bytes(FNV_OFFSET, event_bytes(a));
    let hb = fnv_bytes(FNV_OFFSET, event_bytes(b));
    lemma_wrapping_add_swap(summary.sum, ha, hb);
    lemma_wrapping_add_swap(summary.sum_of_squares, ha.wrapping_mul(ha), hb.wrapping_mul(hb));
    lemma_xor_swap(summary.xor, rotate_left_spec(ha, a.pattern_id % 64), rotate_left_spec(hb, b.pattern_id % 64));
}

proof fn lemma_summary_remove(events: Seq<Event>, j: int)
    requires
        0 <= j < events.len(),
    ensures
        summary_of(events) == summary_add(summary_of(events.remove(j)), events[j]),
    decreases events.len(),
{
    let last = (events.len() - 1) as int;
    if j == last {
        assert(events.remove(j) =~= events.drop_last());
    } else {
        let rest = events.drop_last();
        lemma_summary_remove(rest, j);
        assert(events.remove(j).drop_last() =~= rest.remove(j));
        assert(events.remove(j).last() == events.last());
        lemma_summary_add_commutes(summary_of(rest.remove(j)), events[j], events.last());
    }
}

/// The summary of a sequence of events depends only on the multiset of its
/// events: two sequences that are permutations of one another summarize
/// alike.
pub proof fn lemma_summary_order_independent(a: Seq<Event>, b: Seq<Event>)
    requires
        a.to_multiset() == b.to_multiset(),
    ensures
        summary_of(a) == summary_of(b),
    decreases a.len(),
{
    broadcast use vstd::seq_lib::group_to_multiset_ensures;

    if a.len() == 0 {
        assert(a.to_multiset().len() == 0);
        assert(b.to_multiset().len() == 0);
        assert(b.len() == 0);
        assert(b =~= a);
    } else {
        let x = a.last();
        assert(a.contains(x)) by {
            assert(a[a.len() - 1] == x);
        }
        assert(b.to_multiset().count(x) > 0);
        assert(b.contains(x));
        let j = choose|j: int| 0 <= j < b.len() && b[j] == x;
        let rest = a.drop_last();
        assert(a =~= rest.push(x));
        assert(rest.to_multiset() =~= b.remove(j).to_multiset()) by {
            assert(a.remove(a.len() - 1) =~= rest);
        }
        lemma_summary_order_independent(rest, b.remove(j));
        lemma_summary_remove(b, j);
    }
}

impl EventSummary {
    /// Adds one event.
    pub fn add(&mut self, event: &Event)
        requires
            old(self).count < usize::MAX,
        ensures
            *final(self) == summary_add(*old(self), *event),
    {
        let hash = event_hash(event);
        self.count = self.count + 1;
        self.sum = self.sum.wrapping_add(hash);
        self.xor = self.xor ^ rotate_left(hash, event.pattern_id % 64);
        self.sum_of_squares = self.sum_of_squares.wrapping_add(hash.wrapping_mul(hash));
    }
}

/// The summary of `events`.
pub fn event_summary(events: &[Event]) -> (summary: EventSummary)
    ensures
        summary == summary_of(events@),
{
    let mut summary = EventSummary { count: 0, sum: 0, xor: 0, sum_of_squares: 0 };
    let mut i: usize = 0;
    let total = events.len();
    while i < total
        invariant
            total == events@.len(),
            i <= total,
            summary == summary_of(events@.take(i as int)),
            summary.count == i,
        decreases total - i,
    {
        proof {
            assert(events@.take(i + 1).drop_last() =~= events@.take(i as int));
        }
        summary.add(&events[i]);
        i = i + 1;
    }
    proof {
        assert(events@.take(i as int) =~= events@);
    }
    summary
}

/// Whether `s` is in ascending order.
pub open spec fn ascending(s: Seq<u128>) -> bool {
    forall|i: int, j: int| 0 <= i <= j < s.len() ==> s[i] <= s[j]
}

/// The middle of the timing samples: the sample at index `len / 2` once
/// they are sorted ascending (the upper middle for an even count).
pub fn median(samples: &[u128]) -> (middle: u128)
    requires
        samples@.len() > 0,
    ensures
        exists|sorted: Seq<u128>|
            #![trigger sorted.to_multiset()]
            sorted.to_multiset() == samples@.to_multiset() && ascending(sorted) && middle == sorted[samples@.len() as int
                / 2],
{
    broadcast use vstd::seq_lib::group_to_multiset_ensures;
    let mut sorted: Vec<u128> = Vec::new();
    let mut i: usize = 0;
    while i < samples.len()
        invariant
            i <= samples@.len(),
            ascending(sorted@),
            sorted@.to_multiset() == samples@.take(i as int).to_multiset(),
        decreases samples@.len() - i,
    {
        let x = samples[i];
        let mut pos: usize = 0;
        while pos < sorted.len() && sorted[pos] <= x
            invariant
                pos <= sorted@.len(),
                forall|k: int| 0 <= k < pos ==> sorted@[k] <= x,
            decreases sorted@.len() - pos,
        {
            pos = pos + 1;
        }
        let ghost before = sorted@;
        sorted.insert(pos, x);
        proof {
            assert(sorted@ == before.insert(pos as int, x));
            assert forall|a: int, b: int| 0 <= a <= b < sorted@.len() implies sorted@[a] <= sorted@[b] by {
                if a < pos && b < pos {
                } else if a < pos && b == pos {
                } else if a < pos {
                    assert(sorted@[b] == before[b - 1]);
                } else if a == pos && b > pos {
                    assert(sorted@[b] == before[b - 1]);
                    assert(before[pos as int] > x);
                    assert(before[pos as int] <= before[b - 1]);
                } else if a > pos {
                    assert(sorted@[a] == before[a - 1]);
                    assert(sorted@[b] == before[b - 1]);
                }
            }
            assert(samples@.take(i + 1) =~= samples@.take(i as int).push(x));
            vstd::seq_lib::to_multiset_insert(before, pos as int, x);
            vstd::seq_lib::to_multiset_build(samples@.take(i as int), x);
        }
        i = i + 1;
    }
    proof {
        assert(samples@.take(i as int) =~= samples@);
        vstd::seq_lib::to_multiset_len(sorted@);
        vstd::seq_lib::to_multiset_len(samples@);
    }
    sorted[samples.len() / 2]
}

} // verus!
