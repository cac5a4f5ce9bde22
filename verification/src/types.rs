//! Public domain values used at the crate boundary.
use vstd::prelude::*;

verus! {

/// Stable caller-provided identity for one registered pattern.
///
/// Pattern IDs are returned with matches and are independent of pattern text.
/// The same text may be registered under different IDs in one matcher.
#[derive(Clone, Copy, Debug, PartialEq, Eq, Hash, PartialOrd, Ord, Structural)]
pub struct PatternId(u32);

impl View for PatternId {
    type V = u32;

    closed spec fn view(&self) -> u32 {
        self.0
    }
}

impl PatternId {
    /// Creates an ID from its application-defined numeric value.
    pub fn new(value: u32) -> (id: Self)
        ensures
            id@ == value,
    {
        PatternId(value)
    }

    /// Returns the application-defined numeric value.
    pub fn get(self) -> (value: u32)
        ensures
            value == self@,
    {
        self.0
    }

    /// Two IDs are the same value exactly when their numbers agree.
    pub proof fn lemma_view_injective(a: Self, b: Self)
        ensures
            (a@ == b@) == (a == b),
    {
    }
}

/// Zero-based, half-open positions measured in UTF-16 code units.
///
/// A span contains `start` and excludes `end`, so its length is `end - start`.
/// The engine only constructs spans for which `start <= end`.
#[derive(Clone, Copy, Debug, PartialEq, Eq, Hash, Structural)]
pub struct Utf16Span {
    start: u64,
    end: u64,
}

impl View for Utf16Span {
    type V = (u64, u64);

    closed spec fn view(&self) -> (u64, u64) {
        (self.start, self.end)
    }
}

impl Utf16Span {
    /// The span's bounds are ordered.
    pub closed spec fn well_formed(self) -> bool {
        self.start <= self.end
    }

    /// Builds the span `[start, end)`.
    pub fn from_bounds(start: u64, end: u64) -> (span: Self)
        requires
            start <= end,
        ensures
            span@ == (start, end),
            span.well_formed(),
    {
        Utf16Span { start, end }
    }

    /// Returns the included start position in UTF-16 code units.
    pub fn start(self) -> (start: u64)
        ensures
            start == self@.0,
    {
        self.start
    }

    /// Returns the excluded end position in UTF-16 code units.
    pub fn end(self) -> (end: u64)
        ensures
            end == self@.1,
    {
        self.end
    }

    /// Returns the span length in UTF-16 code units.
    pub fn len(self) -> (length: u64)
        requires
            self.well_formed(),
        ensures
            length == self@.1 - self@.0,
    {
        self.end - self.start
    }

    /// Returns whether the span consumes no code units.
    pub fn is_empty(self) -> (empty: bool)
        ensures
            empty == (self@.0 == self@.1),
    {
        self.start == self.end
    }

    /// A well-formed span has ordered bounds, as its view shows.
    pub proof fn lemma_well_formed(self)
        ensures
            self.well_formed() == (self@.0 <= self@.1),
    {
    }
}

/// One reported pattern match.
///
/// A match is identified by its caller-provided pattern ID and its half-open
/// UTF-16 span.
#[derive(Clone, Copy, Debug, PartialEq, Eq, Hash, Structural)]
pub struct Match {
    pattern_id: PatternId,
    span: Utf16Span,
}

impl View for Match {
    type V = (u32, u64, u64);

    closed spec fn view(&self) -> (u32, u64, u64) {
        (self.pattern_id@, self.span@.0, self.span@.1)
    }
}

impl Match {
    /// Builds a match from its identity and span.
    pub fn new(pattern_id: PatternId, span: Utf16Span) -> (matched: Self)
        ensures
            matched@ == (pattern_id@, span@.0, span@.1),
            matched.pattern_id_spec() == pattern_id,
            matched.span_spec() == span,
    {
        Match { pattern_id, span }
    }

    /// The identity carried by this match.
    pub closed spec fn pattern_id_spec(self) -> PatternId {
        self.pattern_id
    }

    /// The span carried by this match.
    pub closed spec fn span_spec(self) -> Utf16Span {
        self.span
    }

    /// Returns the identity supplied when the pattern was registered.
    pub fn pattern_id(self) -> (id: PatternId)
        ensures
            id == self.pattern_id_spec(),
            id@ == self@.0,
    {
        self.pattern_id
    }

    /// Returns the zero-based, half-open UTF-16 match span.
    pub fn span(self) -> (span: Utf16Span)
        ensures
            span == self.span_spec(),
            span@ == (self@.1, self@.2),
    {
        self.span
    }
}

/// Finite text materialized as owned UTF-16 code units.
///
/// Inputs cover exact UTF-16 code units, including isolated surrogates.
#[derive(Clone, Debug, PartialEq, Eq)]
pub struct Utf16Text {
    units: Vec<u16>,
}

impl Default for Utf16Text {
    /// The empty text.
    fn default() -> (text: Self)
        ensures
            text@.len() == 0,
    {
        Utf16Text { units: Vec::new() }
    }
}

impl View for Utf16Text {
    type V = Seq<u16>;

    closed spec fn view(&self) -> Seq<u16> {
        self.units@
    }
}

/// The UTF-16 encoding of one Unicode scalar value.
pub open spec fn utf16_of_char(c: char) -> Seq<u16> {
    let value = c as u32;
    if value < 0x10000 {
        seq![value as u16]
    } else {
        let offset = (value - 0x10000) as u32;
        seq![(0xd800 + offset / 0x400) as u16, (0xdc00 + offset % 0x400) as u16]
    }
}

/// The UTF-16 encoding of a character sequence.
pub open spec fn utf16_of_chars(chars: Seq<char>) -> Seq<u16>
    decreases chars.len(),
{
    if chars.len() == 0 {
        Seq::empty()
    } else {
        utf16_of_chars(chars.drop_last()) + utf16_of_char(chars.last())
    }
}

/// Each character takes at least one code unit, so only empty text
/// encodes to nothing.
pub proof fn lemma_utf16_len(chars: Seq<char>)
    ensures
        utf16_of_chars(chars).len() >= chars.len(),
    decreases chars.len(),
{
    if chars.len() > 0 {
        lemma_utf16_len(chars.drop_last());
    }
}

/// Encodes text as UTF-16 code units.
pub fn encode_utf16(text: &str) -> (units: Vec<u16>)
    ensures
        units@ == utf16_of_chars(text@),
{
    let length = text.unicode_len();
    let mut units: Vec<u16> = Vec::new();
    let mut index: usize = 0;
    while index < length
        invariant
            length == text@.len(),
            index <= length,
            units@ == utf16_of_chars(text@.subrange(0, index as int)),
        decreases length - index,
    {
        let c = text.get_char(index);
        let value = c as u32;
        if value < 0x10000 {
            units.push(value as u16);
        } else {
            let offset = value - 0x10000;
            units.push((0xd800 + offset / 0x400) as u16);
            units.push((0xdc00 + offset % 0x400) as u16);
        }
        proof {
            let next = text@.subrange(0, index + 1);
            assert(next.drop_last() =~= text@.subrange(0, index as int));
            assert(next.last() == c);
        }
        index = index + 1;
    }
    proof {
        assert(text@.subrange(0, length as int) =~= text@);
    }
    units
}

impl Utf16Text {
    /// Wraps already-encoded UTF-16 code units without validation.
    pub fn from_units(units: Vec<u16>) -> (text: Self)
        ensures
            text@ == units@,
    {
        Utf16Text { units }
    }

    /// Encodes a string slice once, before scanning.
    pub fn from_str(text: &str) -> (encoded: Self)
        ensures
            encoded@ == utf16_of_chars(text@),
            encoded@.len() == 0 <==> text@.len() == 0,
    {
        proof {
            lemma_utf16_len(text@);
        }
        Utf16Text { units: encode_utf16(text) }
    }

    /// Returns the exact UTF-16 code units.
    pub fn as_units(&self) -> (units: &[u16])
        ensures
            units@ == self@,
    {
        self.units.as_slice()
    }

    /// Returns the number of UTF-16 code units.
    pub fn len(&self) -> (length: usize)
        ensures
            length == self@.len(),
    {
        self.units.len()
    }

    /// Returns whether the input contains no UTF-16 code units.
    pub fn is_empty(&self) -> (empty: bool)
        ensures
            empty == (self@.len() == 0),
    {
        self.units.len() == 0
    }
}

impl<'a> From<&'a str> for Utf16Text {
    fn from(text: &'a str) -> (encoded: Self)
        ensures
            encoded@ == utf16_of_chars(text@),
            encoded@.len() == 0 <==> text@.len() == 0,
    {
        Utf16Text::from_str(text)
    }
}

impl From<String> for Utf16Text {
    fn from(text: String) -> (encoded: Self)
        ensures
            encoded@ == utf16_of_chars(text@),
            encoded@.len() == 0 <==> text@.len() == 0,
    {
        Utf16Text::from_str(text.as_str())
    }
}

impl<'a> vstd::std_specs::convert::FromSpecImpl<&'a str> for Utf16Text {
    open spec fn obeys_from_spec() -> bool {
        false
    }

    open spec fn from_spec(v: &'a str) -> Self {
        arbitrary()
    }
}

impl vstd::std_specs::convert::FromSpecImpl<String> for Utf16Text {
    open spec fn obeys_from_spec() -> bool {
        false
    }

    open spec fn from_spec(v: String) -> Self {
        arbitrary()
    }
}

/// Compile-time options applied to one registered pattern.
#[derive(Clone, Copy, Debug, PartialEq, Eq, Hash, Default, Structural)]
pub struct PatternFlags {
    case_insensitive: bool,
}

impl PatternFlags {
    /// No options: exact code-unit matching.
    pub fn none() -> (flags: Self)
        ensures
            !flags.is_case_insensitive_spec(),
    {
        PatternFlags { case_insensitive: false }
    }

    /// Java-compatible single-unit case-insensitive matching, like `(?i)`.
    pub fn case_insensitive() -> (flags: Self)
        ensures
            flags.is_case_insensitive_spec(),
    {
        PatternFlags { case_insensitive: true }
    }

    /// Whether case-insensitive matching was requested.
    pub closed spec fn is_case_insensitive_spec(self) -> bool {
        self.case_insensitive
    }

    /// Returns whether case-insensitive matching was requested.
    pub fn is_case_insensitive(self) -> (enabled: bool)
        ensures
            enabled == self.is_case_insensitive_spec(),
    {
        self.case_insensitive
    }
}

} // verus!
