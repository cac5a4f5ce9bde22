//! The adversarial parity cases: fixed pattern sets and inputs on which an
//! ordinary matcher and a cohort-compiled one must report the same events.
use vstd::prelude::*;
use vstd::string::StringExecFns;

use crate::types::{encode_utf16, utf16_of_chars, PatternFlags};

verus! {

/// One pattern of a parity case.
pub struct PatternSpec {
    pub id: u32,
    pub source: String,
    pub flags: PatternFlags,
}

impl View for PatternSpec {
    /// Identity, source text, and whether case folding was requested.
    type V = (u32, Seq<char>, bool);

    open spec fn view(&self) -> (u32, Seq<char>, bool) {
        (self.id, self.source@, self.flags.is_case_insensitive_spec())
    }
}

/// A named pattern set with the UTF-16 input it is scanned on.
pub struct ParityCase {
    pub id: String,
    pub patterns: Vec<PatternSpec>,
    pub input: Vec<u16>,
}

impl View for ParityCase {
    type V = (Seq<char>, Seq<(u32, Seq<char>, bool)>, Seq<u16>);

    open spec fn view(&self) -> (Seq<char>, Seq<(u32, Seq<char>, bool)>, Seq<u16>) {
        (self.id@, self.patterns@.map_values(|p: PatternSpec| p@), self.input@)
    }
}

fn pattern(id: u32, source: &str) -> (spec: PatternSpec)
    ensures
        spec@ == (id, source@, false),
{
    PatternSpec { id, source: String::from_str(source), flags: PatternFlags::none() }
}

fn flagged_pattern(id: u32, source: &str) -> (spec: PatternSpec)
    ensures
        spec@ == (id, source@, true),
{
    PatternSpec { id, source: String::from_str(source), flags: PatternFlags::case_insensitive() }
}

fn case(id: &str, patterns: Vec<PatternSpec>, input: &str) -> (case: ParityCase)
    ensures
        case@ == (id@, patterns@.map_values(|p: PatternSpec| p@), utf16_of_chars(input@)),
{
    ParityCase { id: String::from_str(id), patterns, input: encode_utf16(input) }
}


/// Plain values of one pattern without case folding.
pub open spec fn plain(id: u32, source: Seq<char>) -> (u32, Seq<char>, bool) {
    (id, source, false)
}

/// The decimal digit `d` as a character.
pub open spec fn digit_char(d: int) -> char {
    ((0x30 + d) as u32) as char
}

/// The source of generated pattern `index`: `token` and two digits, anchored
/// at a line start for odd indexes.
pub open spec fn token_source(index: int) -> Seq<char> {
    (if index % 2 == 0 {
        Seq::<char>::empty()
    } else {
        seq!['^']
    }) + "token"@ + seq![digit_char(index / 10), digit_char(index % 10)]
}

/// The large pattern set: sixty-four generated token patterns, then a
/// literal and a word-bounded needle.
pub open spec fn large_patterns() -> Seq<(u32, Seq<char>, bool)> {
    Seq::new(64, |i: int| plain((2000 + i) as u32, token_source(i))) + seq![
        plain(2100u32, "needle"@),
        plain(2101u32, "\\bneedle\\b"@),
    ]
}

/// `base` with `text` written over it from `at` on.
pub open spec fn overlay(base: Seq<u16>, at: int, text: Seq<u16>) -> Seq<u16> {
    Seq::new(base.len(), |i: int| if at <= i < at + text.len() { text[i - at] } else { base[i] })
}

/// The large sparse input: a run of `x` with a header line, a needle line,
/// and a tail line written into it.
pub open spec fn large_sparse_input() -> Seq<u16> {
    overlay(
        overlay(
            overlay(Seq::new(65536, |i: int| 0x78u16), 0, utf16_of_chars("header\n"@)),
            16384,
            utf16_of_chars("alpha123 needle\n"@),
        ),
        65531,
        utf16_of_chars("tail\n"@),
    )
}

/// Every parity case as plain values, in order.
pub open spec fn adversarial_table() -> Seq<(Seq<char>, Seq<(u32, Seq<char>, bool)>, Seq<u16>)> {
    seq![
        (
            "adversarial/mixed-overlap-duplicates"@,
            seq![
                plain(10u32, "a"@),
                plain(20u32, "^a"@),
                plain(30u32, "aa"@),
                plain(40u32, "a$"@),
                plain(50u32, "\\ba+\\b"@),
                plain(60u32, "a"@),
                plain(70u32, "(?:a|aa)+"@),
                plain(80u32, "\\Ba\\B"@),
            ],
            utf16_of_chars("aa a\nbaaa\n"@),
        ),
        (
            "adversarial/empty-input"@,
            seq![plain(100u32, "a+"@), plain(101u32, "^a"@), plain(102u32, "a$"@), plain(103u32, "\\ba"@)],
            utf16_of_chars(""@),
        ),
        (
            "adversarial/one-unit-raw-surrogate"@,
            seq![plain(110u32, "."@), plain(111u32, "[^a]"@), plain(112u32, "^.$"@), plain(113u32, "\\B.\\B"@)],
            seq![0xd800u16],
        ),
        (
            "adversarial/no-match"@,
            seq![
                plain(120u32, "needle"@),
                plain(121u32, "[0-9]+"@),
                plain(122u32, "^needle$"@),
                plain(123u32, "\\bneedle\\b"@),
            ],
            utf16_of_chars("haystack only"@),
        ),
        (
            "adversarial/output-heavy"@,
            seq![
                plain(130u32, "a"@),
                plain(131u32, "aa"@),
                plain(132u32, "a+"@),
                plain(133u32, "a{2,8}"@),
                plain(134u32, "^a+"@),
                plain(135u32, "a+$"@),
                plain(136u32, "\\ba+\\b"@),
                plain(137u32, "a"@),
            ],
            Seq::new(64, |i: int| 0x61u16),
        ),
        (
            "adversarial/large-sparse"@,
            seq![
                plain(140u32, "alpha[0-9]+"@),
                plain(141u32, "needle"@),
                plain(142u32, "omega"@),
                plain(143u32, "^header$"@),
                plain(144u32, "tail$"@),
                plain(145u32, "\\bneedle\\b"@),
            ],
            large_sparse_input(),
        ),
        (
            "adversarial/unicode-and-surrogates"@,
            seq![
                plain(150u32, "snø"@),
                plain(151u32, "[α-γ]"@),
                plain(152u32, "."@),
                plain(153u32, "^snø"@),
                plain(154u32, "😀$"@),
                plain(155u32, "\\B.\\B"@),
            ],
            seq![0x0073u16, 0x006e, 0x00f8, 0x0020, 0x03b2, 0x0020, 0xd800, 0x0020, 0xd83d, 0xde00],
        ),
        (
            "adversarial/flags-and-lines"@,
            seq![
                (160u32, "cat"@, true),
                plain(161u32, "(?s)a.b"@),
                plain(162u32, "^line$"@),
                plain(163u32, "(?i)^cat$"@),
                plain(164u32, "\\bword\\b"@),
                plain(165u32, "[A-Z]+"@),
            ],
            utf16_of_chars("CAT\na\nb\nline\nword sword"@),
        ),
        (
            "adversarial/nullable-composition"@,
            seq![
                plain(170u32, "x(|a)y"@),
                plain(171u32, "a{0,2}b"@),
                plain(172u32, "(?:ab)+"@),
                plain(173u32, "^x(|a)y$"@),
                plain(174u32, "\\ba{0,2}b\\b"@),
            ],
            utf16_of_chars("xy xay aab abab\nxy"@),
        ),
        ("adversarial/large-pattern-set"@, large_patterns(), utf16_of_chars("token00 token17\nneedle"@)),
    ]
}

/// Characters below U+10000 take one code unit each.
proof fn lemma_single_unit_len(chars: Seq<char>)
    requires
        forall|i: int| 0 <= i < chars.len() ==> (#[trigger] chars[i] as u32) < 0x10000,
    ensures
        utf16_of_chars(chars).len() == chars.len(),
    decreases chars.len(),
{
    if chars.len() > 0 {
        assert forall|i: int| 0 <= i < chars.drop_last().len() implies (#[trigger] chars.drop_last()[i]
            as u32) < 0x10000 by {
            assert(chars.drop_last()[i] == chars[i]);
        }
        lemma_single_unit_len(chars.drop_last());
        assert((chars[chars.len() - 1] as u32) < 0x10000);
    }
}

/// Writes the UTF-16 units of `text` over `input` from `at` on.
fn place(input: &mut Vec<u16>, at: usize, text: &str)
    requires
        at + utf16_of_chars(text@).len() <= old(input)@.len(),
    ensures
        final(input)@ == overlay(old(input)@, at as int, utf16_of_chars(text@)),
{
    let units = encode_utf16(text);
    let ghost before = input@;
    let mut k: usize = 0;
    while k < units.len()
        invariant
            units@ == utf16_of_chars(text@),
            at + units@.len() <= before.len(),
            k <= units@.len(),
            input@.len() == before.len(),
            forall|i: int|
                0 <= i < before.len() ==> #[trigger] input@[i] == if at <= i < at + k {
                    units@[i - at]
                } else {
                    before[i]
                },
        decreases units@.len() - k,
    {
        assert(input@.len() == input.len());
        input.set(at + k, units[k]);
        k = k + 1;
    }
    assert(input@ =~= overlay(before, at as int, utf16_of_chars(text@)));
}

/// The decimal digit `d` as text.
pub(crate) fn digit(d: u32) -> (text: &'static str)
    requires
        d < 10,
    ensures
        text@ == seq![digit_char(d as int)],
{
    match d {
        0 => {
            proof { reveal_strlit("0"); }
            "0"
        },
        1 => {
            proof { reveal_strlit("1"); }
            "1"
        },
        2 => {
            proof { reveal_strlit("2"); }
            "2"
        },
        3 => {
            proof { reveal_strlit("3"); }
            "3"
        },
        4 => {
            proof { reveal_strlit("4"); }
            "4"
        },
        5 => {
            proof { reveal_strlit("5"); }
            "5"
        },
        6 => {
            proof { reveal_strlit("6"); }
            "6"
        },
        7 => {
            proof { reveal_strlit("7"); }
            "7"
        },
        8 => {
            proof { reveal_strlit("8"); }
            "8"
        },
        _ => {
            proof { reveal_strlit("9"); }
            "9"
        },
    }
}

/// The generated token patterns followed by the two needle patterns.
fn build_large_patterns() -> (patterns: Vec<PatternSpec>)
    ensures
        patterns@.map_values(|p: PatternSpec| p@) == large_patterns(),
{
    let mut patterns: Vec<PatternSpec> = Vec::new();
    let mut index: u32 = 0;
    while index < 64
        invariant
            index <= 64,
            patterns@.len() == index,
            forall|i: int| 0 <= i < index ==> #[trigger] patterns@[i]@ == plain((2000 + i) as u32, token_source(i)),
        decreases 64 - index,
    {
        let mut source = if index % 2 == 0 {
            String::from_str("token")
        } else {
            String::from_str("^token")
        };
        proof {
            reveal_strlit("token");
            reveal_strlit("^token");
            assert("^token"@ =~= seq!['^'] + "token"@);
            assert(Seq::<char>::empty() + "token"@ =~= "token"@);
        }
        source.append(digit(index / 10));
        source.append(digit(index % 10));
        proof {
            assert(source@ =~= token_source(index as int));
        }
        patterns.push(PatternSpec { id: 2000 + index, source, flags: PatternFlags::none() });
        index = index + 1;
    }
    patterns.push(pattern(2100, "needle"));
    patterns.push(pattern(2101, "\\bneedle\\b"));
    assert(patterns@.map_values(|p: PatternSpec| p@) =~= large_patterns());
    patterns
}


/// `count` copies of `unit`.
fn repeated_unit(unit: u16, count: usize) -> (units: Vec<u16>)
    ensures
        units@ == Seq::new(count as nat, |i: int| unit),
{
    let mut units: Vec<u16> = Vec::new();
    while units.len() < count
        invariant
            units@.len() <= count,
            units@ == Seq::new(units@.len(), |i: int| unit),
        decreases count - units@.len(),
    {
        units.push(unit);
    }
    units
}

/// The adversarial parity cases: overlapping duplicates, empty and
/// surrogate-only inputs, inputs without matches, output-heavy runs, a large
/// sparse input, non-BMP text, flags and line anchors, nullable pieces, and a
/// large pattern set.
pub fn adversarial_cases() -> (cases: Vec<ParityCase>)
    ensures
        cases@.map_values(|c: ParityCase| c@) == adversarial_table(),
{
    let mut large_input = repeated_unit(0x78, 65536);
    proof {
        reveal_strlit("header\n");
        reveal_strlit("alpha123 needle\n");
        reveal_strlit("tail\n");
        lemma_single_unit_len("header\n"@);
        lemma_single_unit_len("alpha123 needle\n"@);
        lemma_single_unit_len("tail\n"@);
    }
    place(&mut large_input, 0, "header\n");
    place(&mut large_input, 16384, "alpha123 needle\n");
    place(&mut large_input, 65531, "tail\n");
    let mut cases: Vec<ParityCase> = Vec::new();
    let mut patterns: Vec<PatternSpec> = Vec::new();
    patterns.push(pattern(10, "a"));
    patterns.push(pattern(20, "^a"));
    patterns.push(pattern(30, "aa"));
    patterns.push(pattern(40, "a$"));
    patterns.push(pattern(50, "\\ba+\\b"));
    patterns.push(pattern(60, "a"));
    patterns.push(pattern(70, "(?:a|aa)+"));
    patterns.push(pattern(80, "\\Ba\\B"));
    let built = case("adversarial/mixed-overlap-duplicates", patterns, "aa a\nbaaa\n");
    assert(built@ =~= adversarial_table()[0]);
    cases.push(built);
    let mut patterns: Vec<PatternSpec> = Vec::new();
    patterns.push(pattern(100, "a+"));
    patterns.push(pattern(101, "^a"));
    patterns.push(pattern(102, "a$"));
    patterns.push(pattern(103, "\\ba"));
    let built = case("adversarial/empty-input", patterns, "");
    assert(built@ =~= adversarial_table()[1]);
    cases.push(built);
    let mut patterns: Vec<PatternSpec> = Vec::new();
    patterns.push(pattern(110, "."));
    patterns.push(pattern(111, "[^a]"));
    patterns.push(pattern(112, "^.$"));
    patterns.push(pattern(113, "\\B.\\B"));
    let mut input: Vec<u16> = Vec::new();
    input.push(0xd800);
    let built = ParityCase { id: String::from_str("adversarial/one-unit-raw-surrogate"), patterns, input };
    assert(built@ =~= adversarial_table()[2]);
    cases.push(built);
    let mut patterns: Vec<PatternSpec> = Vec::new();
    patterns.push(pattern(120, "needle"));
    patterns.push(pattern(121, "[0-9]+"));
    patterns.push(pattern(122, "^needle$"));
    patterns.push(pattern(123, "\\bneedle\\b"));
    let built = case("adversarial/no-match", patterns, "haystack only");
    assert(built@ =~= adversarial_table()[3]);
    cases.push(built);
    let mut patterns: Vec<PatternSpec> = Vec::new();
    patterns.push(pattern(130, "a"));
    patterns.push(pattern(131, "aa"));
    patterns.push(pattern(132, "a+"));
    patterns.push(pattern(133, "a{2,8}"));
    patterns.push(pattern(134, "^a+"));
    patterns.push(pattern(135, "a+$"));
    patterns.push(pattern(136, "\\ba+\\b"));
    patterns.push(pattern(137, "a"));
    let input = repeated_unit(0x61, 64);
    let built = ParityCase { id: String::from_str("adversarial/output-heavy"), patterns, input };
    assert(built@ =~= adversarial_table()[4]);
    cases.push(built);
    let mut patterns: Vec<PatternSpec> = Vec::new();
    patterns.push(pattern(140, "alpha[0-9]+"));
    patterns.push(pattern(141, "needle"));
    patterns.push(pattern(142, "omega"));
    patterns.push(pattern(143, "^header$"));
    patterns.push(pattern(144, "tail$"));
    patterns.push(pattern(145, "\\bneedle\\b"));
    let input = large_input;
    let built = ParityCase { id: String::from_str("adversarial/large-sparse"), patterns, input };
    assert(built@ =~= adversarial_table()[5]);
    cases.push(built);
    let mut patterns: Vec<PatternSpec> = Vec::new();
    patterns.push(pattern(150, "snø"));
    patterns.push(pattern(151, "[α-γ]"));
    patterns.push(pattern(152, "."));
    patterns.push(pattern(153, "^snø"));
    patterns.push(pattern(154, "😀$"));
    patterns.push(pattern(155, "\\B.\\B"));
    let mut input: Vec<u16> = Vec::new();
    input.push(0x0073);
    input.push(0x006e);
    input.push(0x00f8);
    input.push(0x0020);
    input.push(0x03b2);
    input.push(0x0020);
    input.push(0xd800);
    input.push(0x0020);
    input.push(0xd83d);
    input.push(0xde00);
    let built = ParityCase { id: String::from_str("adversarial/unicode-and-surrogates"), patterns, input };
    assert(built@ =~= adversarial_table()[6]);
    cases.push(built);
    let mut patterns: Vec<PatternSpec> = Vec::new();
    patterns.push(flagged_pattern(160, "cat"));
    patterns.push(pattern(161, "(?s)a.b"));
    patterns.push(pattern(162, "^line$"));
    patterns.push(pattern(163, "(?i)^cat$"));
    patterns.push(pattern(164, "\\bword\\b"));
    patterns.push(pattern(165, "[A-Z]+"));
    let built = case("adversarial/flags-and-lines", patterns, "CAT\na\nb\nline\nword sword");
    assert(built@ =~= adversarial_table()[7]);
    cases.push(built);
    let mut patterns: Vec<PatternSpec> = Vec::new();
    patterns.push(pattern(170, "x(|a)y"));
    patterns.push(pattern(171, "a{0,2}b"));
    patterns.push(pattern(172, "(?:ab)+"));
    patterns.push(pattern(173, "^x(|a)y$"));
    patterns.push(pattern(174, "\\ba{0,2}b\\b"));
    let built = case("adversarial/nullable-composition", patterns, "xy xay aab abab\nxy");
    assert(built@ =~= adversarial_table()[8]);
    cases.push(built);
    let built = case("adversarial/large-pattern-set", build_large_patterns(), "token00 token17\nneedle");
    assert(built@ =~= adversarial_table()[9]);
    cases.push(built);
    assert(cases@.map_values(|c: ParityCase| c@) =~= adversarial_table());
    cases
}

} // verus!
