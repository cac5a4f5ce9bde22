//! The regex comparison lane: the events a `regex` set reports on a corpus,
//! in the shape this library reports its own, so that the two can be
//! compared.
use regex::{Error as RegexError, Regex, RegexSet};
use vstd::prelude::*;

use crate::harness::Event;
use vstd::string::StringSliceAdditionalSpecFns;

verus! {

#[verifier::external_type_specification]
#[verifier::external_body]
pub struct ExRegex(Regex);

#[verifier::external_type_specification]
#[verifier::external_body]
pub struct ExRegexSet(RegexSet);

#[verifier::external_type_specification]
#[verifier::external_body]
pub struct ExRegexError(RegexError);

/// Whether `regex` accepts `pattern` as a regular expression.
pub uninterp spec fn regex_compiles(pattern: Seq<char>) -> bool;

/// Whether `regex` accepts every pattern of `patterns` as one set.
pub uninterp spec fn regex_set_compiles(patterns: Seq<Seq<char>>) -> bool;

/// The byte span of the leftmost-first match of `pattern` in `text` that a
/// search from byte `start` finds.
pub uninterp spec fn regex_find_at(pattern: Seq<char>, text: Seq<char>, start: usize) -> Option<(usize, usize)>;

/// The indices of the patterns of a set that match `text`.
pub uninterp spec fn regex_set_matches(patterns: Seq<Seq<char>>, text: Seq<char>) -> Seq<usize>;

/// `Regex::new`: compiles `pattern`; whether it succeeds depends on the
/// pattern alone.
#[verifier::external_body]
fn compile_regex(pattern: &str) -> (compiled: Result<Regex, RegexError>)
    ensures
        compiled is Ok == regex_compiles(pattern@),
{
    Regex::new(pattern)
}

/// `RegexSet::new`: compiles every pattern as one set; whether it succeeds
/// depends on the patterns alone.
#[verifier::external_body]
fn compile_regex_set(patterns: &Vec<String>) -> (compiled: Result<RegexSet, RegexError>)
    ensures
        compiled is Ok == regex_set_compiles(patterns@.map_values(|p: String| p@)),
{
    RegexSet::new(patterns)
}

/// `regex::Error`'s message, through `Display`. Nothing is claimed of the
/// text.
#[verifier::external_body]
fn error_message(error: &RegexError) -> String {
    error.to_string()
}

/// `RegexSet::matches`, iterated: the indices of the set's patterns that
/// match `text`, a function of the patterns and the text; the crate
/// documents that the iteration yields them in ascending order.
#[verifier::external_body]
fn matching_indices(set: &CompiledRegexSet, text: &str) -> (indices: Vec<usize>)
    ensures
        indices@ == regex_set_matches(set@, text@),
        forall|i: int, j: int| 0 <= i < j < indices@.len() ==> indices@[i] < indices@[j],
{
    set.set.matches(text).into_iter().collect()
}

/// `Regex::find_at`: the match of the compiled pattern that the search of
/// `text` from byte `start` finds, as a byte span, a function of the
/// pattern, the text and the start. The crate searches `start..text.len()`
/// (it panics on a larger `start`), so a match lies within that range.
#[verifier::external_body]
fn find_at(regex: &CompiledRegex, text: &str, start: usize) -> (found: Option<(usize, usize)>)
    requires
        text.spec_bytes().len() <= usize::MAX,
        start <= text.spec_bytes().len(),
    ensures
        found == regex_find_at(regex@, text@, start),
        found matches Some(span) ==> start <= span.0 <= span.1 <= text.spec_bytes().len(),
{
    regex.regex.find_at(text, start).map(|matched| (matched.start(), matched.end()))
}

/// A regular expression compiled with `regex`, kept with its pattern text.
pub struct CompiledRegex {
    regex: Regex,
    pattern: String,
}

impl View for CompiledRegex {
    type V = Seq<char>;

    closed spec fn view(&self) -> Seq<char> {
        self.pattern@
    }
}

impl CompiledRegex {
    /// Compiles `pattern`, or returns `regex`'s message where it refuses it.
    pub fn new(pattern: &str) -> (compiled: Result<CompiledRegex, String>)
        ensures
            compiled is Ok == regex_compiles(pattern@),
            compiled matches Ok(r) ==> r@ == pattern@,
    {
        match compile_regex(pattern) {
            Ok(regex) => Ok(CompiledRegex { regex, pattern: pattern.to_owned() }),
            Err(error) => Err(error_message(&error)),
        }
    }
}

/// A set of regular expressions compiled with `regex`, kept with their
/// pattern texts.
pub struct CompiledRegexSet {
    set: RegexSet,
    patterns: Vec<String>,
}

impl View for CompiledRegexSet {
    type V = Seq<Seq<char>>;

    closed spec fn view(&self) -> Seq<Seq<char>> {
        self.patterns@.map_values(|p: String| p@)
    }
}

impl CompiledRegexSet {
    /// Compiles `patterns` as one set, or returns `regex`'s message where it
    /// refuses them.
    pub fn new(patterns: Vec<String>) -> (compiled: Result<CompiledRegexSet, String>)
        ensures
            compiled is Ok == regex_set_compiles(patterns@.map_values(|p: String| p@)),
            compiled matches Ok(s) ==> s@ == patterns@.map_values(|p: String| p@),
    {
        match compile_regex_set(&patterns) {
            Ok(set) => Ok(CompiledRegexSet { set, patterns }),
            Err(error) => Err(error_message(&error)),
        }
    }
}

/// The events of one pattern: the match found from byte `start`, then, while
/// it starts before the end of the text, the matches found from one byte
/// after the start of the one before.
pub open spec fn find_chain(pattern: Seq<char>, text: Seq<char>, id: u32, start: int, length: int) -> Seq<Event>
    decreases length + 1 - start,
{
    if start < 0 || start > length || start > usize::MAX {
        seq![]
    } else {
        match regex_find_at(pattern, text, start as usize) {
            None => seq![],
            Some(span) => {
                let event = Event { pattern_id: id, start: span.0 as u64, end: span.1 as u64 };
                if span.0 < start || span.0 >= length {
                    seq![event]
                } else {
                    seq![event] + find_chain(pattern, text, id, span.0 + 1, length)
                }
            },
        }
    }
}

/// The events of the patterns at `indices`, in that order; a pattern's
/// identity is its index plus one.
pub open spec fn set_events(indices: Seq<usize>, patterns: Seq<Seq<char>>, text: Seq<char>, length: int) -> Seq<
    Event,
>
    decreases indices.len(),
{
    if indices.len() == 0 {
        seq![]
    } else {
        set_events(indices.drop_last(), patterns, text, length) + find_chain(
            patterns[indices.last() as int],
            text,
            (indices.last() + 1) as u32,
            0,
            length,
        )
    }
}

/// Whether every reported index names one of `count` regexes and leaves
/// room for its identity in 32 bits.
pub open spec fn indices_usable(indices: Seq<usize>, count: int) -> bool {
    forall|i: int| 0 <= i < indices.len() ==> (#[trigger] indices[i]) < count && indices[i] < 0xffff_ffff
}

/// Every match of each regex whose index the set reports, in ascending
/// index order: each search starts one byte after the start of the match
/// before it, so overlapping matches are kept. Pattern identities are the
/// index plus one. A reported index without a regex, or too large for an
/// identity, is refused.
pub fn regex_events(regex_set: &CompiledRegexSet, regexes: &[CompiledRegex], corpus: &str) -> (result: Result<
    Vec<Event>,
    String,
>)
    requires
        corpus.spec_bytes().len() < usize::MAX,
    ensures
        result is Ok == indices_usable(regex_set_matches(regex_set@, corpus@), regexes@.len() as int),
        result matches Ok(events) ==> events@ == set_events(
            regex_set_matches(regex_set@, corpus@),
            regexes@.map_values(|r: CompiledRegex| r@),
            corpus@,
            corpus.spec_bytes().len() as int,
        ),
{
    let length = corpus.len();
    let indices = matching_indices(regex_set, corpus);
    let ghost patterns = regexes@.map_values(|r: CompiledRegex| r@);
    let mut events: Vec<Event> = Vec::new();
    let mut n: usize = 0;
    proof {
        assert(indices@.take(0) =~= Seq::<usize>::empty());
    }
    while n < indices.len()
        invariant
            length == corpus.spec_bytes().len(),
            length < usize::MAX,
            n <= indices@.len(),
            indices@ == regex_set_matches(regex_set@, corpus@),
            patterns == regexes@.map_values(|r: CompiledRegex| r@),
            indices_usable(indices@.take(n as int), regexes@.len() as int),
            events@ == set_events(indices@.take(n as int), patterns, corpus@, length as int),
        decreases indices@.len() - n,
    {
        let index = indices[n];
        if index >= 0xffff_ffff {
            proof {
                assert(indices@[n as int] == index);
            }
            return Err("smoke pattern index exceeds u32".to_owned());
        }
        let pattern_id = (index + 1) as u32;
        if index >= regexes.len() {
            proof {
                assert(indices@[n as int] == index);
            }
            return Err("RegexSet returned an out-of-range pattern index".to_owned());
        }
        let regex = &regexes[index];
        let ghost pattern = regex@;
        let ghost before = events@;
        proof {
            assert(patterns[index as int] == pattern);
        }
        let mut search_start: usize = 0;
        loop
            invariant_except_break
                events@ + find_chain(pattern, corpus@, pattern_id, search_start as int, length as int) == before
                    + find_chain(pattern, corpus@, pattern_id, 0, length as int),
            invariant
                length == corpus.spec_bytes().len(),
                length < usize::MAX,
                search_start <= length,
                pattern == regex@,
            ensures
                events@ == before + find_chain(pattern, corpus@, pattern_id, 0, length as int),
            decreases length + 1 - search_start,
        {
            let found = find_at(regex, corpus, search_start);
            let ghost chain = find_chain(pattern, corpus@, pattern_id, search_start as int, length as int);
            let (start, end) = match found {
                Some(span) => span,
                None => {
                    proof {
                        assert(chain =~= Seq::<Event>::empty());
                        assert(events@ + chain =~= events@);
                        assert(events@ == before + find_chain(pattern, corpus@, pattern_id, 0, length as int));
                    }
                    break;
                },
            };
            let ghost prior = events@;
            let event = Event { pattern_id, start: start as u64, end: end as u64 };
            events.push(event);
            if start == usize::MAX {
                return Err("smoke event start overflowed usize".to_owned());
            }
            if start >= length {
                proof {
                    assert(chain =~= seq![event]);
                    assert(events@ =~= prior + chain);
                    assert(events@ == before + find_chain(pattern, corpus@, pattern_id, 0, length as int));
                }
                break;
            }
            proof {
                assert(chain =~= seq![event] + find_chain(pattern, corpus@, pattern_id, start + 1, length as int));
                assert(events@ + find_chain(pattern, corpus@, pattern_id, start + 1, length as int) =~= prior + chain);
            }
            search_start = start + 1;
        }
        proof {
            let taken = indices@.take(n + 1);
            assert(taken.drop_last() =~= indices@.take(n as int));
            assert(taken.last() == index);
            assert forall|i: int| 0 <= i < taken.len() implies (#[trigger] taken[i]) < regexes@.len() && taken[i]
                < 0xffff_ffff by {
                if i < n {
                    assert(taken[i] == indices@.take(n as int)[i]);
                }
            }
        }
        n = n + 1;
    }
    proof {
        assert(indices@.take(n as int) =~= indices@);
    }
    Ok(events)
}

} // verus!
