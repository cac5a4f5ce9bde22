//! The five-unit candidate kernel: for a run of start positions, whether a
//! literal of five or more units may begin there, read from the five-unit
//! hash table, one bit per start.
use vstd::prelude::*;

use crate::bits::{bit_at, contains_bit, lemma_or_bit, lemma_zero_word};
use crate::prefilter::{
    all_ascii, ascii_units, hash_index_spec, prefix_hash_index, slice_range, FIVE_PREFIX_HASH_WORDS,
};

verus! {

/// Whether a start at `start` is admitted: five units remain, and they
/// hold a non-ASCII unit (admitted conservatively) or their hash bit is set.
pub open spec fn five_allows(hash_words: Seq<u64>, input: Seq<u16>, start: int) -> bool {
    &&& 0 <= start
    &&& start + 5 <= input.len()
    &&& (!all_ascii(input.subrange(start, start + 5)) || bit_at(
        hash_words,
        hash_index_spec(input.subrange(start, start + 5), 1048576),
    ))
}

/// Whether the start `first + offset` is a candidate of a run of `words`
/// output words: it lies before the end of the input and of the run, and
/// is admitted.
pub open spec fn five_candidate(hash_words: Seq<u64>, input: Seq<u16>, first: int, words: int, offset: int) -> bool {
    &&& 0 <= offset < 64 * words
    &&& first + offset < input.len()
    &&& five_allows(hash_words, input, first + offset)
}

/// How many of the offsets below `n` are candidates.
pub open spec fn five_candidate_count(hash_words: Seq<u64>, input: Seq<u16>, first: int, words: int, n: int) -> nat
    decreases n,
{
    if n <= 0 {
        0
    } else {
        five_candidate_count(hash_words, input, first, words, n - 1) + if five_candidate(
            hash_words,
            input,
            first,
            words,
            n - 1,
        ) {
            1nat
        } else {
            0nat
        }
    }
}

/// Whether the five units at `start` are admitted.
fn allows(input: &[u16], hash_words: &[u64], start: usize) -> (admitted: bool)
    requires
        hash_words@.len() == FIVE_PREFIX_HASH_WORDS,
    ensures
        admitted == five_allows(hash_words@, input@, start as int),
{
    if input.len() < 5 || start > input.len() - 5 {
        return false;
    }
    let prefix = slice_range(input, start, 5);
    if !ascii_units(prefix.as_slice()) {
        return true;
    }
    let bit = prefix_hash_index(prefix.as_slice(), 1048576);
    contains_bit(hash_words, bit)
}

/// Marks, in `output_words`, the candidate starts from `first_start` on, 64
/// per word, and counts them; a hash table of another size is refused.
pub fn scan_five_hash_words(input: &[u16], hash_words: &[u64], first_start: usize, output_words: &mut [u64]) -> (admitted:
    Option<usize>)
    requires
        first_start + 64 * old(output_words)@.len() <= usize::MAX,
    ensures
        hash_words@.len() != FIVE_PREFIX_HASH_WORDS ==> admitted is None && final(output_words)@ == old(
            output_words,
        )@,
        hash_words@.len() == FIVE_PREFIX_HASH_WORDS ==> {
            &&& final(output_words)@.len() == old(output_words)@.len()
            &&& forall|offset: int|
                0 <= offset < 64 * old(output_words)@.len() ==> #[trigger] bit_at(final(output_words)@, offset)
                    == five_candidate(hash_words@, input@, first_start as int, old(output_words)@.len() as int, offset)
            &&& admitted == Some(
                five_candidate_count(
                    hash_words@,
                    input@,
                    first_start as int,
                    old(output_words)@.len() as int,
                    64 * old(output_words)@.len() as int,
                ) as usize,
            )
        },
{
    if hash_words.len() != FIVE_PREFIX_HASH_WORDS {
        return None;
    }
    let count = output_words.len();
    let ghost words = count as int;
    let mut admissions: usize = 0;
    let mut w: usize = 0;
    while w < count
        invariant
            hash_words@.len() == FIVE_PREFIX_HASH_WORDS,
            count == output_words@.len(),
            count == old(output_words)@.len(),
            words == count as int,
            first_start + 64 * count <= usize::MAX,
            w <= count,
            admissions == five_candidate_count(hash_words@, input@, first_start as int, words, 64 * w),
            admissions <= 64 * w,
            forall|offset: int|
                0 <= offset < 64 * w ==> #[trigger] bit_at(output_words@, offset) == five_candidate(
                    hash_words@,
                    input@,
                    first_start as int,
                    words,
                    offset,
                ),
        decreases count - w,
    {
        let start = first_start + w * 64;
        let mut candidates: u64 = 0;
        let mut lane: u64 = 0;
        proof {
            assert forall|k: u64| k < 64 implies (#[trigger] (candidates & (1u64 << k)) != 0) == (k < lane
                && five_candidate(hash_words@, input@, first_start as int, words, 64 * w + k)) by {
                lemma_zero_word(k);
            }
        }
        while lane < 64
            invariant
                hash_words@.len() == FIVE_PREFIX_HASH_WORDS,
                w < count,
                words == count as int,
                start == first_start + 64 * w,
                first_start + 64 * count <= usize::MAX,
                lane <= 64,
                admissions == five_candidate_count(hash_words@, input@, first_start as int, words, 64 * w + lane),
                admissions <= 64 * w + lane,
                forall|k: u64|
                    k < 64 ==> (#[trigger] (candidates & (1u64 << k)) != 0) == (k < lane && five_candidate(
                        hash_words@,
                        input@,
                        first_start as int,
                        words,
                        64 * w + k,
                    )),
            decreases 64 - lane,
        {
            let position = start + lane as usize;
            let admitted = position < input.len() && allows(input, hash_words, position);
            let ghost before = candidates;
            proof {
                assert(admitted == five_candidate(hash_words@, input@, first_start as int, words, 64 * w + lane));
            }
            if admitted {
                candidates = candidates | (1u64 << lane);
                admissions = admissions + 1;
            }
            proof {
                assert forall|k: u64| k < 64 implies (#[trigger] (candidates & (1u64 << k)) != 0) == (k < lane + 1
                    && five_candidate(hash_words@, input@, first_start as int, words, 64 * w + k)) by {
                    if admitted {
                        lemma_or_bit(before, lane, k);
                    }
                }
            }
            lane = lane + 1;
        }
        let ghost prior = output_words@;
        output_words[w] = candidates;
        proof {
            assert forall|offset: int|
                0 <= offset < 64 * (w + 1) implies #[trigger] bit_at(output_words@, offset) == five_candidate(
                hash_words@,
                input@,
                first_start as int,
                words,
                offset,
            ) by {
                if offset < 64 * w {
                    assert(output_words@[offset / 64] == prior[offset / 64]);
                    assert(bit_at(output_words@, offset) == bit_at(prior, offset));
                } else {
                    let k = (offset - 64 * w) as u64;
                    assert(offset / 64 == w);
                    assert(offset % 64 == k);
                    assert(output_words@[offset / 64] == candidates);
                }
            }
        }
        w = w + 1;
    }
    Some(admissions)
}

} // verus!
