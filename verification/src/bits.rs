//! Fixed-size bit sets over `u64` words.
use vstd::prelude::*;

verus! {

/// Whether bit `bit` of `words` is set.
pub open spec fn bit_at(words: Seq<u64>, bit: int) -> bool {
    words[bit / 64] & (1u64 << ((bit % 64) as u64)) != 0
}

pub(crate) proof fn lemma_or_bit(w: u64, k: u64, j: u64)
    requires
        k < 64,
        j < 64,
    ensures
        ((w | (1u64 << k)) & (1u64 << j) != 0) == (j == k || w & (1u64 << j) != 0),
{
    assert(((w | (1u64 << k)) & (1u64 << j) != 0) == (j == k || w & (1u64 << j) != 0)) by (bit_vector)
        requires
            k < 64,
            j < 64,
    ;
}

pub(crate) proof fn lemma_zero_word(j: u64)
    requires
        j < 64,
    ensures
        0u64 & (1u64 << j) == 0,
{
    assert(0u64 & (1u64 << j) == 0) by (bit_vector);
}

/// `count` zero words.
pub fn zero_words(count: usize) -> (words: Vec<u64>)
    ensures
        words@.len() == count,
        forall|bit: int| 0 <= bit < 64 * count ==> !#[trigger] bit_at(words@, bit),
{
    let mut words: Vec<u64> = Vec::new();
    let mut i: usize = 0;
    while i < count
        invariant
            i <= count,
            words@.len() == i,
            forall|k: int| 0 <= k < i ==> #[trigger] words@[k] == 0,
        decreases count - i,
    {
        words.push(0);
        i = i + 1;
    }
    proof {
        assert forall|bit: int| 0 <= bit < 64 * count implies !#[trigger] bit_at(words@, bit) by {
            lemma_zero_word((bit % 64) as u64);
        }
    }
    words
}

/// Sets bit `bit`.
pub fn set_bit(words: &mut Vec<u64>, bit: usize)
    requires
        bit / 64 < old(words)@.len(),
    ensures
        final(words)@.len() == old(words)@.len(),
        forall|b: int| 0 <= b < 64 * final(words)@.len() ==> #[trigger] bit_at(final(words)@, b) == (b == bit
            || bit_at(old(words)@, b)),
{
    let index = bit / 64;
    let shift = (bit % 64) as u64;
    let word = words[index];
    words.set(index, word | (1u64 << shift));
    proof {
        assert forall|b: int| 0 <= b < 64 * words@.len() implies #[trigger] bit_at(words@, b) == (b == bit
            || bit_at(old(words)@, b)) by {
            let j = (b % 64) as u64;
            if b / 64 == index {
                lemma_or_bit(word, shift, j);
                assert(b == bit <==> j == shift);
            } else {
                assert(words@[b / 64] == old(words)@[b / 64]);
                assert(b != bit);
            }
        }
    }
}

/// Whether bit `bit` is set.
pub fn contains_bit(words: &[u64], bit: usize) -> (set: bool)
    requires
        bit / 64 < words@.len(),
    ensures
        set == bit_at(words@, bit as int),
{
    words[bit / 64] & (1u64 << ((bit % 64) as u64)) != 0
}

} // verus!
