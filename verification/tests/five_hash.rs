use rustmatch::five_hash::scan_five_hash_words;
use rustmatch::prefilter::{prefix_hash_index, FIVE_PREFIX_HASH_WORDS};

fn five_hash_index(prefix: &[u16]) -> usize {
    prefix_hash_index(prefix, 1_048_576)
}

fn scalar_five_allows(hash_words: &[u64], input: &[u16], start: usize) -> bool {
    let Some(prefix) = input.get(start..start.saturating_add(5)) else {
        return false;
    };
    if prefix.iter().any(|&unit| unit >= 128) {
        return true;
    }
    let bit = five_hash_index(prefix);
    hash_words[bit / 64] & (1_u64 << (bit % 64)) != 0
}

#[test]
fn a_table_of_another_size_is_refused_without_writing() {
    let input = vec![u16::from(b'x'); 64];
    let hash_words = vec![0_u64; FIVE_PREFIX_HASH_WORDS - 1];
    let mut output = [u64::MAX];

    assert_eq!(scan_five_hash_words(&input, &hash_words, 0, &mut output), None);
    assert_eq!(output, [u64::MAX]);
}

#[test]
fn avx2_kernel_matches_exact_five_hash_and_non_ascii_rules() {
    let mut hash_words = vec![0_u64; FIVE_PREFIX_HASH_WORDS];
    let literal = [u16::from(b'n'), u16::from(b'e'), u16::from(b'e'), u16::from(b'd'), u16::from(b'l')];
    let bit = five_hash_index(&literal);
    hash_words[bit / 64] |= 1_u64 << (bit % 64);
    let mut input = vec![u16::from(b'x'); 130];
    input[9..14].copy_from_slice(&literal);
    input[71] = 0x100;
    let mut output = [0_u64; 3];

    let count = scan_five_hash_words(&input, &hash_words, 0, &mut output).expect("the table has the expected size");

    assert_eq!(count, 6);
    assert_ne!(output[0] & (1_u64 << 9), 0);
    for start in 67..=71 {
        assert_ne!(output[start / 64] & (1_u64 << (start % 64)), 0);
    }
}

#[test]
fn avx2_kernel_matches_scalar_oracle_across_offsets_and_tails() {
    let mut state = 0x9e37_79b9_u32;
    let mut input = Vec::with_capacity(257);
    for _ in 0..257 {
        state ^= state << 13;
        state ^= state >> 17;
        state ^= state << 5;
        input.push(u16::try_from(32 + state % 95).expect("ASCII unit fits u16"));
    }
    for index in [3, 64, 129, 250] {
        input[index] = 0x100 + u16::try_from(index).expect("test index fits u16");
    }

    let mut hash_words = vec![0_u64; FIVE_PREFIX_HASH_WORDS];
    for start in (0..input.len().saturating_sub(4)).step_by(11) {
        let prefix = &input[start..start + 5];
        if prefix.iter().all(|&unit| unit < 128) {
            let bit = five_hash_index(prefix);
            hash_words[bit / 64] |= 1_u64 << (bit % 64);
        }
    }

    for first_start in [0, 1, 7, 63, 64, 65, 127, 251, 257, 300] {
        for word_count in 0..=5 {
            let mut actual = vec![u64::MAX; word_count];
            let actual_count = scan_five_hash_words(&input, &hash_words, first_start, &mut actual)
                .expect("the table has the expected size");
            let mut expected = vec![0_u64; word_count];
            let end_start = first_start.saturating_add(word_count.saturating_mul(64)).min(input.len());
            let mut expected_count = 0_usize;
            for start in first_start..end_start {
                if scalar_five_allows(&hash_words, &input, start) {
                    let relative = start - first_start;
                    expected[relative / 64] |= 1_u64 << (relative % 64);
                    expected_count += 1;
                }
            }
            assert_eq!(actual, expected, "first_start={first_start}, words={word_count}");
            assert_eq!(actual_count, expected_count, "first_start={first_start}, words={word_count}");
        }
    }
}
