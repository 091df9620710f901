use aygrep::bitset::TrigramBitSet;
use aygrep::freq::{count_byte_pairs, FrequencyTable};
use aygrep::hash::{hash_ngram, hash_to_trigram, NGRAM_HASH_MULTIPLIER};

#[test]
fn hash_of_empty_ngram_is_zero() {
    assert_eq!(hash_ngram(b""), 0);
}

#[test]
fn hash_of_one_byte_is_the_byte() {
    assert_eq!(hash_ngram(b"a"), 0x61);
}

#[test]
fn hash_of_abc_matches_polynomial() {
    let m = NGRAM_HASH_MULTIPLIER;
    let expected = ((0x61u64.wrapping_mul(m).wrapping_add(0x62)).wrapping_mul(m).wrapping_add(0x63)
        & 0x00FF_FFFF) as u32;
    assert_eq!(expected, 0x8a0d86);
    assert_eq!(hash_ngram(b"abc"), 0x8a0d86);
}

#[test]
fn hash_of_longer_ngram() {
    assert_eq!(hash_ngram(b"hello world"), 0x9d2c0c);
}

#[test]
fn hash_fits_in_24_bits() {
    for s in [&b"zzzzzzzzzzzzzzzzzzzz"[..], b"\xff\xff\xff\xff", b"std::unique_ptr"] {
        assert!(hash_ngram(s) < (1 << 24));
    }
}

#[test]
fn trigram_of_hash_splits_bytes() {
    assert_eq!(hash_to_trigram(0x123456), [0x12, 0x34, 0x56]);
    assert_eq!(hash_to_trigram(hash_ngram(b"abc")), [138, 13, 134]);
}

#[test]
fn trigram_of_hash_drops_high_byte() {
    assert_eq!(hash_to_trigram(0xAB12_3456), [0x12, 0x34, 0x56]);
}

#[test]
fn trigram_roundtrip_on_values() {
    for h in [0u32, 1, 0xFF, 0x1234, 0xFF_FFFF, 0x80_0001] {
        let t = hash_to_trigram(h);
        let back = (t[0] as u32) << 16 | (t[1] as u32) << 8 | t[2] as u32;
        assert_eq!(back, h);
    }
}

#[test]
fn bitset_starts_empty() {
    let s = TrigramBitSet::new();
    assert!(!s.contains([0, 0, 0]));
    assert!(!s.contains([255, 255, 255]));
}

#[test]
fn bitset_insert_then_contains() {
    let mut s = TrigramBitSet::new();
    s.insert([1, 2, 3]);
    s.insert([255, 255, 255]);
    assert!(s.contains([1, 2, 3]));
    assert!(s.contains([255, 255, 255]));
    assert!(!s.contains([1, 2, 4]));
    assert!(!s.contains([0, 2, 3]));
}

#[test]
fn bitset_neighbours_in_one_word_are_distinct() {
    let mut s = TrigramBitSet::new();
    s.insert([0, 0, 63]);
    assert!(s.contains([0, 0, 63]));
    assert!(!s.contains([0, 0, 62]));
    assert!(!s.contains([0, 0, 64]));
}

#[test]
fn bitset_clear_forgets_everything() {
    let mut s = TrigramBitSet::new();
    s.insert([9, 9, 9]);
    s.insert([0, 0, 0]);
    s.clear();
    assert!(!s.contains([9, 9, 9]));
    assert!(!s.contains([0, 0, 0]));
}

#[test]
fn weight_reads_pair_entry() {
    let mut w = [0u8; 65536];
    w[b'a' as usize * 256 + b'b' as usize] = 77;
    w[255 * 256 + 255] = 9;
    let f = FrequencyTable { weights: w };
    assert_eq!(f.weight(b'a', b'b'), 77);
    assert_eq!(f.weight(b'b', b'a'), 0);
    assert_eq!(f.weight(255, 255), 9);
}

#[test]
fn byte_pairs_are_counted_with_overlaps() {
    let mut counts = vec![0u64; 65536];
    count_byte_pairs(b"aaab", &mut counts);
    assert_eq!(counts[b'a' as usize * 256 + b'a' as usize], 2);
    assert_eq!(counts[b'a' as usize * 256 + b'b' as usize], 1);
    assert_eq!(counts.iter().sum::<u64>(), 3);
}

#[test]
fn byte_pair_counts_accumulate() {
    let mut counts = vec![0u64; 65536];
    counts[b'x' as usize * 256 + b'y' as usize] = 5;
    count_byte_pairs(b"xyxy", &mut counts);
    assert_eq!(counts[b'x' as usize * 256 + b'y' as usize], 7);
    assert_eq!(counts[b'y' as usize * 256 + b'x' as usize], 1);
}

#[test]
fn byte_pairs_of_short_input_are_none() {
    let mut counts = vec![0u64; 65536];
    count_byte_pairs(b"q", &mut counts);
    count_byte_pairs(b"", &mut counts);
    assert!(counts.iter().all(|&c| c == 0));
}

#[test]
fn hash_steps_on_its_low_24_bits() {
    let m = NGRAM_HASH_MULTIPLIER as u128;
    for s in [&b"ab"[..], b"hello world", b"std::unique_ptr"] {
        let (init, last) = s.split_at(s.len() - 1);
        let h = hash_ngram(init) as u128;
        assert_eq!(hash_ngram(s) as u128, (h * m + last[0] as u128) % (1 << 24));
    }
}
