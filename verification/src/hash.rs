use vstd::prelude::*;

verus! {

/// The multiplier of the polynomial n-gram hash.
pub const NGRAM_HASH_MULTIPLIER: u64 = 0x517cc1b727220a95;

/// A three-byte index key.
pub type Trigram = [u8; 3];

/// The 64-bit polynomial hash of `s`: `s[0] * K^(n-1) + ... + s[n-1]`, modulo 2^64.
pub open spec fn ngram_hash_state(s: Seq<u8>) -> u64
    decreases s.len(),
{
    if s.len() == 0 {
        0
    } else {
        ((ngram_hash_state(s.drop_last()) as nat * NGRAM_HASH_MULTIPLIER as nat + s.last() as nat)
            % 0x1_0000_0000_0000_0000) as u64
    }
}

/// The 24-bit hash of an n-gram: the low 24 bits of its polynomial hash.
pub open spec fn ngram_hash(s: Seq<u8>) -> u32 {
    (ngram_hash_state(s) % 0x100_0000) as u32
}

/// The three bytes of a 24-bit value, most significant first.
pub open spec fn trigram_bytes(h: u32) -> Seq<u8> {
    seq![((h / 0x1_0000) % 0x100) as u8, ((h / 0x100) % 0x100) as u8, (h % 0x100) as u8]
}

/// The 24-bit value of a three-byte key read most significant byte first.
pub open spec fn trigram_index(t: Seq<u8>) -> int {
    t[0] * 0x1_0000 + t[1] * 0x100 + t[2]
}

proof fn lemma_wrapping_step(x: u64, b: u8)
    ensures
        x.wrapping_mul(NGRAM_HASH_MULTIPLIER).wrapping_add(b as u64) == ((x as nat
            * NGRAM_HASH_MULTIPLIER as nat + b as nat) % 0x1_0000_0000_0000_0000) as u64,
{
    let m: int = 0x1_0000_0000_0000_0000;
    let p: int = x as int * NGRAM_HASH_MULTIPLIER as int;
    assert(p >= 0) by (nonlinear_arith)
        requires
            x >= 0,
            NGRAM_HASH_MULTIPLIER >= 0,
            p == x as int * NGRAM_HASH_MULTIPLIER as int,
    ;
    let w = p % m;
    vstd::arithmetic::div_mod::lemma_add_mod_noop(p, b as int, m);
    vstd::arithmetic::div_mod::lemma_small_mod((b as int) as nat, m as nat);
    vstd::arithmetic::div_mod::lemma_mod_bound(p, m);
    if w + b as int >= m {
        vstd::arithmetic::div_mod::lemma_fundamental_div_mod_converse(w + b as int, m, 1, w + b as int - m);
    } else {
        vstd::arithmetic::div_mod::lemma_small_mod((w + b as int) as nat, m as nat);
    }
}

/// Hashes an n-gram to a 24-bit key.
pub fn hash_ngram(ngram: &[u8]) -> (h: u32)
    ensures
        h == ngram_hash(ngram@),
        h < 0x100_0000,
{
    let mut hash: u64 = 0;
    let mut i: usize = 0;
    while i < ngram.len()
        invariant
            i <= ngram@.len(),
            hash == ngram_hash_state(ngram@.take(i as int)),
        decreases ngram@.len() - i,
    {
        let byte = ngram[i];
        proof {
            lemma_wrapping_step(hash, byte);
            assert(ngram@.take(i + 1).drop_last() =~= ngram@.take(i as int));
        }
        hash = hash.wrapping_mul(NGRAM_HASH_MULTIPLIER).wrapping_add(byte as u64);
        i += 1;
    }
    assert(ngram@.take(ngram@.len() as int) =~= ngram@);
    let masked = hash & 0x00FF_FFFF;
    assert(masked == hash % 0x100_0000 && masked < 0x100_0000) by (bit_vector)
        requires
            masked == hash & 0x00FF_FFFF,
    ;
    masked as u32
}

/// Splits a 24-bit hash into a three-byte key, most significant byte first.
pub fn hash_to_trigram(h: u32) -> (t: Trigram)
    ensures
        t@ == trigram_bytes(h),
{
    let a = (h >> 16) as u8;
    let b = (h >> 8) as u8;
    let c = h as u8;
    assert(a == ((h / 0x1_0000) % 0x100) as u8 && b == ((h / 0x100) % 0x100) as u8 && c == (h
        % 0x100) as u8) by (bit_vector)
        requires
            a == (h >> 16) as u8,
            b == (h >> 8) as u8,
            c == h as u8,
    ;
    let t = [a, b, c];
    assert(t@ =~= trigram_bytes(h));
    t
}

/// A 24-bit hash survives the split into a key: reading the key back gives the hash.
pub proof fn lemma_trigram_roundtrip(h: u32)
    requires
        h < 0x100_0000,
    ensures
        trigram_index(trigram_bytes(h)) == h,
{
    let x = h as int;
    assert(x == ((x / 0x1_0000) % 0x100) * 0x1_0000 + ((x / 0x100) % 0x100) * 0x100 + x % 0x100)
        by (nonlinear_arith)
        requires
            0 <= x < 0x100_0000,
    ;
}

/// The 24-bit hash steps on its own: the hash of an n-gram with one more byte
/// `b` is `(h * K + b) mod 2^24`, `h` being the hash of the n-gram before it.
pub proof fn lemma_ngram_hash_step(s: Seq<u8>, b: u8)
    ensures
        ngram_hash(s.push(b)) == ((ngram_hash(s) as nat * NGRAM_HASH_MULTIPLIER as nat + b as nat)
            % 0x100_0000) as u32,
{
    let x = ngram_hash_state(s) as int;
    let k = NGRAM_HASH_MULTIPLIER as int;
    let t = x * k + b as int;
    let lo: int = 0x100_0000;
    let hi: int = 0x100_0000_0000;
    assert(s.push(b).drop_last() =~= s);
    assert(s.push(b).last() == b);
    assert(ngram_hash_state(s.push(b)) as int == t % (lo * hi)) by {
        assert(lo * hi == 0x1_0000_0000_0000_0000);
        assert(t >= 0) by (nonlinear_arith)
            requires
                x >= 0,
                k >= 0,
                t == x * k + b as int,
        ;
    }
    vstd::arithmetic::div_mod::lemma_mod_mod(t, lo, hi);
    vstd::arithmetic::div_mod::lemma_mul_mod_noop_left(x, k, lo);
    vstd::arithmetic::div_mod::lemma_add_mod_noop(x * k, b as int, lo);
    vstd::arithmetic::div_mod::lemma_add_mod_noop((x % lo) * k, b as int, lo);
    assert(((x % lo) * k + b as int) % lo == t % lo);
}

} // verus!
