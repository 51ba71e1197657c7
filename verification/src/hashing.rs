//! Hashes of GTFS string ids and of grid cells, and the integer logarithm
//! used to size the jump flood.

use std::hash::{DefaultHasher, Hasher};
use vstd::prelude::*;
use vstd::std_specs::hash::DefaultHasherAdditionalSpecFns;
use vstd::utf8::encode_utf8;

verus! {

/// The 64-bit hash that a fresh `DefaultHasher` gives the string `s`:
/// hashing a `str` writes its UTF-8 bytes, then the byte `0xff`.
pub open spec fn default_str_hash(s: Seq<char>) -> u64 {
    DefaultHasher::spec_finish(seq![encode_utf8(s), seq![0xffu8]])
}

/// The 32-bit id that `str_to_u32_hash` gives the text `s`: the low 32 bits
/// of its default hash.
pub open spec fn spec_str_to_u32_hash(s: Seq<char>) -> u32 {
    (default_str_hash(s) % 0x1_0000_0000) as u32
}

/// hash function to convert a string to u32 (used for string values, usually
/// IDs, from gtfs data)
pub fn str_to_u32_hash(s: &str) -> (r: u32)
    ensures
        r == spec_str_to_u32_hash(s@),
{
    let mut hasher = DefaultHasher::new();
    // what `s.hash(&mut hasher)` writes: the bytes, then a terminating 0xff
    let bytes = s.as_bytes();
    hasher.write(bytes);
    let terminator: [u8; 1] = [0xff];
    let tail = terminator.as_slice();
    assert(tail@ =~= seq![0xffu8]);
    hasher.write(tail);
    let h = hasher.finish();
    proof {
        assert(bytes@ == encode_utf8(s@));
        assert(hasher@ =~= seq![encode_utf8(s@), seq![0xffu8]]);
    }
    assert(h & 0xFFFF_FFFFu64 == h % 0x1_0000_0000) by (bit_vector);
    (h & 0xFFFF_FFFF) as u32
}

/// One round of the integer mixer that `hash2_i32` applies to each half.
pub open spec fn mix32(x: u32) -> u32 {
    let x1 = x ^ (x >> 16u32);
    let x2 = vstd::wrapping::u32_specs::wrapping_mul(x1, 0x7feb352du32);
    let x3 = x2 ^ (x2 >> 15u32);
    let x4 = vstd::wrapping::u32_specs::wrapping_mul(x3, 0x846ca68bu32);
    x4 ^ (x4 >> 16u32)
}

/// `y` rotated left by 16 bits.
pub open spec fn rotate_left_16(y: u32) -> u32 {
    (y << 16u32) | (y >> 16u32)
}

/// The cell hash of `(a, b)`: both halves mixed, the second rotated by 16
/// bits, combined by exclusive or.
pub open spec fn spec_hash2_i32(a: i32, b: i32) -> u32 {
    mix32(a as u32) ^ rotate_left_16(mix32(b as u32))
}

fn mix(x0: u32) -> (r: u32)
    ensures
        r == mix32(x0),
{
    let mut x = x0;
    x ^= x >> 16;
    x = x.wrapping_mul(0x7feb352d);
    x ^= x >> 15;
    x = x.wrapping_mul(0x846ca68b);
    x ^= x >> 16;
    x
}

/// hash function for gpu compatibility (used to compute hashes for a hashmap
/// that can be used within shaders)
pub fn hash2_i32(a: i32, b: i32) -> (r: u32)
    ensures
        r == spec_hash2_i32(a, b),
{
    let x = mix(a as u32);
    let y = mix(b as u32);
    x ^ ((y << 16) | (y >> 16))
}

/// Multiplying by `c` modulo 2^32 is undone by multiplying by `c_inverse`,
/// where `c * c_inverse` is one more than a multiple of 2^32.
proof fn lemma_wrapping_mul_undone(x: u32, c: u32, c_inverse: u32, k: nat)
    requires
        c * c_inverse == 1 + k * 0x1_0000_0000,
    ensures
        vstd::wrapping::u32_specs::wrapping_mul(vstd::wrapping::u32_specs::wrapping_mul(x, c), c_inverse)
            == x,
{
    let m: int = 0x1_0000_0000;
    let xc: int = x * c;
    vstd::arithmetic::div_mod::lemma_mul_mod_noop_left(xc, c_inverse as int, m);
    assert(xc * c_inverse == m * (x * k) + x) by (nonlinear_arith)
        requires
            xc == x * c,
            c * c_inverse == 1 + k * m,
    ;
    vstd::arithmetic::div_mod::lemma_mod_multiples_vanish(x * k, x as int, m);
    vstd::arithmetic::div_mod::lemma_small_mod(x as nat, m as nat);
}

/// The mixer of `hash2_i32` gives different values to different inputs:
/// each of its steps can be undone.
proof fn lemma_mix32_injective(x: u32, y: u32)
    requires
        mix32(x) == mix32(y),
    ensures
        x == y,
{
    let x1 = x ^ (x >> 16u32);
    let y1 = y ^ (y >> 16u32);
    let x2 = vstd::wrapping::u32_specs::wrapping_mul(x1, 0x7feb352du32);
    let y2 = vstd::wrapping::u32_specs::wrapping_mul(y1, 0x7feb352du32);
    let x3 = x2 ^ (x2 >> 15u32);
    let y3 = y2 ^ (y2 >> 15u32);
    let x4 = vstd::wrapping::u32_specs::wrapping_mul(x3, 0x846ca68bu32);
    let y4 = vstd::wrapping::u32_specs::wrapping_mul(y3, 0x846ca68bu32);
    assert(x4 ^ (x4 >> 16u32) == y4 ^ (y4 >> 16u32));
    assert(x4 == y4) by (bit_vector)
        requires
            x4 ^ (x4 >> 16u32) == y4 ^ (y4 >> 16u32),
    ;
    lemma_wrapping_mul_undone(x3, 0x846ca68bu32, 0x43021123u32, 581534029);
    lemma_wrapping_mul_undone(y3, 0x846ca68bu32, 0x43021123u32, 581534029);
    assert(x3 == y3);
    assert(x2 == y2) by (bit_vector)
        requires
            x2 ^ (x2 >> 15u32) == y2 ^ (y2 >> 15u32),
    ;
    lemma_wrapping_mul_undone(x1, 0x7feb352du32, 0x1d69e2a5u32, 246582719);
    lemma_wrapping_mul_undone(y1, 0x7feb352du32, 0x1d69e2a5u32, 246582719);
    assert(x1 == y1);
    assert(x == y) by (bit_vector)
        requires
            x ^ (x >> 16u32) == y ^ (y >> 16u32),
    ;
}

/// The cell hash tells apart the cells of a row and of a column: with one
/// index fixed, different values of the other give different hashes.
pub proof fn hash2_i32_injective_in_each(a1: i32, a2: i32, b: i32)
    requires
        a1 != a2,
    ensures
        spec_hash2_i32(a1, b) != spec_hash2_i32(a2, b),
        spec_hash2_i32(b, a1) != spec_hash2_i32(b, a2),
{
    let u1 = a1 as u32;
    let u2 = a2 as u32;
    assert(u1 != u2) by (bit_vector)
        requires
            a1 != a2,
            u1 == a1 as u32,
            u2 == a2 as u32,
    ;
    if spec_hash2_i32(a1, b) == spec_hash2_i32(a2, b) {
        let p = mix32(u1);
        let q = mix32(u2);
        let r = rotate_left_16(mix32(b as u32));
        assert(p == q) by (bit_vector)
            requires
                p ^ r == q ^ r,
        ;
        lemma_mix32_injective(u1, u2);
    }
    if spec_hash2_i32(b, a1) == spec_hash2_i32(b, a2) {
        let p = mix32(b as u32);
        let q = mix32(u1);
        let r = mix32(u2);
        assert(q == r) by (bit_vector)
            requires
                p ^ ((q << 16u32) | (q >> 16u32)) == p ^ ((r << 16u32) | (r >> 16u32)),
        ;
        lemma_mix32_injective(u1, u2);
    }
}

/// finds the log base 2 of an unsigned integer: the position of its highest
/// set bit
pub fn log2(x: u32) -> (r: u32)
    requires
        x > 0,
    ensures
        r < 32,
        x >> r == 1,
{
    let mut y = x;
    let mut r: u32 = 0;
    proof {
        assert(x >> 0u32 == x) by (bit_vector);
    }
    while y > 1
        invariant
            y == x >> r,
            y > 0,
            r < 32,
            r > 0 ==> y <= (0xFFFF_FFFFu32 >> r),
        decreases y,
    {
        proof {
            assert(r < 32 && y == x >> r && y > 1 && (r > 0 ==> y <= (0xFFFF_FFFFu32 >> r)) ==> (
            r + 1 < 32 && (y >> 1u32) == x >> ((r + 1) as u32) && (y >> 1u32) <= (0xFFFF_FFFFu32
                >> ((r + 1) as u32)) && (y >> 1u32) > 0 && (y >> 1u32) < y)) by (bit_vector);
        }
        y = y >> 1;
        r = r + 1;
    }
    r
}

} // verus!
