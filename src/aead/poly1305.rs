//! A one-time authenticator over the field of integers modulo 2^130 - 5,
//! computed in 26-bit limbs: the key gives a multiplier and an addend, each
//! sixteen-byte block is added to an accumulator that is then multiplied by
//! the multiplier, and the tag is the reduced accumulator plus the addend.

use crate::arithmetic::add::{lemma_select_limb, select_limb};
use vstd::arithmetic::div_mod::{lemma_div_denominator, lemma_fundamental_div_mod_converse_mod};
use vstd::prelude::*;

verus! {

/// Length in bytes of an authenticator key.
pub const KEY_LEN: usize = 32;

/// Length in bytes of a tag.
pub const TAG_LEN: usize = 16;

/// Length in bytes of one block of input.
pub const BLOCK_LEN: usize = 16;

/// Two to the limb width of a field element.
pub const LIMB_RADIX: u64 = 0x400_0000;

/// The bit that marks a full block above its sixteen bytes, in the top limb.
pub const FULL_BLOCK_BIT: u64 = 0x100_0000;

/// A one-time key: sixteen bytes that give the multiplier `r`, then sixteen
/// bytes that give the final addend `s`.
pub struct Key {
    pub key_and_nonce: [u8; 32],
}

/// An authenticator value.
pub struct Tag(pub [u8; 16]);

/// A field element modulo 2^130 - 5 in five limbs of (nominally) 26 bits.
#[derive(Clone, Copy)]
pub struct Fe26 {
    pub l0: u64,
    pub l1: u64,
    pub l2: u64,
    pub l3: u64,
    pub l4: u64,
}

pub open spec fn fe_zero() -> Fe26 {
    Fe26 { l0: 0, l1: 0, l2: 0, l3: 0, l4: 0 }
}

/// Every limb of `f` is below `b`.
pub open spec fn fe_below(f: Fe26, b: int) -> bool {
    f.l0 < b && f.l1 < b && f.l2 < b && f.l3 < b && f.l4 < b
}

/// The little-endian 32-bit word at `b[i..i + 4]`.
pub open spec fn le32(b: Seq<u8>, i: int) -> int {
    b[i] + b[i + 1] * 0x100 + b[i + 2] * 0x1_0000 + b[i + 3] * 0x100_0000
}

/// The multiplier held in the first sixteen bytes of `k`, with the bits that
/// the algorithm clears taken out, in 26-bit limbs.
pub open spec fn clamp_r(k: Seq<u8>) -> Fe26 {
    Fe26 {
        l0: (0x3ffffffu32 & (le32(k, 0) as u32)) as u64,
        l1: (0x3ffff03u32 & ((le32(k, 3) / 4) as u32)) as u64,
        l2: (0x3ffc0ffu32 & ((le32(k, 6) / 16) as u32)) as u64,
        l3: (0x3f03fffu32 & ((le32(k, 9) / 64) as u32)) as u64,
        l4: (0x00fffffu32 & ((le32(k, 12) / 256) as u32)) as u64,
    }
}

/// The final addend held in bytes 16 to 32 of `k`, little-endian.
pub open spec fn s_value(k: Seq<u8>) -> int {
    le32(k, 16) + le32(k, 20) * 0x1_0000_0000 + le32(k, 24) * 0x1_0000_0000_0000_0000 + le32(k, 28)
        * 0x1_0000_0000_0000_0000_0000_0000
}

/// The sixteen bytes of `b` as 26-bit limbs, with `hibit` added to the top
/// limb.
pub open spec fn block_limbs(b: Seq<u8>, hibit: u64) -> Fe26 {
    Fe26 {
        l0: (le32(b, 0) % 0x400_0000) as u64,
        l1: ((le32(b, 3) / 4) % 0x400_0000) as u64,
        l2: ((le32(b, 6) / 16) % 0x400_0000) as u64,
        l3: ((le32(b, 9) / 64) % 0x400_0000) as u64,
        l4: (le32(b, 12) / 256 + hibit) as u64,
    }
}

/// A partial final block: its bytes, a one byte, then zero bytes up to
/// sixteen.
pub open spec fn pad_block(rest: Seq<u8>) -> Seq<u8> {
    rest + seq![1u8] + Seq::new((15 - rest.len()) as nat, |i: int| 0u8)
}

/// One step of the accumulator: `(h + m) * r`, partly reduced modulo
/// 2^130 - 5 and carried back into 26-bit limbs.
pub open spec fn block_step(h: Fe26, r: Fe26, m: Fe26) -> Fe26 {
    let a0 = h.l0 + m.l0;
    let a1 = h.l1 + m.l1;
    let a2 = h.l2 + m.l2;
    let a3 = h.l3 + m.l3;
    let a4 = h.l4 + m.l4;
    let s1 = r.l1 * 5;
    let s2 = r.l2 * 5;
    let s3 = r.l3 * 5;
    let s4 = r.l4 * 5;
    let d0 = a0 * r.l0 + a1 * s4 + a2 * s3 + a3 * s2 + a4 * s1;
    let d1 = a0 * r.l1 + a1 * r.l0 + a2 * s4 + a3 * s3 + a4 * s2 + d0 / 0x400_0000;
    let d2 = a0 * r.l2 + a1 * r.l1 + a2 * r.l0 + a3 * s4 + a4 * s3 + d1 / 0x400_0000;
    let d3 = a0 * r.l3 + a1 * r.l2 + a2 * r.l1 + a3 * r.l0 + a4 * s4 + d2 / 0x400_0000;
    let d4 = a0 * r.l4 + a1 * r.l3 + a2 * r.l2 + a3 * r.l1 + a4 * r.l0 + d3 / 0x400_0000;
    let e0 = d0 % 0x400_0000 + (d4 / 0x400_0000) * 5;
    Fe26 {
        l0: (e0 % 0x400_0000) as u64,
        l1: (d1 % 0x400_0000 + e0 / 0x400_0000) as u64,
        l2: (d2 % 0x400_0000) as u64,
        l3: (d3 % 0x400_0000) as u64,
        l4: (d4 % 0x400_0000) as u64,
    }
}

/// The accumulator after the first `n` full blocks of `data`.
pub open spec fn hash_blocks(r: Fe26, data: Seq<u8>, n: nat) -> Fe26
    decreases n,
{
    if n == 0 {
        fe_zero()
    } else {
        let k = (n - 1) as int;
        block_step(
            hash_blocks(r, data, (n - 1) as nat),
            r,
            block_limbs(data.subrange(16 * k, 16 * k + 16), FULL_BLOCK_BIT),
        )
    }
}

/// The accumulator after all of `data`, a partial final block included.
pub open spec fn hash_all(r: Fe26, data: Seq<u8>) -> Fe26 {
    let n = data.len() / 16;
    let h = hash_blocks(r, data, n);
    let rest = data.skip(16 * n as int);
    if rest.len() == 0 {
        h
    } else {
        block_step(h, r, block_limbs(pad_block(rest), 0))
    }
}

/// `h` carried through fully and reduced to its canonical residue.
pub open spec fn freeze(h: Fe26) -> Fe26 {
    let c1 = h.l1 / 0x400_0000;
    let h2 = h.l2 + c1;
    let c2 = h2 / 0x400_0000;
    let h3 = h.l3 + c2;
    let c3 = h3 / 0x400_0000;
    let h4 = h.l4 + c3;
    let c4 = h4 / 0x400_0000;
    let h0 = h.l0 + c4 * 5;
    let c0 = h0 / 0x400_0000;
    let f = Fe26 {
        l0: (h0 % 0x400_0000) as u64,
        l1: (h.l1 % 0x400_0000 + c0) as u64,
        l2: (h2 % 0x400_0000) as u64,
        l3: (h3 % 0x400_0000) as u64,
        l4: (h4 % 0x400_0000) as u64,
    };
    let g0 = f.l0 + 5;
    let g1 = f.l1 + g0 / 0x400_0000;
    let g2 = f.l2 + g1 / 0x400_0000;
    let g3 = f.l3 + g2 / 0x400_0000;
    let g4 = f.l4 + g3 / 0x400_0000;
    if g4 >= 0x400_0000 {
        Fe26 {
            l0: (g0 % 0x400_0000) as u64,
            l1: (g1 % 0x400_0000) as u64,
            l2: (g2 % 0x400_0000) as u64,
            l3: (g3 % 0x400_0000) as u64,
            l4: (g4 % 0x400_0000) as u64,
        }
    } else {
        f
    }
}

/// The low 128 bits of the integer that `f` represents.
pub open spec fn low128(f: Fe26) -> int {
    (f.l0 + f.l1 * 0x400_0000 + f.l2 * 0x10_0000_0000_0000 + f.l3 * 0x4000_0000_0000_0000_0000
        + (f.l4 % 0x100_0000) * 0x100_0000_0000_0000_0000_0000_0000) % pow2_128()
}

/// 2^128.
pub open spec fn pow2_128() -> int {
    0x1_0000_0000_0000_0000int * 0x1_0000_0000_0000_0000int
}

/// `256^i`.
pub open spec fn pow256(i: nat) -> nat
    decreases i,
{
    if i == 0 {
        1
    } else {
        256 * pow256((i - 1) as nat)
    }
}

/// The sixteen little-endian bytes of `t`.
pub open spec fn le_bytes16(t: nat) -> Seq<u8> {
    Seq::new(16, |i: int| ((t / pow256(i as nat)) % 256) as u8)
}

/// The tag of `msg` under the 32-byte key `key`.
pub open spec fn poly1305_tag(key: Seq<u8>, msg: Seq<u8>) -> Seq<u8> {
    let h = freeze(hash_all(clamp_r(key), msg));
    le_bytes16(((low128(h) + s_value(key)) % pow2_128()) as nat)
}

proof fn lemma_mul_below(x: int, y: int, bx: int, by: int)
    requires
        0 <= x < bx,
        0 <= y < by,
    ensures
        0 <= x * y < bx * by,
{
    assert(0 <= x * y < bx * by) by (nonlinear_arith)
        requires
            0 <= x < bx,
            0 <= y < by,
    ;
}

/// The little-endian 32-bit word at `b[i..i + 4]`.
fn load32(b: &[u8], i: usize) -> (r: u32)
    requires
        i + 4 <= b@.len(),
    ensures
        r == le32(b@, i as int),
{
    (b[i] as u32) + (b[i + 1] as u32) * 0x100 + (b[i + 2] as u32) * 0x1_0000 + (b[i + 3] as u32)
        * 0x100_0000
}

/// Reads a block of sixteen bytes into 26-bit limbs.
fn load_block(b: &[u8], hibit: u64) -> (f: Fe26)
    requires
        b@.len() == BLOCK_LEN,
        hibit <= FULL_BLOCK_BIT,
    ensures
        f == block_limbs(b@, hibit),
        fe_below(f, 0x400_0000),
{
    let w0 = load32(b, 0) as u64;
    let w3 = load32(b, 3) as u64;
    let w6 = load32(b, 6) as u64;
    let w9 = load32(b, 9) as u64;
    let w12 = load32(b, 12) as u64;
    Fe26 {
        l0: w0 % LIMB_RADIX,
        l1: (w3 / 4) % LIMB_RADIX,
        l2: (w6 / 16) % LIMB_RADIX,
        l3: (w9 / 64) % LIMB_RADIX,
        l4: w12 / 256 + hibit,
    }
}

/// One step of the accumulator over a block already read into limbs.
fn mul_step(h: Fe26, r: Fe26, m: Fe26) -> (out: Fe26)
    requires
        fe_below(h, 0x800_0000),
        fe_below(r, 0x400_0000),
        fe_below(m, 0x400_0000),
    ensures
        out == block_step(h, r, m),
        fe_below(out, 0x800_0000),
{
    let a0 = h.l0 + m.l0;
    let a1 = h.l1 + m.l1;
    let a2 = h.l2 + m.l2;
    let a3 = h.l3 + m.l3;
    let a4 = h.l4 + m.l4;
    let r0 = r.l0;
    let r1 = r.l1;
    let r2 = r.l2;
    let r3 = r.l3;
    let r4 = r.l4;
    let s1 = r1 * 5;
    let s2 = r2 * 5;
    let s3 = r3 * 5;
    let s4 = r4 * 5;
    proof {
        lemma_mul_below(a0 as int, r0 as int, 0x1000_0000, 0x400_0000);
        lemma_mul_below(a1 as int, s4 as int, 0x1000_0000, 0x2000_0000);
        lemma_mul_below(a2 as int, s3 as int, 0x1000_0000, 0x2000_0000);
        lemma_mul_below(a3 as int, s2 as int, 0x1000_0000, 0x2000_0000);
        lemma_mul_below(a4 as int, s1 as int, 0x1000_0000, 0x2000_0000);
        lemma_mul_below(a0 as int, r1 as int, 0x1000_0000, 0x400_0000);
        lemma_mul_below(a1 as int, r0 as int, 0x1000_0000, 0x400_0000);
        lemma_mul_below(a2 as int, s4 as int, 0x1000_0000, 0x2000_0000);
        lemma_mul_below(a3 as int, s3 as int, 0x1000_0000, 0x2000_0000);
        lemma_mul_below(a4 as int, s2 as int, 0x1000_0000, 0x2000_0000);
        lemma_mul_below(a0 as int, r2 as int, 0x1000_0000, 0x400_0000);
        lemma_mul_below(a1 as int, r1 as int, 0x1000_0000, 0x400_0000);
        lemma_mul_below(a2 as int, r0 as int, 0x1000_0000, 0x400_0000);
        lemma_mul_below(a3 as int, s4 as int, 0x1000_0000, 0x2000_0000);
        lemma_mul_below(a4 as int, s3 as int, 0x1000_0000, 0x2000_0000);
        lemma_mul_below(a0 as int, r3 as int, 0x1000_0000, 0x400_0000);
        lemma_mul_below(a1 as int, r2 as int, 0x1000_0000, 0x400_0000);
        lemma_mul_below(a2 as int, r1 as int, 0x1000_0000, 0x400_0000);
        lemma_mul_below(a3 as int, r0 as int, 0x1000_0000, 0x400_0000);
        lemma_mul_below(a4 as int, s4 as int, 0x1000_0000, 0x2000_0000);
        lemma_mul_below(a0 as int, r4 as int, 0x1000_0000, 0x400_0000);
        lemma_mul_below(a1 as int, r3 as int, 0x1000_0000, 0x400_0000);
        lemma_mul_below(a2 as int, r2 as int, 0x1000_0000, 0x400_0000);
        lemma_mul_below(a3 as int, r1 as int, 0x1000_0000, 0x400_0000);
        lemma_mul_below(a4 as int, r0 as int, 0x1000_0000, 0x400_0000);
    }
    let d0 = a0 * r0 + a1 * s4 + a2 * s3 + a3 * s2 + a4 * s1;
    let d1 = a0 * r1 + a1 * r0 + a2 * s4 + a3 * s3 + a4 * s2 + d0 / LIMB_RADIX;
    let d2 = a0 * r2 + a1 * r1 + a2 * r0 + a3 * s4 + a4 * s3 + d1 / LIMB_RADIX;
    let d3 = a0 * r3 + a1 * r2 + a2 * r1 + a3 * r0 + a4 * s4 + d2 / LIMB_RADIX;
    let d4 = a0 * r4 + a1 * r3 + a2 * r2 + a3 * r1 + a4 * r0 + d3 / LIMB_RADIX;
    let e0 = d0 % LIMB_RADIX + (d4 / LIMB_RADIX) * 5;
    Fe26 {
        l0: e0 % LIMB_RADIX,
        l1: d1 % LIMB_RADIX + e0 / LIMB_RADIX,
        l2: d2 % LIMB_RADIX,
        l3: d3 % LIMB_RADIX,
        l4: d4 % LIMB_RADIX,
    }
}

/// Carries `h` through fully and reduces it to its canonical residue, with
/// a mask in place of a branch on whether `h` reached the modulus.
fn freeze_limbs(h: Fe26) -> (out: Fe26)
    requires
        fe_below(h, 0x800_0000),
    ensures
        out == freeze(h),
{
    let c1 = h.l1 / LIMB_RADIX;
    let h1 = h.l1 % LIMB_RADIX;
    let h2 = h.l2 + c1;
    let c2 = h2 / LIMB_RADIX;
    let h3 = h.l3 + c2;
    let c3 = h3 / LIMB_RADIX;
    let h4 = h.l4 + c3;
    let c4 = h4 / LIMB_RADIX;
    let h0 = h.l0 + c4 * 5;
    let c0 = h0 / LIMB_RADIX;
    let f0 = h0 % LIMB_RADIX;
    let f1 = h1 + c0;
    let f2 = h2 % LIMB_RADIX;
    let f3 = h3 % LIMB_RADIX;
    let f4 = h4 % LIMB_RADIX;
    let g0 = f0 + 5;
    let g1 = f1 + g0 / LIMB_RADIX;
    let g2 = f2 + g1 / LIMB_RADIX;
    let g3 = f3 + g2 / LIMB_RADIX;
    let g4 = f4 + g3 / LIMB_RADIX;
    let take_g: u64 = g4 / LIMB_RADIX;
    let mask: u64 = 0u64.wrapping_sub(take_g);
    let ghost f = Fe26 { l0: f0, l1: f1, l2: f2, l3: f3, l4: f4 };
    let out = Fe26 {
        l0: ((g0 % LIMB_RADIX) & mask) | (f0 & !mask),
        l1: ((g1 % LIMB_RADIX) & mask) | (f1 & !mask),
        l2: ((g2 % LIMB_RADIX) & mask) | (f2 & !mask),
        l3: ((g3 % LIMB_RADIX) & mask) | (f3 & !mask),
        l4: ((g4 % LIMB_RADIX) & mask) | (f4 & !mask),
    };
    proof {
        assert(take_g <= 1);
        lemma_select_limb(f0, (g0 % LIMB_RADIX) as u64);
        lemma_select_limb(f1, (g1 % LIMB_RADIX) as u64);
        lemma_select_limb(f2, (g2 % LIMB_RADIX) as u64);
        lemma_select_limb(f3, (g3 % LIMB_RADIX) as u64);
        lemma_select_limb(f4, (g4 % LIMB_RADIX) as u64);
        assert(out.l0 == select_limb(f0, (g0 % LIMB_RADIX) as u64, mask));
        assert(out.l1 == select_limb(f1, (g1 % LIMB_RADIX) as u64, mask));
        assert(out.l2 == select_limb(f2, (g2 % LIMB_RADIX) as u64, mask));
        assert(out.l3 == select_limb(f3, (g3 % LIMB_RADIX) as u64, mask));
        assert(out.l4 == select_limb(f4, (g4 % LIMB_RADIX) as u64, mask));
    }
    out
}

/// The sixteen tag bytes: the low 128 bits of `f` plus the addend held in
/// bytes 16 to 32 of `key`, modulo 2^128, little-endian.
fn tag_bytes(f: Fe26, key: &[u8]) -> (out: [u8; 16])
    requires
        key@.len() == KEY_LEN,
        fe_below(f, 0x800_0000),
    ensures
        out@ == le_bytes16(((low128(f) + s_value(key@)) % pow2_128()) as nat),
{
    let lo: u128 = (f.l0 as u128) + (f.l1 as u128) * 0x400_0000 + (f.l2 as u128)
        * 0x10_0000_0000_0000 + (f.l3 as u128) * 0x4000_0000_0000_0000_0000;
    let hi: u128 = ((f.l4 % 0x100_0000) as u128) * 0x100_0000_0000_0000_0000_0000_0000;
    let v: u128 = lo.wrapping_add(hi);
    let s: u128 = (load32(key, 16) as u128) + (load32(key, 20) as u128) * 0x1_0000_0000 + (load32(
        key,
        24,
    ) as u128) * 0x1_0000_0000_0000_0000 + (load32(key, 28) as u128)
        * 0x1_0000_0000_0000_0000_0000_0000;
    let t: u128 = v.wrapping_add(s);
    proof {
        lemma_add_mod128(lo as int, hi as int);
        lemma_add_mod128(v as int, s as int);
    }
    let mut out = [0u8; 16];
    let mut cur: u128 = t;
    let mut i: usize = 0;
    assert(pow256(0) == 1);
    while i < 16
        invariant
            i <= 16,
            cur == t as nat / pow256(i as nat),
            forall|j: int| 0 <= j < i ==> #[trigger] out@[j] == ((t as nat / pow256(j as nat)) % 256) as u8,
        decreases 16 - i,
    {
        out[i] = (cur % 256) as u8;
        proof {
            lemma_pow256_positive(i as nat);
            lemma_div_denominator(t as int, pow256(i as nat) as int, 256);
            assert(pow256((i + 1) as nat) == pow256(i as nat) * 256);
        }
        cur = cur / 256;
        i += 1;
    }
    assert(out@ =~= le_bytes16(t as nat));
    out
}

proof fn lemma_add_mod128(x: int, y: int)
    requires
        0 <= x < pow2_128(),
        0 <= y < pow2_128(),
    ensures
        (if x + y >= pow2_128() {
            x + y - pow2_128()
        } else {
            x + y
        }) == (x + y) % pow2_128(),
{
    if x + y >= pow2_128() {
        lemma_fundamental_div_mod_converse_mod(x + y, pow2_128(), 1, x + y - pow2_128());
    } else {
        lemma_fundamental_div_mod_converse_mod(x + y, pow2_128(), 0, x + y);
    }
}

proof fn lemma_pow256_positive(i: nat)
    ensures
        pow256(i) > 0,
    decreases i,
{
    if i > 0 {
        lemma_pow256_positive((i - 1) as nat);
    }
}

proof fn lemma_and_below(x: u32, m: u32)
    ensures
        m & x <= m,
{
    assert(m & x <= m) by (bit_vector);
}

proof fn lemma_hash_blocks_prefix(r: Fe26, d1: Seq<u8>, d2: Seq<u8>, n: nat)
    requires
        16 * n <= d1.len(),
        16 * n <= d2.len(),
        d1.take(16 * n as int) == d2.take(16 * n as int),
    ensures
        hash_blocks(r, d1, n) == hash_blocks(r, d2, n),
    decreases n,
{
    if n > 0 {
        let k = (n - 1) as int;
        assert forall|i: int| 0 <= i < 16 * n implies d1[i] == d2[i] by {
            assert(d1[i] == d1.take(16 * n as int)[i]);
            assert(d2[i] == d2.take(16 * n as int)[i]);
        }
        assert(d1.take(16 * k) =~= d2.take(16 * k));
        assert(d1.subrange(16 * k, 16 * k + 16) =~= d2.subrange(16 * k, 16 * k + 16));
        lemma_hash_blocks_prefix(r, d1, d2, (n - 1) as nat);
    }
}

/// A streaming authenticator: the key, the accumulator over the full blocks
/// absorbed so far, and the bytes of a partial block not yet absorbed.
pub struct State {
    r: Fe26,
    h: Fe26,
    buf: [u8; 16],
    buf_used: usize,
    key: [u8; 32],
    absorbed: Ghost<Seq<u8>>,
}

impl State {
    /// The 32-byte key the state was made with.
    pub closed spec fn key_bytes(&self) -> Seq<u8> {
        self.key@
    }

    /// All the bytes handed to `update_internal` so far, in order.
    pub closed spec fn absorbed(&self) -> Seq<u8> {
        self.absorbed@
    }

    /// The state's invariant: the accumulator covers every full block of
    /// the absorbed bytes, the buffer holds the rest, and the multiplier is
    /// the one the key gives.
    pub closed spec fn wf(&self) -> bool {
        let data = self.absorbed@;
        let n = data.len() / 16;
        &&& self.buf_used < BLOCK_LEN
        &&& self.r == clamp_r(self.key@)
        &&& fe_below(self.r, 0x400_0000)
        &&& fe_below(self.h, 0x800_0000)
        &&& self.h == hash_blocks(self.r, data, n)
        &&& self.buf_used == data.len() % 16
        &&& forall|j: int| 0 <= j < self.buf_used ==> #[trigger] self.buf@[j] == data[16 * n + j]
    }

    /// Starts a computation under `key`: derives the multiplier from the
    /// first half of the key, keeps the second half for the end, and sets the
    /// accumulator to zero.
    pub fn new_context(key: Key) -> (st: State)
        ensures
            st.wf(),
            st.key_bytes() == key.key_and_nonce@,
            st.absorbed() == Seq::<u8>::empty(),
    {
        let k = key.key_and_nonce;
        let w0 = load32(&k, 0);
        let w3 = load32(&k, 3) / 4;
        let w6 = load32(&k, 6) / 16;
        let w9 = load32(&k, 9) / 64;
        let w12 = load32(&k, 12) / 256;
        let rv_01 = 0x3ffffffu32 & w0;
        let rv_23 = 0x3ffff03u32 & w3;
        let rv_45 = 0x3ffc0ffu32 & w6;
        let rv_67 = 0x3f03fffu32 & w9;
        let rv_89 = 0x00fffffu32 & w12;
        proof {
            lemma_and_below(w0, 0x3ffffffu32);
            lemma_and_below(w3, 0x3ffff03u32);
            lemma_and_below(w6, 0x3ffc0ffu32);
            lemma_and_below(w9, 0x3f03fffu32);
            lemma_and_below(w12, 0x00fffffu32);
        }
        let r = Fe26 {
            l0: rv_01 as u64,
            l1: rv_23 as u64,
            l2: rv_45 as u64,
            l3: rv_67 as u64,
            l4: rv_89 as u64,
        };
        State {
            r,
            h: Fe26 { l0: 0, l1: 0, l2: 0, l3: 0, l4: 0 },
            buf: [0u8; 16],
            buf_used: 0,
            key: k,
            absorbed: Ghost(Seq::empty()),
        }
    }

    fn absorb_byte(&mut self, b: u8)
        requires
            old(self).wf(),
        ensures
            final(self).wf(),
            final(self).key_bytes() == old(self).key_bytes(),
            final(self).absorbed() == old(self).absorbed().push(b),
    {
        let ghost data = self.absorbed@;
        let ghost data2 = data.push(b);
        let ghost n = data.len() / 16;
        let used = self.buf_used;
        self.buf[used] = b;
        self.absorbed = Ghost(data2);
        proof {
            assert(data2.take(16 * n as int) =~= data.take(16 * n as int));
            lemma_hash_blocks_prefix(self.r, data, data2, n);
        }
        if used + 1 == BLOCK_LEN {
            let m = load_block(&self.buf, FULL_BLOCK_BIT);
            self.h = mul_step(self.h, self.r, m);
            self.buf_used = 0;
            proof {
                assert(data2.len() / 16 == n + 1);
                assert(data2.subrange(16 * n as int, 16 * n as int + 16) =~= self.buf@);
            }
        } else {
            self.buf_used = used + 1;
            proof {
                assert(data2.len() / 16 == n);
            }
        }
    }

    /// Absorbs `input`. An empty input changes nothing; otherwise the bytes
    /// are taken in order, a block at a time, and a trailing partial block is
    /// kept for later.
    pub fn update_internal(&mut self, input: &[u8])
        requires
            old(self).wf(),
        ensures
            final(self).wf(),
            final(self).key_bytes() == old(self).key_bytes(),
            final(self).absorbed() == old(self).absorbed() + input@,
            input@.len() == 0 ==> *final(self) == *old(self),
    {
        if input.len() == 0 {
            return;
        }
        let mut i: usize = 0;
        while i < input.len()
            invariant
                i <= input@.len(),
                self.wf(),
                self.key_bytes() == old(self).key_bytes(),
                self.absorbed() == old(self).absorbed() + input@.take(i as int),
            decreases input@.len() - i,
        {
            self.absorb_byte(input[i]);
            proof {
                assert(input@.take(i + 1) =~= input@.take(i as int).push(input@[i as int]));
            }
            i += 1;
        }
        assert(input@.take(input@.len() as int) =~= input@);
    }

    /// Absorbs a trailing partial block, if any, and returns the tag. The
    /// state is consumed.
    pub fn finish(self) -> (tag: Tag)
        requires
            self.wf(),
        ensures
            tag.0@ == poly1305_tag(self.key_bytes(), self.absorbed()),
    {
        let ghost data = self.absorbed@;
        let ghost n = data.len() / 16;
        let mut h = self.h;
        let used = self.buf_used;
        if used > 0 {
            let mut block = [0u8; 16];
            let mut j: usize = 0;
            while j < used
                invariant
                    j <= used < 16,
                    forall|q: int| 0 <= q < j ==> #[trigger] block@[q] == self.buf@[q],
                    forall|q: int| j <= q < 16 ==> #[trigger] block@[q] == 0u8,
                decreases used - j,
            {
                block[j] = self.buf[j];
                j += 1;
            }
            block[used] = 1;
            proof {
                let rest = data.skip(16 * n as int);
                assert(block@ =~= pad_block(rest));
            }
            let m = load_block(&block, 0);
            h = mul_step(h, self.r, m);
        } else {
            proof {
                assert(data.skip(16 * n as int).len() == 0);
            }
        }
        let f = freeze_limbs(h);
        Tag(tag_bytes(f, &self.key))
    }
}

/// Handing a message to the state in chunks, one update per chunk in
/// order, absorbs the chunks' concatenation; so however the same bytes are
/// split into chunks (one chunk, a byte per chunk, or anything between), the
/// tag is the same.
pub proof fn lemma_tag_independent_of_chunking(
    key: Seq<u8>,
    chunks1: Seq<Seq<u8>>,
    chunks2: Seq<Seq<u8>>,
)
    requires
        chunks1.flatten() == chunks2.flatten(),
    ensures
        chunks1.flatten_alt() == chunks1.flatten(),
        poly1305_tag(key, chunks1.flatten_alt()) == poly1305_tag(key, chunks2.flatten_alt()),
{
    chunks1.lemma_flatten_and_flatten_alt_are_equivalent();
    chunks2.lemma_flatten_and_flatten_alt_are_equivalent();
}

/// Any number of empty updates absorb nothing, so they leave the tag that
/// a state with no update at all gives.
pub proof fn lemma_empty_updates_keep_tag(key: Seq<u8>, n: nat)
    ensures
        Seq::new(n, |i: int| Seq::<u8>::empty()).flatten_alt() == Seq::<u8>::empty(),
        poly1305_tag(key, Seq::new(n, |i: int| Seq::<u8>::empty()).flatten_alt()) == poly1305_tag(
            key,
            Seq::empty(),
        ),
    decreases n,
{
    let chunks = Seq::new(n, |i: int| Seq::<u8>::empty());
    if n > 0 {
        lemma_empty_updates_keep_tag(key, (n - 1) as nat);
        assert(chunks.drop_last() =~= Seq::new((n - 1) as nat, |i: int| Seq::<u8>::empty()));
        assert(chunks.flatten_alt() =~= Seq::<u8>::empty());
    }
}

} // verus!
