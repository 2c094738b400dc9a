//! Key-schedule setup for the block cipher, one expansion per supported key
//! size. The substitution box is computed as the affine map of the inverse
//! in GF(2^8), with no table indexed by key bytes.

use vstd::prelude::*;

verus! {

/// Number of 32-bit words in the largest expanded key schedule.
pub const MAX_SCHEDULE_WORDS: usize = 60;

/// A cipher key of one of the supported sizes.
#[allow(non_camel_case_types)]
pub enum KeyBytes {
    AES_128([u8; 16]),
    AES_256([u8; 32]),
}

/// An expanded key schedule: the round-key words, then zero words up to the
/// largest size, and the number of rounds.
pub struct AesKey {
    pub rd_key: [u32; 60],
    pub rounds: u32,
}

/// Multiplication by `x` in GF(2^8) modulo x^8 + x^4 + x^3 + x + 1.
pub open spec fn xtime(a: u8) -> u8 {
    if a & 0x80 == 0 {
        a << 1u8
    } else {
        (a << 1u8) ^ 0x1b
    }
}

/// Shift-and-add multiplication in GF(2^8), `n` bits of `b` still to go,
/// with `p` the product so far.
pub open spec fn gf_mul_acc(a: u8, b: u8, p: u8, n: nat) -> u8
    decreases n,
{
    if n == 0 {
        p
    } else {
        let p2 = if b & 1 == 1 {
            p ^ a
        } else {
            p
        };
        gf_mul_acc(xtime(a), b >> 1u8, p2, (n - 1) as nat)
    }
}

/// The product of `a` and `b` in GF(2^8).
pub open spec fn gf_mul(a: u8, b: u8) -> u8 {
    gf_mul_acc(a, b, 0, 8)
}

/// `x^254`, the multiplicative inverse of `x` in GF(2^8) (zero for zero).
pub open spec fn gf_inv(x: u8) -> u8 {
    let x2 = gf_mul(x, x);
    let x4 = gf_mul(x2, x2);
    let x8 = gf_mul(x4, x4);
    let x16 = gf_mul(x8, x8);
    let x32 = gf_mul(x16, x16);
    let x64 = gf_mul(x32, x32);
    let x128 = gf_mul(x64, x64);
    gf_mul(gf_mul(gf_mul(gf_mul(gf_mul(gf_mul(x2, x4), x8), x16), x32), x64), x128)
}

pub open spec fn rotl8(b: u8, n: u8) -> u8 {
    (b << n) | (b >> (8 - n) as u8)
}

/// The substitution box: the inverse followed by the affine map.
pub open spec fn sbox(x: u8) -> u8 {
    let b = gf_inv(x);
    b ^ rotl8(b, 1) ^ rotl8(b, 2) ^ rotl8(b, 3) ^ rotl8(b, 4) ^ 0x63
}

/// The byte of `w` at big-endian position `i`.
pub open spec fn word_byte(w: u32, i: int) -> u8 {
    ((w >> (24 - 8 * i) as u32) & 0xff) as u8
}

pub open spec fn make_word(b0: u8, b1: u8, b2: u8, b3: u8) -> u32 {
    ((b0 as u32) << 24u32) | ((b1 as u32) << 16u32) | ((b2 as u32) << 8u32) | (b3 as u32)
}

pub open spec fn sub_word(w: u32) -> u32 {
    make_word(sbox(word_byte(w, 0)), sbox(word_byte(w, 1)), sbox(word_byte(w, 2)), sbox(word_byte(w, 3)))
}

pub open spec fn rot_word(w: u32) -> u32 {
    (w << 8u32) | (w >> 24u32)
}

/// The round constant of round `j`: `x^(j - 1)` in GF(2^8).
pub open spec fn rcon(j: nat) -> u8
    decreases j,
{
    if j <= 1 {
        1
    } else {
        xtime(rcon((j - 1) as nat))
    }
}

/// Word `i` of the key whose bytes are `key`, read big-endian.
pub open spec fn key_word(key: Seq<u8>, i: int) -> u32 {
    make_word(key[4 * i], key[4 * i + 1], key[4 * i + 2], key[4 * i + 3])
}

/// Word `i` of the schedule expanded from a key of `nk` words.
pub open spec fn expanded_word(key: Seq<u8>, nk: nat, i: nat) -> u32
    decreases i,
{
    if nk == 0 || i < nk {
        key_word(key, i as int)
    } else {
        let temp = expanded_word(key, nk, (i - 1) as nat);
        let t = if i % nk == 0 {
            sub_word(rot_word(temp)) ^ ((rcon(i / nk) as u32) << 24u32)
        } else if nk > 6 && i % nk == 4 {
            sub_word(temp)
        } else {
            temp
        };
        expanded_word(key, nk, (i - nk) as nat) ^ t
    }
}

/// Number of rounds for a key of `nk` words.
pub open spec fn rounds_for(nk: nat) -> nat {
    nk + 6
}

/// The whole schedule record for a key of `nk` words: the round-key words,
/// then zero words.
pub open spec fn schedule_words(key: Seq<u8>, nk: nat) -> Seq<u32> {
    Seq::new(
        MAX_SCHEDULE_WORDS as nat,
        |i: int|
            if i < 4 * (rounds_for(nk) + 1) {
                expanded_word(key, nk, i as nat)
            } else {
                0u32
            },
    )
}

pub open spec fn key_bytes_view(bytes: KeyBytes) -> (Seq<u8>, nat) {
    match bytes {
        KeyBytes::AES_128(b) => (b@, 4),
        KeyBytes::AES_256(b) => (b@, 8),
    }
}

proof fn lemma_xtime_bits(a: u8)
    ensures
        a >> 7u8 <= 1,
        (a >> 7u8 == 0) == (a & 0x80 == 0),
        (a << 1u8) ^ (0x1bu8 & 0u8) == a << 1u8,
        (a << 1u8) ^ (0x1bu8 & 0xffu8) == (a << 1u8) ^ 0x1b,
{
    assert(a >> 7u8 <= 1) by (bit_vector);
    assert((a >> 7u8 == 0) == (a & 0x80 == 0)) by (bit_vector);
    assert((a << 1u8) ^ (0x1bu8 & 0u8) == a << 1u8) by (bit_vector);
    assert((a << 1u8) ^ (0x1bu8 & 0xffu8) == (a << 1u8) ^ 0x1b) by (bit_vector);
}

fn xtime_exec(a: u8) -> (r: u8)
    ensures
        r == xtime(a),
{
    proof {
        lemma_xtime_bits(a);
    }
    let mask = 0u8.wrapping_sub(a >> 7u8);
    (a << 1u8) ^ (0x1bu8 & mask)
}

proof fn lemma_low_bit(a: u8, b: u8)
    ensures
        b & 1 <= 1,
        a & 0u8 == 0,
        a & 0xffu8 == a,
        a ^ 0u8 == a,
{
    assert(b & 1 <= 1) by (bit_vector);
    assert(a & 0u8 == 0) by (bit_vector);
    assert(a & 0xffu8 == a) by (bit_vector);
    assert(a ^ 0u8 == a) by (bit_vector);
}

/// Multiplies in GF(2^8) with the same steps whatever the operands hold.
fn gf_mul_exec(a: u8, b: u8) -> (r: u8)
    ensures
        r == gf_mul(a, b),
{
    let mut x = a;
    let mut y = b;
    let mut p: u8 = 0;
    let mut k: usize = 0;
    while k < 8
        invariant
            k <= 8,
            gf_mul_acc(x, y, p, (8 - k) as nat) == gf_mul(a, b),
        decreases 8 - k,
    {
        proof {
            lemma_low_bit(x, y);
            lemma_low_bit(p, y);
        }
        let mask = 0u8.wrapping_sub(y & 1);
        p = p ^ (x & mask);
        x = xtime_exec(x);
        y = y >> 1u8;
        k += 1;
    }
    p
}

fn sbox_exec(x: u8) -> (r: u8)
    ensures
        r == sbox(x),
{
    let x2 = gf_mul_exec(x, x);
    let x4 = gf_mul_exec(x2, x2);
    let x8 = gf_mul_exec(x4, x4);
    let x16 = gf_mul_exec(x8, x8);
    let x32 = gf_mul_exec(x16, x16);
    let x64 = gf_mul_exec(x32, x32);
    let x128 = gf_mul_exec(x64, x64);
    let t = gf_mul_exec(x2, x4);
    let t = gf_mul_exec(t, x8);
    let t = gf_mul_exec(t, x16);
    let t = gf_mul_exec(t, x32);
    let t = gf_mul_exec(t, x64);
    let b = gf_mul_exec(t, x128);
    b ^ ((b << 1u8) | (b >> 7u8)) ^ ((b << 2u8) | (b >> 6u8)) ^ ((b << 3u8) | (b >> 5u8)) ^ ((b
        << 4u8) | (b >> 4u8)) ^ 0x63
}

fn make_word_exec(b0: u8, b1: u8, b2: u8, b3: u8) -> (w: u32)
    ensures
        w == make_word(b0, b1, b2, b3),
{
    ((b0 as u32) << 24u32) | ((b1 as u32) << 16u32) | ((b2 as u32) << 8u32) | (b3 as u32)
}

fn sub_word_exec(w: u32) -> (r: u32)
    ensures
        r == sub_word(w),
{
    let b0 = sbox_exec(((w >> 24u32) & 0xff) as u8);
    let b1 = sbox_exec(((w >> 16u32) & 0xff) as u8);
    let b2 = sbox_exec(((w >> 8u32) & 0xff) as u8);
    let b3 = sbox_exec(((w >> 0u32) & 0xff) as u8);
    make_word_exec(b0, b1, b2, b3)
}

fn rcon_exec(j: usize) -> (r: u8)
    ensures
        r == rcon(j as nat),
{
    let mut c: u8 = 1;
    let mut k: usize = 1;
    while k < j
        invariant
            1 <= k,
            k <= j || k == 1,
            c == rcon(k as nat),
        decreases j - k,
    {
        c = xtime_exec(c);
        k += 1;
    }
    assert(rcon(0) == 1 && rcon(1) == 1);
    c
}

/// Expands a key of `nk` words into the schedule record's words.
fn expand_key(key: &[u8], nk: usize) -> (w: [u32; 60])
    requires
        nk == 4 || nk == 8,
        key@.len() == 4 * nk,
    ensures
        w@ == schedule_words(key@, nk as nat),
{
    let total: usize = 4 * (nk + 7);
    let mut w = [0u32; 60];
    let mut i: usize = 0;
    while i < total
        invariant
            nk == 4 || nk == 8,
            key@.len() == 4 * nk,
            total == 4 * (rounds_for(nk as nat) + 1),
            i <= total,
            forall|j: int| 0 <= j < i ==> #[trigger] w@[j] == expanded_word(key@, nk as nat, j as nat),
            forall|j: int| i <= j < 60 ==> #[trigger] w@[j] == 0u32,
        decreases total - i,
    {
        let word = if i < nk {
            make_word_exec(key[4 * i], key[4 * i + 1], key[4 * i + 2], key[4 * i + 3])
        } else {
            let temp = w[i - 1];
            let t = if i % nk == 0 {
                sub_word_exec((temp << 8u32) | (temp >> 24u32)) ^ ((rcon_exec(i / nk) as u32) << 24u32)
            } else if nk > 6 && i % nk == 4 {
                sub_word_exec(temp)
            } else {
                temp
            };
            w[i - nk] ^ t
        };
        w[i] = word;
        i += 1;
    }
    assert(w@ =~= schedule_words(key@, nk as nat));
    w
}

/// Fills `key` with the schedule expanded from `bytes`, for whichever size
/// `bytes` holds. What `key` held before has no bearing on the result.
pub fn set_encrypt_key(key: &mut AesKey, bytes: KeyBytes)
    ensures
        final(key).rd_key@ == schedule_words(key_bytes_view(bytes).0, key_bytes_view(bytes).1),
        final(key).rounds == rounds_for(key_bytes_view(bytes).1),
{
    match bytes {
        KeyBytes::AES_128(b) => {
            key.rd_key = expand_key(&b, 4);
            key.rounds = 10;
        },
        KeyBytes::AES_256(b) => {
            key.rd_key = expand_key(&b, 8);
            key.rounds = 14;
        },
    }
}

/// Two schedule records that `set_encrypt_key` filled from the same key
/// bytes are identical, whatever either record held before.
pub proof fn lemma_key_schedule_deterministic(bytes: KeyBytes, k1: AesKey, k2: AesKey)
    requires
        k1.rd_key@ == schedule_words(key_bytes_view(bytes).0, key_bytes_view(bytes).1),
        k1.rounds == rounds_for(key_bytes_view(bytes).1),
        k2.rd_key@ == schedule_words(key_bytes_view(bytes).0, key_bytes_view(bytes).1),
        k2.rounds == rounds_for(key_bytes_view(bytes).1),
    ensures
        k1.rd_key == k2.rd_key,
        k1.rounds == k2.rounds,
{
    assert(k1.rd_key@ =~= k2.rd_key@);
}

} // verus!
