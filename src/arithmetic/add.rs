use super::inout::{check_ra_lens, check_rab_lens, ra_mismatch, rab_mismatch};
use crate::limb::{
    lemma_limbs_value_bound, lemma_radix_pow_positive, limb_base, limbs_value, radix_pow,
    LenMismatchError, Limb, LimbMask, LIMB_MASK_FALSE, LIMB_MASK_TRUE,
};
use vstd::arithmetic::div_mod::{lemma_fundamental_div_mod_converse_mod, lemma_small_mod};
use vstd::prelude::*;

verus! {

/// The length that `limbs_sub` reports for the given slice lengths, if any:
/// an empty destination first, then the checks of `rab_mismatch`.
pub open spec fn sub_mismatch(r_len: nat, a_len: nat, b_len: nat) -> Option<nat> {
    if r_len == 0 {
        Some(0)
    } else {
        rab_mismatch(r_len, a_len, b_len, r_len)
    }
}

/// The mask that stands for `c`.
pub open spec fn mask_of(c: bool) -> LimbMask {
    if c {
        LIMB_MASK_TRUE
    } else {
        LIMB_MASK_FALSE
    }
}

/// One limb of a conditional select: `a` where `cond` has one bits, `r` where
/// it has zero bits.
pub open spec fn select_limb(r: Limb, a: Limb, cond: LimbMask) -> Limb {
    (a & cond) | (r & !cond)
}

/// `a` reduced once by `m`.
pub open spec fn reduced_once(a: nat, m: nat) -> nat {
    if a < m {
        a
    } else {
        (a - m) as nat
    }
}

proof fn lemma_limbs_value_push(s: Seq<Limb>, i: int)
    requires
        0 <= i < s.len(),
    ensures
        limbs_value(s.take(i + 1)) == limbs_value(s.take(i)) + s[i] * radix_pow(i as nat),
{
    assert(s.take(i + 1).drop_last() =~= s.take(i));
}

pub(crate) proof fn lemma_select_limb(r: Limb, a: Limb)
    ensures
        select_limb(r, a, LIMB_MASK_TRUE) == a,
        select_limb(r, a, LIMB_MASK_FALSE) == r,
{
    assert((a & 0xffff_ffff_ffff_ffffu64) | (r & !0xffff_ffff_ffff_ffffu64) == a) by (bit_vector);
    assert((a & 0u64) | (r & !0u64) == r) by (bit_vector);
}

/// Computes `r = a - b` over equal-length limb sequences read as integers,
/// modulo `radix_pow(n)`, and returns an all-ones mask exactly when the
/// subtraction borrowed, that is when `a < b`. The loop does the same work
/// whatever the limbs hold. An empty destination, or inputs whose length is
/// not the destination's, leave `r` as it was and report a length.
pub fn limbs_sub(r: &mut [Limb], a: &[Limb], b: &[Limb]) -> (res: Result<LimbMask, LenMismatchError>)
    ensures
        final(r)@.len() == old(r)@.len(),
        res.is_ok() <==> sub_mismatch(old(r)@.len(), a@.len(), b@.len()) is None,
        res matches Err(e) ==> Some(e.spec_len() as nat) == sub_mismatch(
            old(r)@.len(),
            a@.len(),
            b@.len(),
        ) && final(r)@ == old(r)@,
        res matches Ok(mask) ==> mask == mask_of(limbs_value(a@) < limbs_value(b@))
            && limbs_value(final(r)@) as int == (limbs_value(a@) - limbs_value(b@)) % (
        radix_pow(a@.len()) as int),
{
    let n = r.len();
    if n == 0 {
        return Err(LenMismatchError::new(n));
    }
    match check_rab_lens(r, a, b, n) {
        Ok(()) => {},
        Err(e) => {
            return Err(e);
        },
    }
    let mut borrow: u64 = 0;
    let mut i: usize = 0;
    while i < n
        invariant
            n == r@.len() == a@.len() == b@.len(),
            i <= n,
            borrow <= 1,
            limbs_value(a@.take(i as int)) - limbs_value(b@.take(i as int)) == limbs_value(
                r@.take(i as int),
            ) - borrow * radix_pow(i as nat),
        decreases n - i,
    {
        let t: u128 = (a[i] as u128) + 0x1_0000_0000_0000_0000u128 - (b[i] as u128) - (
        borrow as u128);
        let lo: u64 = (t % 0x1_0000_0000_0000_0000u128) as u64;
        let hi: u64 = (t / 0x1_0000_0000_0000_0000u128) as u64;
        let ghost prev = r@;
        let ghost c = borrow as int;
        r[i] = lo;
        borrow = 1 - hi;
        proof {
            let p = radix_pow(i as nat) as int;
            let d = a@[i as int] - b@[i as int] - c;
            assert(d == lo - borrow * limb_base());
            assert(d * p == lo * p - borrow * (limb_base() * p)) by (nonlinear_arith)
                requires
                    d == lo - borrow * limb_base(),
            ;
            assert(r@.take(i as int) =~= prev.take(i as int));
            lemma_limbs_value_push(a@, i as int);
            lemma_limbs_value_push(b@, i as int);
            lemma_limbs_value_push(r@, i as int);
            assert(a@[i as int] * p - b@[i as int] * p - c * p == d * p) by (nonlinear_arith)
                requires
                    d == a@[i as int] - b@[i as int] - c,
            ;
        }
        i += 1;
    }
    proof {
        assert(a@.take(n as int) =~= a@);
        assert(b@.take(n as int) =~= b@);
        assert(r@.take(n as int) =~= r@);
        lemma_limbs_value_bound(a@);
        lemma_limbs_value_bound(b@);
        lemma_limbs_value_bound(r@);
        lemma_radix_pow_positive(n as nat);
        let x = limbs_value(a@) - limbs_value(b@);
        let pn = radix_pow(n as nat) as int;
        assert(x == limbs_value(r@) - borrow * pn);
        if borrow == 0 {
            assert(x == 0 * pn + limbs_value(r@));
            lemma_fundamental_div_mod_converse_mod(x, pn, 0, limbs_value(r@) as int);
        } else {
            assert(x == (-1) * pn + limbs_value(r@));
            lemma_fundamental_div_mod_converse_mod(x, pn, -1, limbs_value(r@) as int);
        }
    }
    let mask: u64 = 0u64.wrapping_sub(borrow);
    assert(mask == mask_of(borrow == 1));
    Ok(mask)
}

/// Sets each limb of `r` to the corresponding limb of `a` where `cond` has
/// one bits and keeps it where `cond` has zero bits, with no branch on
/// `cond`: an all-ones mask copies `a`, an all-zero mask leaves `r` alone.
/// An empty `r` is accepted and nothing is done. An `a` whose length is not
/// `r`'s leaves `r` as it was and reports `a`'s length.
pub fn limbs_cmov(r: &mut [Limb], a: &[Limb], cond: LimbMask) -> (res: Result<(), LenMismatchError>)
    ensures
        final(r)@.len() == old(r)@.len(),
        res.is_ok() <==> a@.len() == old(r)@.len(),
        res matches Err(e) ==> e.spec_len() == a@.len() && final(r)@ == old(r)@,
        res is Ok ==> forall|j: int|
            0 <= j < old(r)@.len() ==> #[trigger] final(r)@[j] == select_limb(
                old(r)@[j],
                a@[j],
                cond,
            ),
        res is Ok && cond == LIMB_MASK_TRUE ==> final(r)@ == a@,
        res is Ok && cond == LIMB_MASK_FALSE ==> final(r)@ == old(r)@,
{
    let len = r.len();
    match check_ra_lens(r, a, len) {
        Ok(()) => {},
        Err(e) => {
            return Err(e);
        },
    }
    if len == 0 {
        return Ok(());
    }
    let ghost r0 = r@;
    let mut i: usize = 0;
    while i < len
        invariant
            len == r@.len() == a@.len() == r0.len(),
            i <= len,
            forall|j: int| 0 <= j < i ==> #[trigger] r@[j] == select_limb(r0[j], a@[j], cond),
            forall|j: int| i <= j < len ==> #[trigger] r@[j] == r0[j],
        decreases len - i,
    {
        let ai = a[i];
        let ri = r[i];
        r[i] = (ai & cond) | (ri & !cond);
        i += 1;
    }
    proof {
        if cond == LIMB_MASK_TRUE {
            assert forall|j: int| 0 <= j < len implies r@[j] == a@[j] by {
                lemma_select_limb(r0[j], a@[j]);
            }
            assert(r@ =~= a@);
        }
        if cond == LIMB_MASK_FALSE {
            assert forall|j: int| 0 <= j < len implies r@[j] == r0[j] by {
                lemma_select_limb(r0[j], a@[j]);
            }
            assert(r@ =~= r0);
        }
    }
    Ok(())
}

/// Computes `r = if a < m { a } else { a - m }` for equal-length limb
/// sequences without branching on the value of `a`: it subtracts `m` and then
/// restores `a` under the borrow mask. A malformed call is reported exactly
/// as `limbs_sub` reports it, and leaves `r` as it was.
pub fn limbs_reduce_once(r: &mut [Limb], a: &[Limb], m: &[Limb]) -> (res: Result<(), LenMismatchError>)
    ensures
        final(r)@.len() == old(r)@.len(),
        res.is_ok() <==> sub_mismatch(old(r)@.len(), a@.len(), m@.len()) is None,
        res matches Err(e) ==> Some(e.spec_len() as nat) == sub_mismatch(
            old(r)@.len(),
            a@.len(),
            m@.len(),
        ) && final(r)@ == old(r)@,
        res is Ok ==> limbs_value(final(r)@) == reduced_once(limbs_value(a@), limbs_value(m@)),
        res is Ok && limbs_value(a@) < limbs_value(m@) ==> final(r)@ == a@,
{
    let underflow = match limbs_sub(r, a, m) {
        Ok(mask) => mask,
        Err(e) => {
            return Err(e);
        },
    };
    let res = limbs_cmov(r, a, underflow);
    proof {
        let va = limbs_value(a@);
        let vm = limbs_value(m@);
        if va >= vm {
            lemma_limbs_value_bound(a@);
            lemma_small_mod((va - vm) as nat, radix_pow(a@.len()));
        }
    }
    res
}

/// Reducing once a value below twice the modulus leaves it below the modulus
/// and equal to the value modulo the modulus.
pub proof fn lemma_reduce_once_is_mod(a: Seq<Limb>, m: Seq<Limb>)
    requires
        a.len() == m.len(),
        limbs_value(a) < 2 * limbs_value(m),
    ensures
        reduced_once(limbs_value(a), limbs_value(m)) < limbs_value(m),
        reduced_once(limbs_value(a), limbs_value(m)) == limbs_value(a) % limbs_value(m),
{
    let va = limbs_value(a) as int;
    let vm = limbs_value(m) as int;
    if va < vm {
        lemma_fundamental_div_mod_converse_mod(va, vm, 0, va);
    } else {
        lemma_fundamental_div_mod_converse_mod(va, vm, 1, va - vm);
    }
}

} // verus!
