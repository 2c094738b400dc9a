use vstd::prelude::*;

verus! {

/// One word of a little-endian multi-word integer.
pub type Limb = u64;

/// A branchless boolean: either all zero bits or all one bits.
pub type LimbMask = u64;

/// The mask that stands for `true`.
pub const LIMB_MASK_TRUE: u64 = 0xffff_ffff_ffff_ffff;

/// The mask that stands for `false`.
pub const LIMB_MASK_FALSE: u64 = 0;

/// Number of distinct values of one limb.
pub open spec fn limb_base() -> nat {
    0x1_0000_0000_0000_0000
}

/// `limb_base()` raised to the power `n`.
pub open spec fn radix_pow(n: nat) -> nat
    decreases n,
{
    if n == 0 {
        1
    } else {
        limb_base() * radix_pow((n - 1) as nat)
    }
}

/// The integer that a little-endian limb sequence represents.
pub open spec fn limbs_value(s: Seq<Limb>) -> nat
    decreases s.len(),
{
    if s.len() == 0 {
        0
    } else {
        (limbs_value(s.drop_last()) + s.last() * radix_pow((s.len() - 1) as nat)) as nat
    }
}

/// A slice had a length other than the one the operation needs.
#[derive(Clone, Copy, Debug, PartialEq, Eq)]
pub struct LenMismatchError {
    len: usize,
}

impl LenMismatchError {
    pub closed spec fn spec_len(&self) -> usize {
        self.len
    }

    /// An error that reports the offending length `len`.
    pub fn new(len: usize) -> (r: Self)
        ensures
            r.spec_len() == len,
    {
        LenMismatchError { len }
    }

    /// The offending length.
    pub fn len(&self) -> (r: usize)
        ensures
            r == self.spec_len(),
    {
        self.len
    }
}

pub proof fn lemma_radix_pow_positive(n: nat)
    ensures
        radix_pow(n) > 0,
    decreases n,
{
    if n > 0 {
        lemma_radix_pow_positive((n - 1) as nat);
        assert(limb_base() * radix_pow((n - 1) as nat) > 0) by (nonlinear_arith)
            requires radix_pow((n - 1) as nat) > 0;
    }
}

/// A sequence of `n` limbs represents an integer below `radix_pow(n)`.
pub proof fn lemma_limbs_value_bound(s: Seq<Limb>)
    ensures
        limbs_value(s) < radix_pow(s.len()),
    decreases s.len(),
{
    if s.len() > 0 {
        let n = (s.len() - 1) as nat;
        lemma_limbs_value_bound(s.drop_last());
        let p = radix_pow(n);
        let x = s.last() as int;
        assert(limbs_value(s.drop_last()) + x * p < limb_base() * p) by (nonlinear_arith)
            requires
                limbs_value(s.drop_last()) < p,
                0 <= x < limb_base(),
        ;
    }
}

} // verus!
