use crate::limb::LenMismatchError;
use vstd::prelude::*;

verus! {

/// The length that a destination-and-input check reports, if any: the
/// destination's is checked first, then the input's.
pub open spec fn ra_mismatch(r_len: nat, a_len: nat, expected_len: nat) -> Option<nat> {
    if r_len != expected_len {
        Some(r_len)
    } else if a_len != expected_len {
        Some(a_len)
    } else {
        None
    }
}

/// The length that a destination-and-two-inputs check reports, if any: the
/// second input's is checked first, then the other two as `ra_mismatch` does.
pub open spec fn rab_mismatch(r_len: nat, a_len: nat, b_len: nat, expected_len: nat) -> Option<nat> {
    if b_len != expected_len {
        Some(b_len)
    } else {
        ra_mismatch(r_len, a_len, expected_len)
    }
}

/// Checks that a destination `r` and an input `a` both hold `expected_len`
/// elements, so that an operation may then walk all of them in step. A
/// mismatch reports the first offending length.
pub fn check_ra_lens<T>(r: &[T], a: &[T], expected_len: usize) -> (res: Result<(), LenMismatchError>)
    ensures
        res.is_ok() <==> ra_mismatch(r@.len(), a@.len(), expected_len as nat) is None,
        res matches Err(e) ==> Some(e.spec_len() as nat) == ra_mismatch(
            r@.len(),
            a@.len(),
            expected_len as nat,
        ),
{
    if r.len() != expected_len {
        return Err(LenMismatchError::new(r.len()));
    }
    if a.len() != expected_len {
        return Err(LenMismatchError::new(a.len()));
    }
    Ok(())
}

/// Checks that a destination `r` and two inputs `a` and `b` all hold
/// `expected_len` elements: `b` first, then the pair as `check_ra_lens` does.
pub fn check_rab_lens<T>(r: &[T], a: &[T], b: &[T], expected_len: usize) -> (res: Result<(), LenMismatchError>)
    ensures
        res.is_ok() <==> rab_mismatch(r@.len(), a@.len(), b@.len(), expected_len as nat) is None,
        res matches Err(e) ==> Some(e.spec_len() as nat) == rab_mismatch(
            r@.len(),
            a@.len(),
            b@.len(),
            expected_len as nat,
        ),
{
    if b.len() != expected_len {
        return Err(LenMismatchError::new(b.len()));
    }
    check_ra_lens(r, a, expected_len)
}

} // verus!
