use ring_core::{
    check_ra_lens, check_rab_lens, limbs_cmov, limbs_reduce_once, limbs_sub, LenMismatchError,
    LIMB_MASK_FALSE, LIMB_MASK_TRUE,
};

#[test]
fn sub_without_borrow() {
    let mut r = [0u64; 1];
    let mask = limbs_sub(&mut r, &[5], &[3]).unwrap();
    assert_eq!(r, [2]);
    assert_eq!(mask, LIMB_MASK_FALSE);
}

#[test]
fn sub_with_borrow_wraps() {
    let mut r = [0u64; 1];
    let mask = limbs_sub(&mut r, &[3], &[5]).unwrap();
    assert_eq!(r, [u64::MAX - 1]);
    assert_eq!(mask, LIMB_MASK_TRUE);
}

#[test]
fn sub_borrow_crosses_limbs() {
    let mut r = [7u64; 2];
    let mask = limbs_sub(&mut r, &[0, 1], &[1, 0]).unwrap();
    assert_eq!(r, [u64::MAX, 0]);
    assert_eq!(mask, LIMB_MASK_FALSE);
}

#[test]
fn sub_equal_values_give_zero() {
    let mut r = [9u64; 3];
    let a = [1u64, 2, 3];
    let mask = limbs_sub(&mut r, &a, &a).unwrap();
    assert_eq!(r, [0, 0, 0]);
    assert_eq!(mask, LIMB_MASK_FALSE);
}

#[test]
fn sub_full_width_underflow() {
    let mut r = [0u64; 2];
    let mask = limbs_sub(&mut r, &[0, 0], &[1, 0]).unwrap();
    assert_eq!(r, [u64::MAX, u64::MAX]);
    assert_eq!(mask, LIMB_MASK_TRUE);
}

#[test]
fn sub_rejects_empty_destination() {
    let mut r: [u64; 0] = [];
    let err = limbs_sub(&mut r, &[], &[]).unwrap_err();
    assert_eq!(err, LenMismatchError::new(0));
    assert_eq!(err.len(), 0);
}

#[test]
fn sub_rejects_mismatched_second_input() {
    let mut r = [4u64, 4];
    let err = limbs_sub(&mut r, &[1, 2], &[1, 2, 3]).unwrap_err();
    assert_eq!(err.len(), 3);
    assert_eq!(r, [4, 4]);
}

#[test]
fn sub_rejects_mismatched_first_input() {
    let mut r = [4u64, 4];
    let err = limbs_sub(&mut r, &[1], &[1, 2]).unwrap_err();
    assert_eq!(err.len(), 1);
    assert_eq!(r, [4, 4]);
}

#[test]
fn cmov_all_ones_copies() {
    let mut r = [1u64, 2, 3];
    limbs_cmov(&mut r, &[7, 8, 9], LIMB_MASK_TRUE).unwrap();
    assert_eq!(r, [7, 8, 9]);
}

#[test]
fn cmov_all_zero_keeps() {
    let mut r = [1u64, 2, 3];
    limbs_cmov(&mut r, &[7, 8, 9], LIMB_MASK_FALSE).unwrap();
    assert_eq!(r, [1, 2, 3]);
}

#[test]
fn cmov_empty_is_accepted() {
    let mut r: [u64; 0] = [];
    assert_eq!(limbs_cmov(&mut r, &[], LIMB_MASK_TRUE), Ok(()));
}

#[test]
fn cmov_rejects_mismatched_input() {
    let mut r = [1u64, 2];
    let err = limbs_cmov(&mut r, &[5], LIMB_MASK_TRUE).unwrap_err();
    assert_eq!(err.len(), 1);
    assert_eq!(r, [1, 2]);
}

#[test]
fn cmov_blends_bits_of_other_masks() {
    let mut r = [0xff00u64];
    limbs_cmov(&mut r, &[0x0ff0], 0x00ff).unwrap();
    assert_eq!(r, [0xfff0]);
}

#[test]
fn reduce_once_below_modulus_keeps_value() {
    let mut r = [0u64; 1];
    limbs_reduce_once(&mut r, &[5], &[7]).unwrap();
    assert_eq!(r, [5]);
}

#[test]
fn reduce_once_above_modulus_subtracts() {
    let mut r = [0u64; 1];
    limbs_reduce_once(&mut r, &[12], &[7]).unwrap();
    assert_eq!(r, [5]);
}

#[test]
fn reduce_once_equal_to_modulus_gives_zero() {
    let mut r = [3u64; 2];
    limbs_reduce_once(&mut r, &[7, 1], &[7, 1]).unwrap();
    assert_eq!(r, [0, 0]);
}

#[test]
fn reduce_once_multi_limb() {
    // a = 2^64 + 3, m = 2^64 - 1, a mod m = 4
    let mut r = [0u64; 2];
    limbs_reduce_once(&mut r, &[3, 1], &[u64::MAX, 0]).unwrap();
    assert_eq!(r, [4, 0]);
}

#[test]
fn reduce_once_gives_residue_for_all_small_values() {
    for m in 1u64..20 {
        for a in 0..2 * m {
            let mut r = [0u64; 1];
            limbs_reduce_once(&mut r, &[a], &[m]).unwrap();
            assert_eq!(r[0], a % m);
        }
    }
}

#[test]
fn reduce_once_rejects_empty() {
    let mut r: [u64; 0] = [];
    assert_eq!(limbs_reduce_once(&mut r, &[], &[]).unwrap_err().len(), 0);
}

#[test]
fn reduce_once_rejects_mismatched_modulus() {
    let mut r = [8u64];
    assert_eq!(limbs_reduce_once(&mut r, &[1], &[1, 1]).unwrap_err().len(), 2);
    assert_eq!(r, [8]);
}

#[test]
fn bridge_checks_destination_then_input() {
    assert_eq!(check_ra_lens(&[1u8, 2], &[3, 4], 2), Ok(()));
    assert_eq!(check_ra_lens(&[1u8], &[3, 4, 5], 2).unwrap_err().len(), 1);
    assert_eq!(check_ra_lens(&[1u8, 2], &[3, 4, 5], 2).unwrap_err().len(), 3);
}

#[test]
fn bridge_checks_second_input_first() {
    assert_eq!(check_rab_lens(&[1u8, 2], &[3, 4], &[5, 6], 2), Ok(()));
    assert_eq!(check_rab_lens(&[1u8], &[3], &[5, 6, 7], 2).unwrap_err().len(), 3);
    assert_eq!(check_rab_lens(&[1u8], &[3, 4], &[5, 6], 2).unwrap_err().len(), 1);
    assert_eq!(check_rab_lens(&[1u8, 2], &[3], &[5, 6], 2).unwrap_err().len(), 1);
}
