//! Constant-time limb arithmetic and the length-checked slice contracts it
//! rests on, together with the key-schedule and streaming-authenticator
//! lifecycles that drive portable symmetric primitives.

mod aead;
mod arithmetic;
mod limb;

pub use aead::aes::{
    expanded_word, gf_inv, gf_mul, key_bytes_view, lemma_key_schedule_deterministic, rcon,
    rounds_for, sbox, schedule_words, set_encrypt_key, AesKey, KeyBytes, MAX_SCHEDULE_WORDS,
};
pub use aead::poly1305::{
    block_step, clamp_r, freeze, hash_all, hash_blocks, lemma_empty_updates_keep_tag,
    lemma_tag_independent_of_chunking, le_bytes16, poly1305_tag, s_value, Fe26, Key, State, Tag,
    BLOCK_LEN, KEY_LEN, TAG_LEN,
};
pub use arithmetic::add::{
    lemma_reduce_once_is_mod, limbs_cmov, limbs_reduce_once, limbs_sub, mask_of, reduced_once,
    select_limb, sub_mismatch,
};
pub use arithmetic::inout::{check_ra_lens, check_rab_lens, ra_mismatch, rab_mismatch};
pub use limb::{
    lemma_limbs_value_bound, limb_base, limbs_value, radix_pow, LenMismatchError, Limb, LimbMask,
    LIMB_MASK_FALSE, LIMB_MASK_TRUE,
};
