use ring_core::{set_encrypt_key, AesKey, KeyBytes};

fn expand(bytes: KeyBytes, fill: u32) -> AesKey {
    let mut key = AesKey { rd_key: [fill; 60], rounds: fill };
    set_encrypt_key(&mut key, bytes);
    key
}

const KEY_128: [u8; 16] = [
    0x2b, 0x7e, 0x15, 0x16, 0x28, 0xae, 0xd2, 0xa6, 0xab, 0xf7, 0x15, 0x88, 0x09, 0xcf, 0x4f, 0x3c,
];

const KEY_256: [u8; 32] = [
    0x60, 0x3d, 0xeb, 0x10, 0x15, 0xca, 0x71, 0xbe, 0x2b, 0x73, 0xae, 0xf0, 0x85, 0x7d, 0x77, 0x81,
    0x1f, 0x35, 0x2c, 0x07, 0x3b, 0x61, 0x08, 0xd7, 0x2d, 0x98, 0x10, 0xa3, 0x09, 0x14, 0xdf, 0xf4,
];

#[test]
fn expands_128_bit_key() {
    let key = expand(KeyBytes::AES_128(KEY_128), 0);
    assert_eq!(key.rounds, 10);
    assert_eq!(key.rd_key[0], 0x2b7e1516);
    assert_eq!(key.rd_key[4], 0xa0fafe17);
    assert_eq!(key.rd_key[5], 0x88542cb1);
    assert_eq!(key.rd_key[8], 0xf2c295f2);
    assert_eq!(key.rd_key[43], 0xb6630ca6);
    assert!(key.rd_key[44..].iter().all(|w| *w == 0));
}

#[test]
fn expands_256_bit_key() {
    let key = expand(KeyBytes::AES_256(KEY_256), 0);
    assert_eq!(key.rounds, 14);
    assert_eq!(key.rd_key[7], 0x0914dff4);
    assert_eq!(key.rd_key[8], 0x9ba35411);
    assert_eq!(key.rd_key[12], 0xa8b09c1a);
    assert_eq!(key.rd_key[59], 0x706c631e);
}

#[test]
fn schedule_does_not_depend_on_prior_contents() {
    let a = expand(KeyBytes::AES_128(KEY_128), 0);
    let b = expand(KeyBytes::AES_128(KEY_128), 0xdead_beef);
    assert_eq!(a.rd_key, b.rd_key);
    assert_eq!(a.rounds, b.rounds);
    let c = expand(KeyBytes::AES_256(KEY_256), 0);
    let d = expand(KeyBytes::AES_256(KEY_256), 0x1234_5678);
    assert_eq!(c.rd_key, d.rd_key);
    assert_eq!(c.rounds, d.rounds);
}
