use ring_core::{Key, State, Tag};

const RFC_KEY: [u8; 32] = [
    0x85, 0xd6, 0xbe, 0x78, 0x57, 0x55, 0x6d, 0x33, 0x7f, 0x44, 0x52, 0xfe, 0x42, 0xd5, 0x06, 0xa8,
    0x01, 0x03, 0x80, 0x8a, 0xfb, 0x0d, 0xb2, 0xfd, 0x4a, 0xbf, 0xf6, 0xaf, 0x41, 0x49, 0xf5, 0x1b,
];

const RFC_TAG: [u8; 16] = [
    0xa8, 0x06, 0x1d, 0xc1, 0x30, 0x51, 0x36, 0xc6, 0xc2, 0x2b, 0x8b, 0xaf, 0x0c, 0x01, 0x27, 0xa9,
];

const RFC_MSG: &[u8] = b"Cryptographic Forum Research Group";

fn tag_of_chunks(key: [u8; 32], chunks: &[&[u8]]) -> Tag {
    let mut st = State::new_context(Key { key_and_nonce: key });
    for c in chunks {
        st.update_internal(c);
    }
    st.finish()
}

#[test]
fn known_answer_in_one_update() {
    assert_eq!(tag_of_chunks(RFC_KEY, &[RFC_MSG]).0, RFC_TAG);
}

#[test]
fn known_answer_one_byte_per_update() {
    let chunks: Vec<&[u8]> = RFC_MSG.chunks(1).collect();
    assert_eq!(tag_of_chunks(RFC_KEY, &chunks).0, RFC_TAG);
}

#[test]
fn chunk_boundaries_do_not_change_the_tag() {
    for split in 0..=RFC_MSG.len() {
        let (x, y) = RFC_MSG.split_at(split);
        assert_eq!(tag_of_chunks(RFC_KEY, &[x, y]).0, RFC_TAG);
    }
    let odd: Vec<&[u8]> = RFC_MSG.chunks(7).collect();
    assert_eq!(tag_of_chunks(RFC_KEY, &odd).0, RFC_TAG);
    let blocks: Vec<&[u8]> = RFC_MSG.chunks(16).collect();
    assert_eq!(tag_of_chunks(RFC_KEY, &blocks).0, RFC_TAG);
}

#[test]
fn empty_updates_leave_the_tag() {
    let none = tag_of_chunks(RFC_KEY, &[]);
    let some_empty = tag_of_chunks(RFC_KEY, &[b"", b"", b""]);
    assert_eq!(none.0, some_empty.0);
    let mixed = tag_of_chunks(RFC_KEY, &[b"", RFC_MSG, b""]);
    assert_eq!(mixed.0, RFC_TAG);
}

#[test]
fn empty_message_tag_is_the_addend() {
    let tag = tag_of_chunks(RFC_KEY, &[]);
    assert_eq!(tag.0[..], RFC_KEY[16..]);
}

#[test]
fn zero_key_gives_zero_tag() {
    let msg = [0u8; 64];
    assert_eq!(tag_of_chunks([0u8; 32], &[&msg]).0, [0u8; 16]);
}

#[test]
fn multiplier_of_one_sums_blocks() {
    // r = 1, s = 0: the tag is the sum of the padded blocks modulo 2^130 - 5,
    // low 128 bits; one block of the byte 2 gives 2 + 2^128, that is 2.
    let mut key = [0u8; 32];
    key[0] = 1;
    let mut msg = [0u8; 16];
    msg[0] = 2;
    let mut expected = [0u8; 16];
    expected[0] = 2;
    assert_eq!(tag_of_chunks(key, &[&msg]).0, expected);
}

#[test]
fn wraps_modulo_the_prime() {
    // r = 1, s = 0, one partial block of fifteen 0xff bytes: the padded
    // block is 2^121 - 1 + 2^120 ... below the prime, so it is the tag.
    let mut key = [0u8; 32];
    key[0] = 1;
    let msg = [0xffu8; 15];
    let mut expected = [0xffu8; 16];
    expected[15] = 0x01;
    assert_eq!(tag_of_chunks(key, &[&msg]).0, expected);
}
