use blowfish_compat::BlowfishCompat;
use blowfish_compat::add_padding;
use blowfish_compat::drain_tail;
use blowfish_compat::reverse_words;

#[test]
fn reverse_words_swaps_each_word() {
    let mut buf = b"12345678".to_vec();
    reverse_words(&mut buf);
    assert_eq!(buf, b"43218765".to_vec());
}

#[test]
fn reverse_words_short_tail() {
    let mut buf = vec![1u8, 2, 3, 4, 5, 6];
    reverse_words(&mut buf);
    assert_eq!(buf, vec![4u8, 3, 2, 1, 6, 5]);

    let mut tail = vec![1u8, 2, 3];
    reverse_words(&mut tail);
    assert_eq!(tail, vec![3u8, 2, 1]);
}

#[test]
fn reverse_words_empty() {
    let mut buf = Vec::new();
    reverse_words(&mut buf);
    assert_eq!(buf, Vec::<u8>::new());
}

#[test]
fn reverse_words_twice_restores() {
    let original: Vec<u8> = (0u8..20).collect();
    let mut buf = original.clone();
    reverse_words(&mut buf);
    assert_ne!(buf, original);
    reverse_words(&mut buf);
    assert_eq!(buf, original);
}

#[test]
fn key_length_boundaries() {
    assert!(BlowfishCompat::new_varkey(&[]).is_err());
    assert!(BlowfishCompat::new_varkey(&[7u8; 57]).is_err());
    assert!(BlowfishCompat::new_varkey(&[7u8; 1]).is_ok());
    assert!(BlowfishCompat::new_varkey(&[7u8; 2]).is_ok());
    assert!(BlowfishCompat::new_varkey(&[7u8; 3]).is_ok());
    assert!(BlowfishCompat::new_varkey(&[7u8; 4]).is_ok());
    assert!(BlowfishCompat::new_varkey(&[7u8; 56]).is_ok());
}

// The primitive reads key bytes cyclically, so a short key and that key
// repeated whole derive the same schedule; these pin the extension the
// constructor performs for keys below the primitive's 4-byte floor.

#[test]
fn short_key_matches_whole_repetition() {
    let pairs: [(&[u8], &[u8]); 3] = [
        (&[0x4B], &[0x4B, 0x4B, 0x4B, 0x4B]),
        (&[5, 6], &[5, 6, 5, 6]),
        (&[1, 2, 3], &[1, 2, 3, 1, 2, 3]),
    ];
    for (short, repeated) in pairs {
        let a = BlowfishCompat::new_varkey(short).unwrap();
        let b = BlowfishCompat::new_varkey(repeated).unwrap();
        let mut x = b"8 bytes!".to_vec();
        let mut y = x.clone();
        a.encrypt_block(&mut x);
        b.encrypt_block(&mut y);
        assert_eq!(x, y);
    }
}

#[test]
fn one_byte_key_round_trip() {
    let cipher = BlowfishCompat::new_varkey(&[0xA5]).unwrap();
    let original = b"LEGACY!!".to_vec();
    let mut block = original.clone();
    cipher.encrypt_block(&mut block);
    assert_ne!(block, original);
    cipher.decrypt_block(&mut block);
    assert_eq!(block, original);
}

#[test]
fn new_full_key_matches_varkey() {
    let key = [42u8; 56];
    let a = BlowfishCompat::new(&key);
    let b = BlowfishCompat::new_varkey(&key).unwrap();

    let mut x = b"8 bytes!".to_vec();
    let mut y = x.clone();
    a.encrypt_block(&mut x);
    b.encrypt_block(&mut y);
    assert_eq!(x, y);
}

#[test]
fn cipher_round_trip() {
    let cipher = BlowfishCompat::new_varkey(b"TESTKEY.").unwrap();
    for seed in 0u8..5 {
        let original: Vec<u8> = (0u8..8).map(|i| i.wrapping_mul(37).wrapping_add(seed)).collect();
        let mut block = original.clone();
        cipher.encrypt_block(&mut block);
        assert_ne!(block, original);
        cipher.decrypt_block(&mut block);
        assert_eq!(block, original);
    }
}

#[test]
fn encrypt_after_decrypt_restores() {
    let cipher = BlowfishCompat::new_varkey(b"anotherkey").unwrap();
    let original = b"\x01\x02\x03\x04\x05\x06\x07\x08".to_vec();
    let mut block = original.clone();
    cipher.decrypt_block(&mut block);
    cipher.encrypt_block(&mut block);
    assert_eq!(block, original);
}

// Classic single-block Blowfish test vectors, rewritten in the
// word-swapped compatibility byte order: canonical
// enc(00..00, 00..00) = 4EF9 9745 6198 DD78 and
// enc(FF..FF, FF..FF) = 5186 6FD5 B85E CB8A.

#[test]
fn known_vector_zero_key() {
    let cipher = BlowfishCompat::new_varkey(&[0u8; 8]).unwrap();
    let mut block = vec![0u8; 8];
    cipher.encrypt_block(&mut block);
    assert_eq!(block, vec![0x45u8, 0x97, 0xF9, 0x4E, 0x78, 0xDD, 0x98, 0x61]);

    let mut back = block.clone();
    cipher.decrypt_block(&mut back);
    assert_eq!(back, vec![0u8; 8]);
}

#[test]
fn known_vector_ff_key() {
    let cipher = BlowfishCompat::new_varkey(&[0xFFu8; 8]).unwrap();
    let mut block = vec![0xFFu8; 8];
    cipher.encrypt_block(&mut block);
    assert_eq!(block, vec![0xD5u8, 0x6F, 0x86, 0x51, 0x8A, 0xCB, 0x5E, 0xB8]);

    let mut back = block.clone();
    cipher.decrypt_block(&mut back);
    assert_eq!(back, vec![0xFFu8; 8]);
}

#[test]
fn add_padding_aligned_unchanged() {
    let mut buf = vec![5u8; 16];
    add_padding(&mut buf);
    assert_eq!(buf, vec![5u8; 16]);

    let mut empty = Vec::new();
    add_padding(&mut empty);
    assert_eq!(empty, Vec::<u8>::new());
}

#[test]
fn add_padding_pads_with_zeros() {
    let mut buf = vec![7u8; 13];
    add_padding(&mut buf);
    assert_eq!(buf.len(), 16);
    assert_eq!(&buf[..13], &[7u8; 13][..]);
    assert_eq!(&buf[13..], &[0u8, 0, 0][..]);

    let mut one = vec![9u8];
    add_padding(&mut one);
    assert_eq!(one, vec![9u8, 0, 0, 0, 0, 0, 0, 0]);
}

#[test]
fn drain_tail_strips_trailer() {
    let mut buf = vec![1u8, 2, 3, 4, 5, 0, 0, 0, 6, 7, 8, 9, 10, 11, 12, 13];
    drain_tail(&mut buf);
    assert_eq!(buf, vec![1u8, 2, 3, 4, 5, 0, 0, 0]);
}

#[test]
fn drain_tail_without_marker_is_noop() {
    let buf_before = vec![1u8, 2, 3, 4, 5, 1, 0, 0, 6, 7, 8, 9, 10, 11, 12, 13];
    let mut buf = buf_before.clone();
    drain_tail(&mut buf);
    assert_eq!(buf, buf_before);
}
