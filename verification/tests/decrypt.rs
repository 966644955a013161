use blowfish_compat::BLOCK_SIZE;
use blowfish_compat::BlowfishCompat;
use blowfish_compat::InvalidKeyLength;
use blowfish_compat::VecSink;
use blowfish_compat::VecSource;
use blowfish_compat::add_padding;
use blowfish_compat::decrypt_in_place;
use blowfish_compat::decrypt_stream;
use blowfish_compat::drain_tail;

const KEY: &[u8] = b"legacy-tool-key!";

/// Plaintext laid out as the legacy tool frames it: payload, zero
/// padding to the block size, then the 8-byte trailer block preceded
/// by the 3-byte zero marker.
fn legacy_plaintext() -> Vec<u8> {
    let mut plain = b"ABCDEFGHIJKLM".to_vec();
    plain.extend_from_slice(&[0, 0, 0]);
    plain.extend_from_slice(&[9, 9, 9, 9, 9, 9, 9, 13]);
    plain
}

/// The corresponding ciphertext, produced block by block with the
/// compatibility cipher.
fn legacy_ciphertext() -> Vec<u8> {
    let cipher = BlowfishCompat::new_varkey(KEY).unwrap();
    let plain = legacy_plaintext();
    let mut out = Vec::new();
    for chunk in plain.chunks(BLOCK_SIZE) {
        let mut block = chunk.to_vec();
        cipher.encrypt_block(&mut block);
        out.extend_from_slice(&block);
    }
    out
}

#[test]
fn decrypt_inplace() {
    let mut buf = legacy_ciphertext();
    add_padding(&mut buf);
    decrypt_in_place(&mut buf, KEY).unwrap();
    drain_tail(&mut buf);
    assert_eq!(buf, legacy_plaintext()[..16].to_vec());
}

#[test]
fn decrypt_streammed() {
    let mut source = VecSource::new(legacy_ciphertext());
    let mut sink = VecSink::new();
    decrypt_stream(&mut source, KEY, &mut sink).unwrap();
    let mut buf = sink.into_vec();
    drain_tail(&mut buf);
    assert_eq!(buf, legacy_plaintext()[..16].to_vec());
}

#[test]
fn stream_matches_in_place() {
    let ciphertext = legacy_ciphertext();

    let mut buf = ciphertext.clone();
    decrypt_in_place(&mut buf, KEY).unwrap();

    let mut source = VecSource::new(ciphertext);
    let mut sink = VecSink::new();
    decrypt_stream(&mut source, KEY, &mut sink).unwrap();

    assert_eq!(buf, sink.into_vec());
}

#[test]
fn stream_stops_at_short_tail() {
    let mut ciphertext = legacy_ciphertext();
    let mut head = ciphertext[..8].to_vec();
    ciphertext.truncate(11);

    let mut source = VecSource::new(ciphertext);
    let mut sink = VecSink::new();
    decrypt_stream(&mut source, KEY, &mut sink).unwrap();

    decrypt_in_place(&mut head, KEY).unwrap();
    assert_eq!(sink.into_vec(), head);
}

#[test]
fn decrypt_in_place_rejects_bad_key() {
    let mut buf = legacy_ciphertext();
    let before = buf.clone();
    assert_eq!(decrypt_in_place(&mut buf, &[]), Err(InvalidKeyLength));
    assert_eq!(buf, before);
}

#[test]
fn decrypt_stream_rejects_bad_key() {
    let mut source = VecSource::new(legacy_ciphertext());
    let mut sink = VecSink::new();
    assert_eq!(
        decrypt_stream(&mut source, &[0u8; 57], &mut sink),
        Err(InvalidKeyLength)
    );
    assert_eq!(sink.into_vec(), Vec::<u8>::new());
}
