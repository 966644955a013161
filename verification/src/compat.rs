//! The compatibility cipher: Blowfish with word-swapped block bytes.
//!
//! The legacy tool wrote each cipher block with the bytes of its two
//! 32-bit words reversed. `BlowfishCompat` reproduces that convention
//! by reversing the words of a block before and after every operation
//! of the wrapped big-endian primitive.

use vstd::prelude::*;
use crate::raw_cipher::RawCipher;
use crate::raw_cipher::bf_new;
use crate::raw_cipher::bf_encrypt_block;
use crate::raw_cipher::bf_decrypt_block;
use crate::raw_cipher::schedule_key;
use crate::raw_cipher::bf_enc;
use crate::raw_cipher::bf_dec;
use crate::words::reverse_words;
use crate::words::reverse_words_spec;
use crate::words::lemma_reverse_words_involution;

verus! {

/// Error: the key handed to cipher construction was outside the
/// accepted range (1 through 56 bytes).
#[derive(Clone, Copy, PartialEq, Eq, Structural, Debug)]
pub struct InvalidKeyLength;

/// Whether a cipher can be constructed from a key of length `n`.
pub open spec fn key_len_valid(n: int) -> bool {
    1 <= n <= 56
}

/// The key the schedule is derived from. The primitive reads key bytes
/// cyclically, so repeating a key whole derives the identical schedule;
/// a key shorter than the primitive's 4-byte floor is therefore
/// extended by whole repetition, and the legacy range of 1 through 56
/// bytes stays accepted, bit-for-bit compatible.
pub open spec fn effective_key(k: Seq<u8>) -> Seq<u8> {
    if k.len() == 1 {
        k + k + k + k
    } else if 2 <= k.len() <= 3 {
        k + k
    } else {
        k
    }
}

/// Compatibility-mode encryption of one 8-byte block: word-reverse,
/// encrypt with the canonical cipher, word-reverse again.
pub open spec fn compat_enc(key: Seq<u8>, block: Seq<u8>) -> Seq<u8> {
    reverse_words_spec(bf_enc(key, reverse_words_spec(block)))
}

/// Compatibility-mode decryption of one 8-byte block: word-reverse,
/// decrypt with the canonical cipher, word-reverse again.
pub open spec fn compat_dec(key: Seq<u8>, block: Seq<u8>) -> Seq<u8> {
    reverse_words_spec(bf_dec(key, reverse_words_spec(block)))
}

/// Wrapper around the Blowfish primitive that speaks the legacy
/// word-swapped byte order. Immutable after construction: both block
/// operations only read the derived schedule.
pub struct BlowfishCompat {
    inner: RawCipher,
}

impl BlowfishCompat {
    /// The key this instance derived its schedule from.
    pub closed spec fn key(&self) -> Seq<u8> {
        schedule_key(self.inner)
    }

    /// Derives a cipher from a variable-length key of 1 through 56
    /// bytes; rejects an empty key and one longer than 56 bytes. A key
    /// shorter than the primitive's 4-byte floor is first extended by
    /// whole repetition, which the primitive's cyclic key read maps to
    /// the same schedule the legacy tool derived.
    pub fn new_varkey(key: &[u8]) -> (r: Result<Self, InvalidKeyLength>)
        ensures
            (r is Ok) <==> key_len_valid(key@.len() as int),
            r matches Ok(c) ==> c.key() == effective_key(key@),
    {
        let klen = key.len();
        let mut ext: Vec<u8> = Vec::new();
        ext.extend_from_slice(key);
        if 1 <= klen && klen <= 3 {
            ext.extend_from_slice(key);
            if klen == 1 {
                ext.extend_from_slice(key);
                ext.extend_from_slice(key);
            }
        }
        proof {
            assert(ext@ =~= effective_key(key@));
        }
        match bf_new(ext.as_slice()) {
            Some(inner) => Ok(BlowfishCompat { inner }),
            None => Err(InvalidKeyLength),
        }
    }

    /// Derives a cipher from a full-length 56-byte key.
    pub fn new(key: &[u8]) -> (r: Self)
        requires
            key@.len() == 56,
        ensures
            r.key() == key@,
    {
        Self::new_varkey(key).unwrap()
    }

    /// Encrypts one 8-byte block in place, in the legacy byte order:
    /// decrypting the result under the same key restores the block.
    pub fn encrypt_block(&self, block: &mut Vec<u8>)
        requires
            old(block)@.len() == 8,
        ensures
            final(block)@ == compat_enc(self.key(), old(block)@),
            final(block)@.len() == 8,
            compat_dec(self.key(), final(block)@) == old(block)@,
    {
        let ghost x = old(block)@;
        reverse_words(block);
        bf_encrypt_block(&self.inner, block);
        let ghost mid = block@;
        reverse_words(block);
        proof {
            lemma_reverse_words_involution(x);
            lemma_reverse_words_involution(mid);
        }
    }

    /// Decrypts one 8-byte block in place, in the legacy byte order:
    /// encrypting the result under the same key restores the block.
    pub fn decrypt_block(&self, block: &mut Vec<u8>)
        requires
            old(block)@.len() == 8,
        ensures
            final(block)@ == compat_dec(self.key(), old(block)@),
            final(block)@.len() == 8,
            compat_enc(self.key(), final(block)@) == old(block)@,
    {
        let ghost x = old(block)@;
        reverse_words(block);
        bf_decrypt_block(&self.inner, block);
        let ghost mid = block@;
        reverse_words(block);
        proof {
            lemma_reverse_words_involution(x);
            lemma_reverse_words_involution(mid);
        }
    }
}

} // verus!
