//! Trusted bindings to the wrapped block-cipher primitive.
//!
//! The underlying Blowfish key schedule and Feistel rounds are an
//! external, already-correct primitive: this module holds the outside
//! cipher state behind an opaque struct and gives named, trusted
//! contracts to the three calls the library makes into it. Everything
//! else in the crate is verified against these contracts.

use vstd::prelude::*;
use blowfish::Blowfish;
use blowfish::cipher::KeyInit;
use blowfish::cipher::BlockEncrypt;
use blowfish::cipher::BlockDecrypt;
use blowfish::cipher::generic_array::GenericArray;

verus! {

/// Holds the outside cipher state (the derived key schedule). The
/// outside type's generic byte-order bound cannot be declared to the
/// verifier, so the whole struct is opaque; the contracts below speak
/// of it only through `schedule_key`.
#[verifier::external_body]
pub struct RawCipher {
    inner: Blowfish,
}

/// The key a cipher state was derived from. The schedule is a function
/// of the key alone, so the key names the whole state.
pub uninterp spec fn schedule_key(c: RawCipher) -> Seq<u8>;

/// What Blowfish encryption of an 8-byte block under a key returns.
/// The result is a function of the key and the block alone.
pub uninterp spec fn bf_enc(key: Seq<u8>, block: Seq<u8>) -> Seq<u8>;

/// What Blowfish decryption of an 8-byte block under a key returns.
/// The result is a function of the key and the block alone.
pub uninterp spec fn bf_dec(key: Seq<u8>, block: Seq<u8>) -> Seq<u8>;

/// Relies on `blowfish::Blowfish::new_from_slice` (`cipher::KeyInit`):
/// it returns `Ok` exactly for key lengths of 4 through 56 bytes, and
/// the state it returns is derived from the key alone.
#[verifier::external_body]
pub(crate) fn bf_new(key: &[u8]) -> (r: Option<RawCipher>)
    ensures
        (r is Some) <==> (4 <= key@.len() <= 56),
        r matches Some(c) ==> schedule_key(c) == key@,
{
    Blowfish::new_from_slice(key).ok().map(|inner| RawCipher { inner })
}

/// Relies on `cipher::BlockEncrypt::encrypt_block` for `Blowfish`: it
/// replaces the 8-byte block with its encryption under the schedule,
/// and the crate's `decrypt` runs the same rounds in reverse, so
/// decrypting the result returns the original block.
#[verifier::external_body]
pub(crate) fn bf_encrypt_block(c: &RawCipher, block: &mut Vec<u8>)
    requires
        old(block)@.len() == 8,
    ensures
        final(block)@ == bf_enc(schedule_key(*c), old(block)@),
        final(block)@.len() == 8,
        bf_dec(schedule_key(*c), final(block)@) == old(block)@,
{
    c.inner.encrypt_block(GenericArray::from_mut_slice(block.as_mut_slice()));
}

/// Relies on `cipher::BlockDecrypt::decrypt_block` for `Blowfish`: it
/// replaces the 8-byte block with its decryption under the schedule,
/// the exact inverse of the encryption rounds, so encrypting the
/// result returns the original block.
#[verifier::external_body]
pub(crate) fn bf_decrypt_block(c: &RawCipher, block: &mut Vec<u8>)
    requires
        old(block)@.len() == 8,
    ensures
        final(block)@ == bf_dec(schedule_key(*c), old(block)@),
        final(block)@.len() == 8,
        bf_enc(schedule_key(*c), final(block)@) == old(block)@,
{
    c.inner.decrypt_block(GenericArray::from_mut_slice(block.as_mut_slice()));
}

} // verus!
