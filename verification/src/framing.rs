//! Padding and framing conventions of the legacy tool.
//!
//! Before encrypting, the legacy tool zero-pads the payload to a whole
//! number of 8-byte blocks. After the last real block it appends an
//! 11-byte trailer convention: a 3-byte zero marker followed by one
//! final 8-byte block whose last byte records how much of the preceding
//! block is real payload. After decryption the marker is looked for and
//! the trailer block dropped. The marker is a heuristic pattern match
//! on plaintext content — legitimate payload could end the same way —
//! so it is kept only for compatibility with the legacy format.

use vstd::prelude::*;
use vstd::arithmetic::div_mod::lemma_fundamental_div_mod;
use vstd::arithmetic::div_mod::lemma_mod_bound;
use vstd::arithmetic::div_mod::lemma_mod_multiples_basic;

verus! {

/// How many zero bytes padding adds to a buffer of length `n`.
pub open spec fn pad_len(n: int) -> int {
    if n % 8 == 0 {
        0
    } else {
        8 - n % 8
    }
}

/// A buffer of length `n` plus its padding is block-aligned.
pub proof fn lemma_pad_aligns(n: int)
    requires
        0 <= n,
    ensures
        (n + pad_len(n)) % 8 == 0,
{
    lemma_fundamental_div_mod(n, 8);
    lemma_mod_bound(n, 8);
    if n % 8 != 0 {
        assert(n + pad_len(n) == (n / 8 + 1) * 8);
        lemma_mod_multiples_basic(n / 8 + 1, 8);
    }
}

/// Zero-pads `buf` to the next multiple of the block size, as the
/// legacy tool does before writing ciphertext; a buffer already
/// block-aligned is left unchanged.
pub fn add_padding(buf: &mut Vec<u8>)
    requires
        old(buf)@.len() + 7 <= usize::MAX,
    ensures
        final(buf)@ == old(buf)@ + Seq::new(pad_len(old(buf)@.len() as int) as nat, |i: int| 0u8),
        final(buf)@.len() % 8 == 0,
        old(buf)@.len() % 8 == 0 ==> final(buf)@ == old(buf)@,
{
    let ghost orig = old(buf)@;
    let ghost target = orig + Seq::new(pad_len(orig.len() as int) as nat, |i: int| 0u8);
    proof {
        lemma_mod_bound(orig.len() as int, 8);
        lemma_pad_aligns(orig.len() as int);
    }
    let r = buf.len() % 8;
    if r > 0 {
        let mut k: usize = 8 - r;
        while k > 0
            invariant
                k <= pad_len(orig.len() as int),
                buf@ == orig + Seq::new((pad_len(orig.len() as int) - k) as nat, |i: int| 0u8),
                buf@.len() + k <= usize::MAX,
            decreases k,
        {
            buf.push(0u8);
            k = k - 1;
            proof {
                assert(buf@ =~= orig + Seq::new((pad_len(orig.len() as int) - k) as nat, |i: int| 0u8));
            }
        }
    }
    proof {
        assert(buf@ =~= target);
        if orig.len() % 8 == 0 {
            assert(buf@ =~= orig);
        }
    }
}

/// Whether a decrypted buffer ends with the legacy trailer: the 3-byte
/// zero marker just before the final 8-byte block.
pub open spec fn has_trailer(s: Seq<u8>) -> bool {
    &&& s[s.len() - 11] == 0
    &&& s[s.len() - 10] == 0
    &&& s[s.len() - 9] == 0
}

/// Inspects the last 11 bytes of a decrypted buffer: if the 3 bytes
/// before the final block are the zero marker, drops that final 8-byte
/// block (the trailer's length-marker block is not payload); otherwise
/// leaves the buffer unchanged.
pub fn drain_tail(buf: &mut Vec<u8>)
    requires
        old(buf)@.len() >= 11,
    ensures
        has_trailer(old(buf)@) ==> final(buf)@ == old(buf)@.take(old(buf)@.len() - 8),
        !has_trailer(old(buf)@) ==> final(buf)@ == old(buf)@,
{
    let n = buf.len();
    if buf[n - 11] == 0 && buf[n - 10] == 0 && buf[n - 9] == 0 {
        buf.truncate(n - 8);
        proof {
            assert(buf@ =~= old(buf)@.take(old(buf)@.len() - 8));
        }
    }
}

} // verus!
