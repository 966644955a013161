//! Block-by-block decryption pipelines.
//!
//! Both entry points drive the compatibility cipher over consecutive
//! non-overlapping 8-byte blocks, left to right, with no chaining
//! between blocks: the in-place pipeline walks a fully buffered
//! payload, the streamed pipeline reads blocks from a source and
//! writes the decrypted blocks to a sink until the source runs out.
//! Because the mode has no chaining, both produce the same plaintext
//! for the same key and ciphertext: the contracts of both pin the
//! output to the same `decrypt_blocks` function.

use vstd::prelude::*;
use vstd::arithmetic::div_mod::lemma_fundamental_div_mod;
use vstd::arithmetic::div_mod::lemma_mod_bound;
use crate::compat::BlowfishCompat;
use crate::compat::InvalidKeyLength;
use crate::compat::compat_dec;
use crate::compat::key_len_valid;
use crate::compat::effective_key;
use crate::words::set_byte;

verus! {

/// Whole-buffer decryption: every consecutive 8-byte block of `s`
/// decrypted under `key`, in order, a final fragment shorter than a
/// block left as it is (the pipelines only hand block-aligned input
/// to it).
pub open spec fn decrypt_blocks(key: Seq<u8>, s: Seq<u8>) -> Seq<u8>
    decreases s.len(),
{
    if s.len() < 8 {
        s
    } else {
        compat_dec(key, s.take(8)) + decrypt_blocks(key, s.skip(8))
    }
}

/// Decrypting one more block extends the decryption of the prefix by
/// the decryption of that block.
pub proof fn lemma_decrypt_blocks_step(key: Seq<u8>, s: Seq<u8>, n: int)
    requires
        0 <= n,
        n % 8 == 0,
        n + 8 <= s.len(),
    ensures
        decrypt_blocks(key, s.take(n + 8)) == decrypt_blocks(key, s.take(n))
            + compat_dec(key, s.subrange(n, n + 8)),
    decreases n,
{
    if n == 0 {
        assert(s.take(0) =~= Seq::<u8>::empty());
        assert(s.take(8).take(8) =~= s.take(8));
        assert(s.take(8).skip(8) =~= Seq::<u8>::empty());
        assert(s.subrange(0, 8) =~= s.take(8));
        assert(decrypt_blocks(key, Seq::<u8>::empty()) =~= Seq::<u8>::empty());
        assert(decrypt_blocks(key, s.take(8))
            == compat_dec(key, s.take(8).take(8)) + decrypt_blocks(key, s.take(8).skip(8)));
        assert(compat_dec(key, s.take(8)) + Seq::<u8>::empty() =~= compat_dec(key, s.take(8)));
        assert(decrypt_blocks(key, s.take(0)) == Seq::<u8>::empty());
        assert(Seq::<u8>::empty() + compat_dec(key, s.subrange(0, 8))
            =~= compat_dec(key, s.subrange(0, 8)));
    } else {
        assert(n >= 8) by {
            lemma_fundamental_div_mod(n, 8);
        }
        lemma_decrypt_blocks_step(key, s.skip(8), n - 8);
        assert(s.take(n + 8).take(8) =~= s.take(8));
        assert(s.take(n + 8).skip(8) =~= s.skip(8).take(n));
        assert(s.take(n).take(8) =~= s.take(8));
        assert(s.take(n).skip(8) =~= s.skip(8).take(n - 8));
        assert(s.skip(8).subrange(n - 8, n) =~= s.subrange(n, n + 8));
        assert(decrypt_blocks(key, s.take(n + 8))
            == compat_dec(key, s.take(8)) + decrypt_blocks(key, s.skip(8).take(n)));
        assert(decrypt_blocks(key, s.take(n))
            == compat_dec(key, s.take(8)) + decrypt_blocks(key, s.skip(8).take(n - 8)));
        assert(compat_dec(key, s.take(8))
            + (decrypt_blocks(key, s.skip(8).take(n - 8)) + compat_dec(key, s.subrange(n, n + 8)))
            =~= (compat_dec(key, s.take(8)) + decrypt_blocks(key, s.skip(8).take(n - 8)))
            + compat_dec(key, s.subrange(n, n + 8)));
    }
}

/// A block-aligned offset short of a block-aligned end leaves room for
/// a whole block.
proof fn lemma_aligned_gap(j: int, n: int)
    requires
        0 <= j < n,
        j % 8 == 0,
        n % 8 == 0,
    ensures
        j + 8 <= n,
{
    lemma_fundamental_div_mod(j, 8);
    lemma_fundamental_div_mod(n, 8);
    assert(8 * (n / 8) - 8 * (j / 8) == 8 * (n / 8 - j / 8));
}

/// Decrypts a fully buffered, block-aligned ciphertext in place:
/// constructs one cipher from `key`, then decrypts every consecutive
/// 8-byte block, left to right. Fails, leaving the buffer unchanged,
/// exactly when the key length is rejected.
#[verifier::loop_isolation(false)]
pub fn decrypt_in_place(buf: &mut Vec<u8>, key: &[u8]) -> (r: Result<(), InvalidKeyLength>)
    requires
        old(buf)@.len() % 8 == 0,
    ensures
        (r is Ok) <==> key_len_valid(key@.len() as int),
        r is Ok ==> final(buf)@ == decrypt_blocks(effective_key(key@), old(buf)@),
        r is Ok ==> final(buf)@.len() == old(buf)@.len(),
        r is Err ==> final(buf)@ == old(buf)@,
{
    let cipher = match BlowfishCompat::new_varkey(key) {
        Ok(c) => c,
        Err(e) => {
            return Err(e);
        },
    };
    let ghost orig = buf@;
    let ghost ekey = effective_key(key@);
    let n = buf.len();
    let mut j: usize = 0;
    while j < n
        invariant
            j % 8 == 0,
            j <= n,
            buf@.len() == n,
            buf@ == decrypt_blocks(ekey, orig.take(j as int)) + orig.skip(j as int),
        decreases n - j,
    {
        proof {
            lemma_aligned_gap(j as int, n as int);
            assert(decrypt_blocks(ekey, orig.take(j as int)).len() == j) by {
                assert(buf@.len() == decrypt_blocks(ekey, orig.take(j as int)).len()
                    + orig.skip(j as int).len());
            }
        }
        let ghost dec_prefix = decrypt_blocks(ekey, orig.take(j as int));
        let mut block: Vec<u8> = Vec::new();
        let mut t: usize = 0;
        while t < 8
            invariant
                t <= 8,
                block@ =~= orig.subrange(j as int, j as int + t as int),
            decreases 8 - t,
        {
            let byte = buf[j + t];
            proof {
                assert(buf@[j as int + t as int] == orig[j as int + t as int]);
            }
            block.push(byte);
            t = t + 1;
        }
        assert(block@ =~= orig.subrange(j as int, j as int + 8));
        cipher.decrypt_block(&mut block);
        let mut t2: usize = 0;
        while t2 < 8
            invariant
                t2 <= 8,
                block@ == compat_dec(ekey, orig.subrange(j as int, j as int + 8)),
                block@.len() == 8,
                buf@.len() == n,
                buf@ =~= dec_prefix + block@.take(t2 as int) + orig.skip(j as int + t2 as int),
            decreases 8 - t2,
        {
            set_byte(buf, j + t2, block[t2]);
            t2 = t2 + 1;
            proof {
                assert(buf@ =~= dec_prefix + block@.take(t2 as int)
                    + orig.skip(j as int + t2 as int));
            }
        }
        proof {
            lemma_decrypt_blocks_step(ekey, orig, j as int);
            assert(buf@ =~= decrypt_blocks(ekey, orig.take(j as int + 8))
                + orig.skip(j as int + 8));
        }
        j = j + 8;
    }
    proof {
        assert(orig.take(n as int) =~= orig);
        assert(buf@ =~= decrypt_blocks(ekey, orig));
    }
    Ok(())
}

/// A source of ciphertext, read one 8-byte block at a time. A short
/// remainder (fewer than 8 bytes) signals clean end of input.
pub trait BlockSource {
    /// The bytes the source still holds.
    spec fn remaining(&self) -> Seq<u8>;

    /// Reads exactly one block into `block`, consuming it from the
    /// source; returns false, consuming nothing and leaving `block`
    /// unchanged, when fewer than 8 bytes remain.
    fn read_block(&mut self, block: &mut Vec<u8>) -> (got: bool)
        requires
            old(block)@.len() == 8,
        ensures
            final(block)@.len() == 8,
            got ==> old(self).remaining().len() >= 8
                && final(block)@ == old(self).remaining().take(8)
                && final(self).remaining() == old(self).remaining().skip(8),
            !got ==> old(self).remaining().len() < 8
                && final(self).remaining() == old(self).remaining()
                && final(block)@ == old(block)@,
    ;
}

/// A sink that plaintext blocks are written to, in order.
pub trait BlockSink {
    /// The bytes written to the sink so far.
    spec fn written(&self) -> Seq<u8>;

    /// Appends one block to the sink.
    fn write_block(&mut self, block: &Vec<u8>)
        ensures
            final(self).written() == old(self).written() + block@,
    ;
}

/// An in-memory byte source: a buffer and a read cursor.
pub struct VecSource {
    data: Vec<u8>,
    pos: usize,
}

impl VecSource {
    #[verifier::type_invariant]
    spec fn wf(&self) -> bool {
        self.pos <= self.data@.len()
    }

    /// A source that will yield exactly the bytes of `data`.
    pub fn new(data: Vec<u8>) -> (r: Self)
        ensures
            r.remaining() == data@,
    {
        let r = VecSource { data, pos: 0 };
        proof {
            assert(r.remaining() =~= r.data@);
        }
        r
    }
}

impl BlockSource for VecSource {
    closed spec fn remaining(&self) -> Seq<u8> {
        self.data@.skip(self.pos as int)
    }

    #[verifier::loop_isolation(false)]
    fn read_block(&mut self, block: &mut Vec<u8>) -> (got: bool) {
        proof {
            use_type_invariant(&*self);
        }
        if self.data.len() - self.pos >= 8 {
            let mut t: usize = 0;
            while t < 8
                invariant
                    t <= 8,
                    self == old(self),
                    self.pos + 8 <= self.data@.len(),
                    block@.len() == 8,
                    forall|i: int| 0 <= i < t ==> block@[i] == self.data@[self.pos + i],
                decreases 8 - t,
            {
                let byte = self.data[self.pos + t];
                set_byte(block, t, byte);
                t = t + 1;
            }
            self.pos = self.pos + 8;
            proof {
                assert(block@ =~= old(self).remaining().take(8));
                assert(self.remaining() =~= old(self).remaining().skip(8));
            }
            true
        } else {
            false
        }
    }
}

/// An in-memory byte sink: a growing buffer.
pub struct VecSink {
    data: Vec<u8>,
}

impl VecSink {
    /// An empty sink.
    pub fn new() -> (r: Self)
        ensures
            r.written() == Seq::<u8>::empty(),
    {
        let r = VecSink { data: Vec::new() };
        proof {
            assert(r.written() =~= Seq::<u8>::empty());
        }
        r
    }

    /// Hands out everything written so far.
    pub fn into_vec(self) -> (r: Vec<u8>)
        ensures
            r@ == self.written(),
    {
        self.data
    }
}

impl BlockSink for VecSink {
    closed spec fn written(&self) -> Seq<u8> {
        self.data@
    }

    fn write_block(&mut self, block: &Vec<u8>) {
        self.data.extend_from_slice(block.as_slice());
    }
}

/// Streamed decryption: constructs one cipher from `key`, then reads
/// 8-byte blocks from `source`, decrypts each in place and writes it
/// to `sink`, until fewer than 8 bytes remain (clean end of input,
/// not an error; a trailing fragment stays in the source unread).
/// Fails, consuming and writing nothing, exactly when the key length
/// is rejected. For block-aligned input this writes the same bytes
/// that `decrypt_in_place` leaves in the buffer.
pub fn decrypt_stream<R: BlockSource, W: BlockSink>(
    source: &mut R,
    key: &[u8],
    sink: &mut W,
) -> (r: Result<(), InvalidKeyLength>)
    ensures
        (r is Ok) <==> key_len_valid(key@.len() as int),
        r is Ok ==> final(source).remaining()
            == old(source).remaining().skip(aligned_len(old(source).remaining().len() as int)),
        r is Ok ==> final(sink).written() == old(sink).written() + decrypt_blocks(
            effective_key(key@),
            old(source).remaining().take(aligned_len(old(source).remaining().len() as int)),
        ),
        r is Ok ==> final(sink).written().len() == old(sink).written().len()
            + aligned_len(old(source).remaining().len() as int),
        r is Err ==> final(source).remaining() == old(source).remaining()
            && final(sink).written() == old(sink).written(),
{
    let cipher = match BlowfishCompat::new_varkey(key) {
        Ok(c) => c,
        Err(e) => {
            return Err(e);
        },
    };
    let ghost orig_rem = source.remaining();
    let ghost orig_written = sink.written();
    let ghost ekey = effective_key(key@);
    let mut block: Vec<u8> = vec![0u8; 8];
    let ghost mut consumed: int = 0;
    loop
        invariant
            cipher.key() == ekey,
            block@.len() == 8,
            0 <= consumed,
            consumed % 8 == 0,
            consumed <= orig_rem.len(),
            source.remaining() == orig_rem.skip(consumed),
            sink.written() == orig_written + decrypt_blocks(ekey, orig_rem.take(consumed)),
            sink.written().len() == orig_written.len() + consumed,
        ensures
            source.remaining().len() < 8,
            source.remaining() == orig_rem.skip(consumed),
            sink.written() == orig_written + decrypt_blocks(ekey, orig_rem.take(consumed)),
            sink.written().len() == orig_written.len() + consumed,
            0 <= consumed,
            consumed % 8 == 0,
            consumed <= orig_rem.len(),
        decreases orig_rem.len() - consumed,
    {
        let got = source.read_block(&mut block);
        if !got {
            break;
        }
        proof {
            assert(block@ =~= orig_rem.subrange(consumed, consumed + 8));
        }
        cipher.decrypt_block(&mut block);
        sink.write_block(&block);
        proof {
            lemma_decrypt_blocks_step(ekey, orig_rem, consumed);
            consumed = consumed + 8;
            assert(source.remaining() =~= orig_rem.skip(consumed));
            assert(sink.written() =~= orig_written + decrypt_blocks(ekey, orig_rem.take(consumed)));
        }
    }
    proof {
        lemma_consumed_is_aligned_len(consumed, orig_rem.len() as int);
    }
    Ok(())
}

/// The length of the whole-block prefix of a buffer of length `n`.
pub open spec fn aligned_len(n: int) -> int {
    n - n % 8
}

/// Streamed and in-place decryption agree: for a block-aligned
/// ciphertext, the whole-block prefix the streamed pipeline consumes
/// is the whole buffer, so the bytes it writes to the sink —
/// `decrypt_blocks` of that prefix, by the contract of
/// `decrypt_stream` — are exactly the bytes `decrypt_in_place` leaves
/// in the buffer, the source is drained, and by the length clauses of
/// both contracts the plaintext has the ciphertext's length.
pub proof fn lemma_streamed_matches_in_place(key: Seq<u8>, data: Seq<u8>)
    requires
        data.len() % 8 == 0,
    ensures
        decrypt_blocks(key, data.take(aligned_len(data.len() as int)))
            == decrypt_blocks(key, data),
        data.skip(aligned_len(data.len() as int)) == Seq::<u8>::empty(),
        aligned_len(data.len() as int) == data.len(),
{
    assert(aligned_len(data.len() as int) == data.len());
    assert(data.take(data.len() as int) =~= data);
    assert(data.skip(data.len() as int) =~= Seq::<u8>::empty());
}

/// A block-aligned count that leaves a remainder shorter than a block
/// is exactly the aligned prefix length.
proof fn lemma_consumed_is_aligned_len(consumed: int, n: int)
    requires
        0 <= consumed <= n,
        consumed % 8 == 0,
        n - consumed < 8,
    ensures
        consumed == aligned_len(n),
{
    lemma_fundamental_div_mod(consumed, 8);
    lemma_fundamental_div_mod(n, 8);
    lemma_mod_bound(n, 8);
    assert(8 * (n / 8) - 8 * (consumed / 8) == 8 * (n / 8 - consumed / 8));
}

} // verus!
