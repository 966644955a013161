//! Word reversal: the byte-order transform of the compatibility format.
//!
//! The legacy format stores each 32-bit word of a cipher block with its
//! bytes in the opposite order from the canonical big-endian cipher.
//! Translating between the two means reversing the bytes inside every
//! consecutive 4-byte window of a buffer; a final window shorter than a
//! word is reversed as-is. Applying the transform twice restores the
//! original buffer.

use vstd::prelude::*;
use vstd::arithmetic::div_mod::lemma_fundamental_div_mod;
use vstd::arithmetic::div_mod::lemma_mod_bound;

verus! {

/// Index that position `i` maps to under per-word reversal of a buffer
/// of length `len`: the mirror of `i` inside its own 4-byte window
/// (a shorter final window mirrors inside itself).
pub open spec fn word_mirror(len: int, i: int) -> int {
    let c = 4 * (i / 4);
    let e = if c + 4 <= len { c + 4 } else { len };
    e - 1 - (i - c)
}

/// The buffer with the bytes of every 4-byte window reversed.
pub open spec fn reverse_words_spec(s: Seq<u8>) -> Seq<u8> {
    Seq::new(s.len(), |i: int| s[word_mirror(s.len() as int, i)])
}

/// Every position inside the 4-byte window of `i` has the same quotient
/// by 4 as `i` itself.
proof fn lemma_same_window(i: int, j: int)
    requires
        0 <= i,
        4 * (i / 4) <= j < 4 * (i / 4) + 4,
    ensures
        j / 4 == i / 4,
        4 * (i / 4) <= i < 4 * (i / 4) + 4,
{
    lemma_fundamental_div_mod(i, 4);
    lemma_mod_bound(i, 4);
    lemma_fundamental_div_mod(j, 4);
    lemma_mod_bound(j, 4);
    assert(4 * (j / 4) - 4 * (i / 4) == 4 * (j / 4 - i / 4));
    assert(-4 < 4 * (j / 4 - i / 4) < 4);
}

/// The mirror position stays inside the window of `i`, and mirroring
/// twice returns to `i`.
proof fn lemma_word_mirror_involution(len: int, i: int)
    requires
        0 <= i < len,
    ensures
        4 * (i / 4) <= word_mirror(len, i) < len,
        word_mirror(len, i) < 4 * (i / 4) + 4,
        word_mirror(len, word_mirror(len, i)) == i,
{
    lemma_fundamental_div_mod(i, 4);
    lemma_mod_bound(i, 4);
    let c = 4 * (i / 4);
    let e = if c + 4 <= len { c + 4 } else { len };
    let j = word_mirror(len, i);
    assert(c <= i < c + 4);
    assert(j == c + e - 1 - i);
    assert(c <= j < e);
    lemma_same_window(i, j);
    assert(4 * (j / 4) == c);
    assert(word_mirror(len, j) == c + e - 1 - j);
}

/// Word reversal is an involution: applied twice it restores the buffer.
pub proof fn lemma_reverse_words_involution(s: Seq<u8>)
    ensures
        reverse_words_spec(reverse_words_spec(s)) == s,
{
    let len = s.len() as int;
    let r = reverse_words_spec(s);
    let rr = reverse_words_spec(r);
    assert forall|i: int| 0 <= i < len implies rr[i] == s[i] by {
        lemma_word_mirror_involution(len, i);
        lemma_word_mirror_involution(len, word_mirror(len, i));
    }
    assert(rr =~= s);
}

/// Write one byte of a buffer.
pub(crate) fn set_byte(buf: &mut Vec<u8>, i: usize, b: u8)
    requires
        i < old(buf).len(),
    ensures
        final(buf)@ == old(buf)@.update(i as int, b),
{
    let p = &mut buf[i];
    *p = b;
}

/// Reverses the byte order inside every consecutive 4-byte window of
/// `buf`, in place, translating a buffer between the canonical and the
/// word-swapped (compatibility) byte ordering.
#[verifier::loop_isolation(false)]
pub fn reverse_words(buf: &mut Vec<u8>)
    ensures
        final(buf)@ == reverse_words_spec(old(buf)@),
{
    let ghost orig = old(buf)@;
    let ghost len_i = orig.len() as int;
    let len: usize = buf.len();
    let mut c: usize = 0;
    while c < len
        invariant
            c % 4 == 0 || c == len,
            c <= len,
            len == buf@.len(),
            len == orig.len(),
            forall|i: int| 0 <= i < c ==> buf@[i] == reverse_words_spec(orig)[i],
            forall|i: int| c <= i < len ==> buf@[i] == orig[i],
        decreases len - c,
    {
        let e: usize = if len - c >= 4 { c + 4 } else { len };
        let ghost c_i = c as int;
        let ghost e_i = e as int;
        let ghost pre = buf@;
        let mut lo: usize = c;
        let mut hi: usize = e - 1;
        while lo < hi
            invariant
                c_i <= lo,
                lo + hi == c_i + e_i - 1,
                lo <= hi + 1,
                hi < e_i,
                c_i < e_i <= len,
                len == buf@.len(),
                len == pre.len(),
                forall|i: int| c_i <= i < lo ==> buf@[i] == pre[c_i + e_i - 1 - i],
                forall|i: int| hi < i < e_i ==> buf@[i] == pre[c_i + e_i - 1 - i],
                forall|i: int| lo <= i <= hi ==> buf@[i] == pre[i],
                forall|i: int| 0 <= i < c_i ==> buf@[i] == pre[i],
                forall|i: int| e_i <= i < len ==> buf@[i] == pre[i],
            decreases hi + 1 - lo,
        {
            let a: u8 = buf[lo];
            let b: u8 = buf[hi];
            set_byte(buf, lo, b);
            set_byte(buf, hi, a);
            lo = lo + 1;
            hi = hi - 1;
        }
        assert forall|i: int| c_i <= i < e_i implies buf@[i] == pre[c_i + e_i - 1 - i] by {
            if lo <= i <= hi {
                assert(i == c_i + e_i - 1 - i);
            }
        }
        assert forall|i: int| c_i <= i < e_i implies buf@[i] == reverse_words_spec(orig)[i] by {
            lemma_fundamental_div_mod(c_i, 4);
            lemma_same_window(c_i, i);
            assert(4 * (i / 4) == c_i);
            assert(word_mirror(len_i, i) == c_i + e_i - 1 - i);
        }
        proof {
            lemma_fundamental_div_mod(c_i + 4, 4);
            lemma_fundamental_div_mod(c_i, 4);
            lemma_mod_bound(c_i + 4, 4);
            lemma_mod_bound(c_i, 4);
            assert(4 * ((c_i + 4) / 4) - 4 * (c_i / 4) == 4 * ((c_i + 4) / 4 - c_i / 4));
            assert((c_i + 4) % 4 == 0);
        }
        c = e;
    }
    assert(buf@ =~= reverse_words_spec(orig));
}

} // verus!
