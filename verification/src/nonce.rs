//! Nonces: where they stand in a header, and the progression a worker takes.
use crate::bytes;
use crate::bytes::to_be_bytes;
use crate::sandglass::HEADER_LEN;
use vstd::arithmetic::div_mod::*;
use vstd::arithmetic::mul::*;
use vstd::prelude::*;

verus! {

/// Where the four bytes of the nonce begin in a header.
pub const NONCE_OFFSET: usize = 112;

/// The header with `nonce` in its place.
pub open spec fn with_nonce(header: Seq<u8>, nonce: u32) -> Seq<u8> {
    Seq::new(
        header.len(),
        |i: int|
            if NONCE_OFFSET <= i < NONCE_OFFSET + 4 {
                bytes::be_bytes(nonce)[i - NONCE_OFFSET]
            } else {
                header[i]
            },
    )
}

/// The nonce `k` strides of `stride` after `start`, on 32 bits.
pub open spec fn nonce_after(start: u32, stride: u32, k: nat) -> u32 {
    ((start + stride * k) % 0x1_0000_0000) as u32
}

/// A nonce reads back from its header, so two nonces never make one header; and
/// the rest of the header is as it was.
pub proof fn law_nonce_reads_back(header: Seq<u8>, nonce: u32)
    requires
        header.len() == HEADER_LEN,
    ensures
        with_nonce(header, nonce).len() == HEADER_LEN,
        bytes::be_word(with_nonce(header, nonce), (NONCE_OFFSET / 4) as int) == nonce,
        with_nonce(header, nonce).take(NONCE_OFFSET as int) == header.take(NONCE_OFFSET as int),
        with_nonce(header, nonce).skip(NONCE_OFFSET + 4) == header.skip(NONCE_OFFSET + 4),
        bytes::be_word(with_nonce(header, nonce), 28) == nonce,
        with_nonce(header, nonce).take(112) == header.take(112),
        with_nonce(header, nonce).skip(116) == header.skip(116),
{
    let changed = with_nonce(header, nonce);
    assert(changed.subrange(112, 116) =~= bytes::be_bytes(nonce));
    bytes::law_be_bytes_read_back(nonce);
    assert(changed.take(NONCE_OFFSET as int) =~= header.take(NONCE_OFFSET as int));
    assert(changed.skip(NONCE_OFFSET + 4) =~= header.skip(NONCE_OFFSET + 4));
}

/// A header that holds the nonce in bytes 112 to 115, and for the rest is the
/// one that was given, is the header with that nonce.
pub proof fn law_nonce_has_one_place(header: Seq<u8>, nonce: u32, other: Seq<u8>)
    requires
        header.len() == 148,
        other.len() == 148,
        other.take(112) == header.take(112),
        other.skip(116) == header.skip(116),
        bytes::be_word(other, 28) == nonce,
    ensures
        with_nonce(header, nonce) == other,
{
    let changed = with_nonce(header, nonce);
    law_nonce_reads_back(header, nonce);
    assert forall|i: int| 0 <= i < 37 implies #[trigger] bytes::be_word(changed, i)
        == bytes::be_word(other, i) by {
        let (a, b) = (changed.subrange(4 * i, 4 * i + 4), other.subrange(4 * i, 4 * i + 4));
        if i < 28 {
            assert(a =~= changed.take(112).subrange(4 * i, 4 * i + 4));
            assert(b =~= other.take(112).subrange(4 * i, 4 * i + 4));
        } else if i > 28 {
            assert(a =~= changed.skip(116).subrange(4 * i - 116, 4 * i - 112));
            assert(b =~= other.skip(116).subrange(4 * i - 116, 4 * i - 112));
        }
    }
    bytes::lemma_words_determine_bytes(changed, other, 37);
}

/// The progression begins at its start, and every stride adds to the nonce on
/// 32 bits.
pub proof fn law_nonces_go_on_by_the_stride(start: u32, stride: u32, k: nat)
    ensures
        nonce_after(start, stride, 0) == start,
        nonce_after(start, stride, k + 1) == nonce_after(start, stride, k).wrapping_add(stride),
{
    lemma_nonce_after_adds(start, stride, k, 1);
}

/// Where the stride divides the number of nonces, the progression keeps to the
/// nonces that leave one remainder by it.
pub proof fn lemma_remainder_is_kept(start: u32, stride: u32, k: nat)
    requires
        stride > 0,
        0x1_0000_0000int % stride as int == 0,
    ensures
        nonce_after(start, stride, k) as int % stride as int == start as int % stride as int,
{
    let (m, s) = (0x1_0000_0000int, stride as int);
    let times = m / s;
    assert(m == s * times) by {
        lemma_fundamental_div_mod(m, s);
    }
    assert(times > 0) by (nonlinear_arith)
        requires
            m == s * times,
            m > 0,
            s > 0,
    ;
    lemma_mod_mod(start + stride * k, s, times);
    lemma_mod_multiples_vanish(k as int, start as int, s);
}

/// Writing a second nonce over the first leaves nothing of the first.
pub proof fn law_last_nonce_stands(header: Seq<u8>, first: u32, second: u32)
    ensures
        with_nonce(with_nonce(header, first), second) == with_nonce(header, second),
{
    assert(with_nonce(with_nonce(header, first), second) =~= with_nonce(header, second));
}

/// Strides add up.
pub proof fn lemma_nonce_after_adds(start: u32, stride: u32, a: nat, b: nat)
    ensures
        nonce_after(nonce_after(start, stride, a), stride, b) == nonce_after(start, stride, a + b),
{
    let m = 0x1_0000_0000int;
    lemma_mul_is_distributive_add(stride as int, a as int, b as int);
    lemma_add_mod_noop(start + stride * a, stride * b, m);
    lemma_add_mod_noop((start + stride * a) % m, stride * b, m);
    lemma_mod_twice(start + stride * a, m);
}

/// No stride leaves the nonce where it is.
pub proof fn lemma_nonce_after_none(start: u32, stride: u32)
    ensures
        nonce_after(start, stride, 0) == start,
{
}

/// If the progression comes to one nonce twice, it comes back to its start.
pub proof fn lemma_repeat_comes_back(start: u32, stride: u32, a: nat, b: nat)
    requires
        a <= b,
        nonce_after(start, stride, a) == nonce_after(start, stride, b),
    ensures
        nonce_after(start, stride, (b - a) as nat) == start,
{
    let m = 0x1_0000_0000int;
    let d = (b - a) as nat;
    let (x, y) = (start + stride * a, start + stride * b);
    assert(y - x == stride * d) by {
        lemma_mul_is_distributive_sub(stride as int, b as int, a as int);
    }
    lemma_mod_equivalence(x, y, m);
    lemma_mod_equivalence(y, x, m);
    assert((stride * d) % m == 0);
    lemma_add_mod_noop(start as int, stride * d, m);
}

/// Once the progression is back at its start it goes round for good: whatever
/// it ever comes to lies in the first round.
pub proof fn lemma_goes_round(start: u32, stride: u32, period: nat, k: nat)
    requires
        period > 0,
        nonce_after(start, stride, period) == start,
    ensures
        nonce_after(start, stride, k) == nonce_after(start, stride, k % period),
    decreases k,
{
    if k >= period {
        let rest = (k - period) as nat;
        lemma_nonce_after_adds(start, stride, period, rest);
        lemma_goes_round(start, stride, period, rest);
        lemma_mod_add_multiples_vanish(rest as int, period as int);
    } else {
        lemma_small_mod(k, period);
    }
}

/// The progression is back at its start after as many strides as there are
/// nonces, if not before.
pub proof fn lemma_comes_back(start: u32, stride: u32)
    ensures
        nonce_after(start, stride, 0x1_0000_0000) == start,
{
    let m = 0x1_0000_0000int;
    lemma_mod_multiples_vanish(stride as int, start as int, m);
    assert(start + stride * m == m * stride + start) by (nonlinear_arith);
}

/// The header with `nonce` in its place.
pub fn header_with_nonce(base: &[u8; HEADER_LEN], nonce: u32) -> (header: [u8; HEADER_LEN])
    ensures
        header@ == with_nonce(base@, nonce),
{
    let mut header: [u8; HEADER_LEN] = *base;
    let four = to_be_bytes(nonce);
    header[NONCE_OFFSET] = four[0];
    header[NONCE_OFFSET + 1] = four[1];
    header[NONCE_OFFSET + 2] = four[2];
    header[NONCE_OFFSET + 3] = four[3];
    assert(header@ =~= with_nonce(base@, nonce));
    header
}

/// The nonce `lane` strides after `nonce`.
pub fn lane_nonce(nonce: u32, stride: u32, lane: u32) -> (result: u32)
    ensures
        result == nonce_after(nonce, stride, lane as nat),
{
    proof {
        let m = 0x1_0000_0000int;
        lemma_add_mod_noop(nonce as int, stride * lane, m);
        lemma_small_mod(nonce as nat, m as nat);
        assert(0 <= stride * lane) by (nonlinear_arith);
        lemma_mod_bound(stride * lane, m);
    }
    nonce.wrapping_add(stride.wrapping_mul(lane))
}

} // verus!
