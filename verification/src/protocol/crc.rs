//! CRC-8 with polynomial 0x07, initial value 0, no reflection, no final xor.

use vstd::prelude::*;

verus! {

/// The generator polynomial used by every CRC computation in this crate.
pub const CRC8_POLY: u8 = 0x07;

/// One shift step of the bitwise CRC register.
pub open spec fn crc8_shift(c: u8) -> u8 {
    if c & 0x80 != 0 {
        (c << 1u8) ^ CRC8_POLY
    } else {
        c << 1u8
    }
}

/// `n` shift steps of the CRC register.
pub open spec fn crc8_shift_n(c: u8, n: nat) -> u8
    decreases n,
{
    if n == 0 {
        c
    } else {
        crc8_shift_n(crc8_shift(c), (n - 1) as nat)
    }
}

/// Folds one input byte into the CRC register.
pub open spec fn crc8_update(c: u8, b: u8) -> u8 {
    crc8_shift_n(c ^ b, 8)
}

/// The CRC-8 of a byte sequence: the register after folding in every byte,
/// starting from zero.
pub open spec fn spec_crc8(s: Seq<u8>) -> u8
    decreases s.len(),
{
    if s.len() == 0 {
        0
    } else {
        crc8_update(spec_crc8(s.drop_last()), s.last())
    }
}

/// Computes the CRC-8 checksum of `bytes`.
pub fn crc8(bytes: &[u8]) -> (crc: u8)
    ensures
        crc == spec_crc8(bytes@),
{
    let mut crc: u8 = 0x00;
    let mut i: usize = 0;
    while i < bytes.len()
        invariant
            i <= bytes@.len(),
            crc == spec_crc8(bytes@.take(i as int)),
        decreases bytes@.len() - i,
    {
        let ghost before = crc;
        crc = crc ^ bytes[i];
        let mut bit: u32 = 0;
        while bit < 8
            invariant
                bit <= 8,
                crc8_shift_n(crc, (8 - bit) as nat) == crc8_update(before, bytes@[i as int]),
            decreases 8 - bit,
        {
            if crc & 0x80 != 0 {
                crc = (crc << 1u8) ^ CRC8_POLY;
            } else {
                crc = crc << 1u8;
            }
            bit = bit + 1;
        }
        assert(bytes@.take(i + 1).drop_last() =~= bytes@.take(i as int));
        i = i + 1;
    }
    assert(bytes@.take(bytes@.len() as int) =~= bytes@);
    crc
}

/// `a` with `b` xored into it, byte by byte.
pub open spec fn seq_xor(a: Seq<u8>, b: Seq<u8>) -> Seq<u8> {
    Seq::new(a.len(), |i: int| a[i] ^ b[i])
}

/// One shift step is linear over xor.
proof fn lemma_shift_xor(x: u8, y: u8)
    ensures
        crc8_shift(x ^ y) == crc8_shift(x) ^ crc8_shift(y),
{
    assert((if (x ^ y) & 0x80 != 0 { ((x ^ y) << 1u8) ^ 0x07u8 } else { (x ^ y) << 1u8 }) == (if x
        & 0x80 != 0 { (x << 1u8) ^ 0x07u8 } else { x << 1u8 }) ^ (if y & 0x80 != 0 { (y << 1u8)
        ^ 0x07u8 } else { y << 1u8 })) by (bit_vector);
}

/// A shift step takes a nonzero register to a nonzero one.
proof fn lemma_shift_nonzero(x: u8)
    requires
        x != 0,
    ensures
        crc8_shift(x) != 0,
{
    assert(x != 0 ==> (if x & 0x80 != 0 { (x << 1u8) ^ 0x07u8 } else { x << 1u8 }) != 0u8) by (bit_vector);
}

/// `n` shift steps are linear over xor, and keep a nonzero register nonzero.
proof fn lemma_shift_n(x: u8, y: u8, n: nat)
    ensures
        crc8_shift_n(x ^ y, n) == crc8_shift_n(x, n) ^ crc8_shift_n(y, n),
        x != 0 ==> crc8_shift_n(x, n) != 0,
        x == 0 ==> crc8_shift_n(x, n) == 0,
    decreases n,
{
    if n > 0 {
        assert(x == 0 ==> (if x & 0x80 != 0 { (x << 1u8) ^ 0x07u8 } else { x << 1u8 }) == 0u8) by (bit_vector);
        lemma_shift_xor(x, y);
        if x != 0 {
            lemma_shift_nonzero(x);
        }
        lemma_shift_n(crc8_shift(x), crc8_shift(y), (n - 1) as nat);
    }
}

/// The CRC of a bytewise xor is the xor of the CRCs.
proof fn lemma_crc_xor(a: Seq<u8>, b: Seq<u8>)
    requires
        a.len() == b.len(),
    ensures
        spec_crc8(seq_xor(a, b)) == spec_crc8(a) ^ spec_crc8(b),
    decreases a.len(),
{
    if a.len() > 0 {
        let a0 = a.drop_last();
        let b0 = b.drop_last();
        assert(seq_xor(a, b).drop_last() =~= seq_xor(a0, b0));
        lemma_crc_xor(a0, b0);
        let ca = spec_crc8(a0);
        let cb = spec_crc8(b0);
        let la = a.last();
        let lb = b.last();
        assert(seq_xor(a, b).last() == la ^ lb);
        assert((ca ^ cb) ^ (la ^ lb) == (ca ^ la) ^ (cb ^ lb)) by (bit_vector);
        lemma_shift_n(ca ^ la, cb ^ lb, 8);
        assert(spec_crc8(seq_xor(a, b)) == crc8_update(spec_crc8(seq_xor(a0, b0)), la ^ lb));
        assert(spec_crc8(a) == crc8_update(ca, la));
        assert(spec_crc8(b) == crc8_update(cb, lb));
    } else {
        assert(0u8 ^ 0u8 == 0u8) by (bit_vector);
    }
}

/// The error pattern of one flipped bit: zero everywhere but `mask` at `i`.
pub open spec fn single_error(len: nat, i: int, mask: u8) -> Seq<u8> {
    Seq::new(len, |j: int| if j == i { mask } else { 0u8 })
}

/// The CRC of an error pattern with one nonzero byte is nonzero once that
/// byte is folded in.
proof fn lemma_crc_single_error(len: nat, i: int, mask: u8)
    requires
        0 <= i < len,
        mask != 0,
    ensures
        spec_crc8(single_error(len, i, mask)) != 0,
    decreases len,
{
    let e = single_error(len, i, mask);
    let e0 = e.drop_last();
    if len - 1 == i {
        assert(e0 =~= single_error((len - 1) as nat, -1, mask));
        lemma_crc_zeros((len - 1) as nat, mask);
        assert(0u8 ^ mask == mask) by (bit_vector);
        lemma_shift_n(mask, mask, 8);
        assert(e.last() == mask);
        assert(spec_crc8(e) == crc8_update(spec_crc8(e0), mask));
    } else {
        assert(e0 =~= single_error((len - 1) as nat, i, mask));
        lemma_crc_single_error((len - 1) as nat, i, mask);
        let c = spec_crc8(e0);
        assert(c ^ 0u8 == c) by (bit_vector);
        lemma_shift_n(c, c, 8);
        assert(e.last() == 0u8);
        assert(spec_crc8(e) == crc8_update(c, 0u8));
    }
}

/// The CRC of all-zero bytes is zero.
proof fn lemma_crc_zeros(len: nat, mask: u8)
    ensures
        spec_crc8(single_error(len, -1, mask)) == 0,
    decreases len,
{
    if len > 0 {
        let e = single_error(len, -1, mask);
        assert(e.drop_last() =~= single_error((len - 1) as nat, -1, mask));
        lemma_crc_zeros((len - 1) as nat, mask);
        assert(0u8 ^ 0u8 == 0u8) by (bit_vector);
        lemma_shift_n(0, 0, 8);
        assert(e.last() == 0u8);
        assert(spec_crc8(e) == crc8_update(0u8, 0u8));
    }
}

/// CRC-8 detects every single-bit error: flipping any one bit of any byte
/// changes the checksum.
pub proof fn lemma_crc8_detects_single_bit_errors(s: Seq<u8>, i: int, k: u8)
    requires
        0 <= i < s.len(),
        k < 8,
    ensures
        spec_crc8(s.update(i, s[i] ^ (1u8 << k))) != spec_crc8(s),
{
    let mask = 1u8 << k;
    assert(k < 8 ==> 1u8 << k != 0u8) by (bit_vector);
    let e = single_error(s.len(), i, mask);
    assert(seq_xor(s, e) =~= s.update(i, s[i] ^ mask)) by {
        assert forall|j: int| 0 <= j < s.len() && j != i implies s[j] ^ 0u8 == s[j] by {
            let x = s[j];
            assert(x ^ 0u8 == x) by (bit_vector);
        }
    }
    lemma_crc_xor(s, e);
    lemma_crc_single_error(s.len(), i, mask);
    let c = spec_crc8(s);
    let d = spec_crc8(e);
    assert(d != 0 ==> c ^ d != c) by (bit_vector);
}

} // verus!
