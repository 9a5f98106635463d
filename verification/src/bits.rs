//! The bit-level model shared by the bit readers: which bit of a byte
//! sequence an absolute bit position addresses, and how runs of bits are
//! assembled into integers, most-significant-first or least-significant-first.

use vstd::prelude::*;
use vstd::arithmetic::power2::*;

verus! {

/// Bit `k` of `byte` (0 is the least significant bit), as 0 or 1.
pub open spec fn bit_of_byte(byte: u8, k: nat) -> nat {
    ((byte >> (k as u8)) & 1) as nat
}

/// The bit addressed by absolute bit position `i` over `data`.
///
/// With `msb_first` the first bit of each byte is its most significant one;
/// otherwise the least significant. Positions past the end read as 0.
pub open spec fn stream_bit(data: Seq<u8>, msb_first: bool, i: nat) -> nat {
    if i / 8 < data.len() {
        bit_of_byte(
            data[(i / 8) as int],
            if msb_first {
                (7 - i % 8) as nat
            } else {
                i % 8
            },
        )
    } else {
        0
    }
}

/// `n` consecutive bits starting at `pos`, assembled so that the first bit
/// read lands in the most significant place of the result.
pub open spec fn msb_val(data: Seq<u8>, msb_first: bool, pos: nat, n: nat) -> nat
    decreases n,
{
    if n == 0 {
        0
    } else {
        stream_bit(data, msb_first, pos) * pow2((n - 1) as nat) + msb_val(
            data,
            msb_first,
            pos + 1,
            (n - 1) as nat,
        )
    }
}

/// `n` consecutive bits starting at `pos`, assembled so that the first bit
/// read lands in the least significant place of the result.
pub open spec fn lsb_val(data: Seq<u8>, msb_first: bool, pos: nat, n: nat) -> nat
    decreases n,
{
    if n == 0 {
        0
    } else {
        stream_bit(data, msb_first, pos) + 2 * lsb_val(data, msb_first, pos + 1, (n - 1) as nat)
    }
}

/// `v` with its `n` low bits written in the opposite order.
pub open spec fn rev_bits(v: nat, n: nat) -> nat
    decreases n,
{
    if n == 0 {
        0
    } else {
        (v % 2) * pow2((n - 1) as nat) + rev_bits(v / 2, (n - 1) as nat)
    }
}

/// Every element of `s` is a single bit, 0 or 1.
pub open spec fn all_bits(s: Seq<u8>) -> bool {
    forall|i: int| 0 <= i < s.len() ==> s[i] <= 1
}

/// A sequence of bits assembled first-is-most-significant.
pub open spec fn seq_msb_val(s: Seq<u8>) -> nat
    decreases s.len(),
{
    if s.len() == 0 {
        0
    } else {
        (2 * seq_msb_val(s.drop_last()) + s.last()) as nat
    }
}

/// A sequence of bits assembled first-is-least-significant.
pub open spec fn seq_lsb_val(s: Seq<u8>) -> nat
    decreases s.len(),
{
    if s.len() == 0 {
        0
    } else {
        (seq_lsb_val(s.drop_last()) + s.last() * pow2((s.len() - 1) as nat)) as nat
    }
}

/// A sequence of bytes read as one big-endian integer.
pub open spec fn be_byte_val(s: Seq<u8>) -> nat
    decreases s.len(),
{
    if s.len() == 0 {
        0
    } else {
        (256 * be_byte_val(s.drop_last()) + s.last()) as nat
    }
}

pub proof fn lemma_seq_msb_val_bound(s: Seq<u8>)
    requires
        all_bits(s),
    ensures
        seq_msb_val(s) < pow2(s.len()),
    decreases s.len(),
{
    lemma2_to64();
    if s.len() > 0 {
        lemma_seq_msb_val_bound(s.drop_last());
        lemma_pow2_unfold(s.len());
    }
}

pub proof fn lemma_seq_lsb_val_bound(s: Seq<u8>)
    requires
        all_bits(s),
    ensures
        seq_lsb_val(s) < pow2(s.len()),
    decreases s.len(),
{
    lemma2_to64();
    if s.len() > 0 {
        lemma_seq_lsb_val_bound(s.drop_last());
        lemma_pow2_unfold(s.len());
        let b = s.last();
        let p = pow2((s.len() - 1) as nat);
        assert(b <= 1 ==> b * p <= p) by (nonlinear_arith);
    }
}

/// A big-endian byte value fits in 8 bits per byte.
pub proof fn lemma_be_byte_val_bound(s: Seq<u8>)
    ensures
        be_byte_val(s) < pow2(8 * s.len()),
    decreases s.len(),
{
    lemma2_to64();
    if s.len() > 0 {
        lemma_be_byte_val_bound(s.drop_last());
        lemma_pow2_adds(8 * (s.len() - 1) as nat, 8);
        let p = pow2((8 * (s.len() - 1)) as nat);
        assert(be_byte_val(s.drop_last()) < p ==> 256 * be_byte_val(s.drop_last()) + 256 <= 256
            * p) by (nonlinear_arith);
    }
}

/// `pos` rounded up to the next multiple of 8: the position a reader lands on
/// when it skips to the next byte boundary.
pub open spec fn round_up8(pos: nat) -> nat {
    ((pos + 7) / 8 * 8) as nat
}

pub proof fn lemma_bit_of_byte_le_1(byte: u8, k: nat)
    ensures
        bit_of_byte(byte, k) <= 1,
{
    let ku = k as u8;
    assert(((byte >> ku) & 1) <= 1) by (bit_vector);
}

pub proof fn lemma_stream_bit_le_1(data: Seq<u8>, msb_first: bool, i: nat)
    ensures
        stream_bit(data, msb_first, i) <= 1,
{
    if i / 8 < data.len() {
        let byte = data[(i / 8) as int];
        let k = if msb_first {
            (7 - i % 8) as nat
        } else {
            i % 8
        } as u8;
        assert(((byte >> k) & 1) <= 1) by (bit_vector);
    }
}

/// Appending one more bit to an MSB-first assembly doubles the value and adds
/// the new bit.
pub proof fn lemma_msb_snoc(data: Seq<u8>, msb_first: bool, pos: nat, n: nat)
    ensures
        msb_val(data, msb_first, pos, n + 1) == 2 * msb_val(data, msb_first, pos, n) + stream_bit(
            data,
            msb_first,
            pos + n,
        ),
    decreases n,
{
    if n == 0 {
        lemma2_to64();
        reveal_with_fuel(msb_val, 2);
    } else {
        lemma_msb_snoc(data, msb_first, pos + 1, (n - 1) as nat);
        lemma_pow2_unfold(n);
        let b = stream_bit(data, msb_first, pos);
        let p = pow2((n - 1) as nat);
        assert(b * (2 * p) == 2 * (b * p)) by (nonlinear_arith);
    }
}

/// Appending one more bit to an LSB-first assembly adds the new bit scaled
/// into the next free place.
pub proof fn lemma_lsb_snoc(data: Seq<u8>, msb_first: bool, pos: nat, n: nat)
    ensures
        lsb_val(data, msb_first, pos, n + 1) == lsb_val(data, msb_first, pos, n) + stream_bit(
            data,
            msb_first,
            pos + n,
        ) * pow2(n),
    decreases n,
{
    if n == 0 {
        lemma2_to64();
        reveal_with_fuel(lsb_val, 2);
    } else {
        lemma_lsb_snoc(data, msb_first, pos + 1, (n - 1) as nat);
        lemma_pow2_unfold(n);
        let b = stream_bit(data, msb_first, pos + n);
        let p = pow2((n - 1) as nat);
        assert(2 * (b * p) == b * (2 * p)) by (nonlinear_arith);
    }
}

/// An `n`-bit assembly is below `pow2(n)`.
pub proof fn lemma_msb_val_bound(data: Seq<u8>, msb_first: bool, pos: nat, n: nat)
    ensures
        msb_val(data, msb_first, pos, n) < pow2(n),
    decreases n,
{
    lemma2_to64();
    if n == 0 {
    } else {
        lemma_stream_bit_le_1(data, msb_first, pos);
        lemma_msb_val_bound(data, msb_first, pos + 1, (n - 1) as nat);
        lemma_pow2_adds(1, (n - 1) as nat);
        let b = stream_bit(data, msb_first, pos);
        let p = pow2((n - 1) as nat);
        assert(b <= 1 ==> b * p <= p) by (nonlinear_arith);
    }
}

/// An `n`-bit assembly is below `pow2(n)`.
pub proof fn lemma_lsb_val_bound(data: Seq<u8>, msb_first: bool, pos: nat, n: nat)
    ensures
        lsb_val(data, msb_first, pos, n) < pow2(n),
    decreases n,
{
    lemma2_to64();
    if n == 0 {
    } else {
        lemma_stream_bit_le_1(data, msb_first, pos);
        lemma_lsb_val_bound(data, msb_first, pos + 1, (n - 1) as nat);
        lemma_pow2_adds(1, (n - 1) as nat);
    }
}

/// An LSB-first assembly splits at any point: the first `m` bits give the
/// low part, the next `n` the high part.
pub proof fn lemma_lsb_val_split(data: Seq<u8>, msb_first: bool, pos: nat, m: nat, n: nat)
    ensures
        lsb_val(data, msb_first, pos, m + n) == lsb_val(data, msb_first, pos, m) + lsb_val(
            data,
            msb_first,
            pos + m,
            n,
        ) * pow2(m),
    decreases m,
{
    lemma2_to64();
    if m == 0 {
    } else {
        lemma_lsb_val_split(data, msb_first, pos + 1, (m - 1) as nat, n);
        lemma_pow2_unfold(m);
        let h = lsb_val(data, msb_first, pos + m, n);
        let p = pow2((m - 1) as nat);
        assert(2 * (h * p) == h * (2 * p)) by (nonlinear_arith);
    }
}

/// Reading the 8 bits of one whole byte LSB-first gives the byte back.
pub proof fn lemma_lsb_val_byte(data: Seq<u8>, k: nat)
    requires
        k < data.len(),
    ensures
        lsb_val(data, false, 8 * k, 8) == data[k as int],
{
    reveal_with_fuel(lsb_val, 9);
    let byte = data[k as int];
    assert forall|i: nat| i < 8 implies #[trigger] stream_bit(data, false, 8 * k + i)
        == bit_of_byte(byte, i) by {
        assert((8 * k + i) / 8 == k && (8 * k + i) % 8 == i);
    }
    assert(byte == ((byte >> 0u8) & 1) + 2 * (((byte >> 1u8) & 1) + 2 * (((byte >> 2u8) & 1) + 2
        * (((byte >> 3u8) & 1) + 2 * (((byte >> 4u8) & 1) + 2 * (((byte >> 5u8) & 1) + 2 * (((byte
        >> 6u8) & 1) + 2 * ((byte >> 7u8) & 1)))))))) by (bit_vector);
}

/// Assembling a run of bits most-significant-first yields the bit-reverse of
/// assembling the same run least-significant-first.
pub proof fn lemma_msb_lsb_duality(data: Seq<u8>, msb_first: bool, pos: nat, n: nat)
    ensures
        msb_val(data, msb_first, pos, n) == rev_bits(lsb_val(data, msb_first, pos, n), n),
    decreases n,
{
    if n == 0 {
    } else {
        let b = stream_bit(data, msb_first, pos);
        let rest = lsb_val(data, msb_first, pos + 1, (n - 1) as nat);
        lemma_stream_bit_le_1(data, msb_first, pos);
        assert((b + 2 * rest) % 2 == b && (b + 2 * rest) / 2 == rest) by (nonlinear_arith)
            requires
                b <= 1,
        ;
        lemma_msb_lsb_duality(data, msb_first, pos + 1, (n - 1) as nat);
    }
}

/// Rounding up to a byte boundary is idempotent: a position already on a
/// boundary stays where it is.
pub proof fn lemma_round_up8_idempotent(pos: nat)
    ensures
        round_up8(pos) % 8 == 0,
        round_up8(round_up8(pos)) == round_up8(pos),
        pos <= round_up8(pos) < pos + 8,
{
}

} // verus!
