//! Byte- and bit-level helpers: big-endian byte assembly, packing a short
//! run of bits into a byte, and the Adler-32 checksum.

use vstd::prelude::*;
use vstd::arithmetic::power2::*;
use vstd::bits::*;
use crate::bits::{
    all_bits, be_byte_val, lemma_be_byte_val_bound, lemma_seq_lsb_val_bound,
    lemma_seq_msb_val_bound, seq_lsb_val, seq_msb_val,
};
use crate::{adler_pair, adler_spec};

verus! {

/// Read up to four bytes as one big-endian integer.
pub fn bytes_vec_to_single(hex_vec: &Vec<u8>) -> (r: u32)
    requires
        hex_vec@.len() <= 4,
    ensures
        r == be_byte_val(hex_vec@),
{
    let mut running_value: u32 = 0;
    let mut index: usize = 0;
    while index < hex_vec.len()
        invariant
            index <= hex_vec@.len(),
            running_value == be_byte_val(hex_vec@.take(index as int)),
        decreases hex_vec@.len() - index,
    {
        proof {
            lemma_be_byte_val_bound(hex_vec@.take(index as int));
            lemma2_to64();
            assert(hex_vec@.take(index as int + 1).drop_last() =~= hex_vec@.take(index as int));
        }
        running_value = running_value * 256 + (hex_vec[index] as u32);
        index += 1;
    }
    proof {
        assert(hex_vec@.take(hex_vec@.len() as int) =~= hex_vec@);
    }
    running_value
}

/// Pack up to 8 bits into a byte.
///
/// With `big_endian` the first bit becomes the most significant of the
/// result; without it the first bit becomes the least significant, and the
/// result is aligned to the top of the byte when fewer than 8 bits are given.
pub fn bits_to_byte(bits: &Vec<u8>, big_endian: bool) -> (r: u8)
    requires
        bits@.len() <= 8,
        all_bits(bits@),
    ensures
        big_endian ==> r == seq_msb_val(bits@),
        !big_endian ==> r == seq_lsb_val(bits@) * pow2((8 - bits@.len()) as nat),
{
    let ghost s = bits@;
    proof {
        lemma2_to64();
        assert(seq_lsb_val(s.take(0)) == 0);
        assert(seq_msb_val(s.take(0)) == 0);
    }
    let mut running_value: u8 = 0;
    let mut index: usize = 0;
    while index < bits.len()
        invariant
            index <= s.len() <= 8,
            s == bits@,
            big_endian ==> running_value == seq_msb_val(s.take(index as int)),
            !big_endian ==> running_value == seq_lsb_val(s.take(index as int)) * pow2(
                (8 - index) as nat,
            ),
        decreases s.len() - index,
    {
        let bit: u8 = bits[index];
        proof {
            lemma2_to64();
            assert(s.take(index as int + 1).drop_last() =~= s.take(index as int));
            assert(all_bits(s.take(index as int)));
            assert(all_bits(s.take(index as int + 1)));
        }
        running_value = match big_endian {
            false => {
                proof {
                    let li = seq_lsb_val(s.take(index as int));
                    let li1 = seq_lsb_val(s.take(index as int + 1));
                    let pi = pow2(index as nat);
                    let p7i = pow2((7 - index) as nat);
                    let p8i = pow2((8 - index) as nat);
                    let b = s[index as int];
                    lemma_seq_lsb_val_bound(s.take(index as int));
                    lemma_pow2_pos((7 - index) as nat);
                    lemma_pow2_unfold((8 - index) as nat);
                    lemma_pow2_adds(index as nat, (7 - index) as nat);
                    assert(li * p8i == 2 * (li * p7i)) by (nonlinear_arith)
                        requires
                            p8i == 2 * p7i,
                    ;
                    assert(li * p7i < pi * p7i) by (nonlinear_arith)
                        requires
                            li < pi,
                            p7i > 0,
                    ;
                    assert(li1 * p7i == li * p7i + b * (pi * p7i)) by (nonlinear_arith)
                        requires
                            li1 == li + b * pi,
                    ;
                    let rv = running_value;
                    assert(rv >> 1u8 == rv / 2) by (bit_vector);
                    assert(bit <= 1 ==> bit << 7u8 == bit * 128) by (bit_vector);
                    assert((rv / 2) | (bit << 7u8) == rv / 2 + (bit << 7u8)) by (bit_vector)
                        requires
                            bit <= 1,
                    ;
                }
                (running_value >> 1u8) | (bit << 7u8)
            },
            true => {
                proof {
                    lemma_seq_msb_val_bound(s.take(index as int));
                    if index < 7 {
                        lemma_pow2_strictly_increases(index as nat, 7);
                    }
                    let rv = running_value;
                    assert(rv < 128 ==> rv << 1u8 == rv * 2) by (bit_vector);
                    assert(rv < 128 && bit <= 1 ==> ((rv << 1u8) | bit) == (rv << 1u8) + bit) by (
                    bit_vector);
                }
                (running_value << 1u8) | bit
            },
        };
        index += 1;
    }
    proof {
        assert(s.take(s.len() as int) =~= s);
    }
    running_value
}

/// The Adler-32 checksum: two running sums modulo 65521, the pair packed
/// big-endian into one 32-bit value.
pub fn adler_32(bytes: &Vec<u8>) -> (r: u32)
    ensures
        r == adler_spec(bytes@),
{
    let mut a: u32 = 1;
    let mut b: u32 = 0;
    let mut index: usize = 0;
    while index < bytes.len()
        invariant
            index <= bytes@.len(),
            (a as nat, b as nat) == adler_pair(bytes@.take(index as int)),
            a < 65521,
            b < 65521,
        decreases bytes@.len() - index,
    {
        proof {
            assert(bytes@.take(index as int + 1).drop_last() =~= bytes@.take(index as int));
        }
        a = (a + (bytes[index] as u32)) % 65521;
        b = (b + a) % 65521;
        index += 1;
    }
    proof {
        assert(bytes@.take(bytes@.len() as int) =~= bytes@);
        lemma2_to64();
        lemma_u32_shl_is_mul(b, 16);
        let bv = b;
        let av = a;
        assert((bv << 16u32) | av == (bv << 16u32) + av) by (bit_vector)
            requires
                av < 0x10000u32,
                bv < 0x10000u32,
        ;
    }
    (b << 16u32) | a
}

} // verus!
