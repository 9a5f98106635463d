//! A cursor over an immutable byte slice that yields one bit at a time,
//! most-significant-bit-first or least-significant-bit-first within each
//! byte, together with multi-bit reads and byte-aligned block reads.

use vstd::prelude::*;
use vstd::arithmetic::power2::*;
use vstd::bits::*;
use crate::bits::{
    lemma_lsb_snoc, lemma_lsb_val_bound, lemma_msb_lsb_duality, lemma_msb_snoc,
    lemma_msb_val_bound, lemma_round_up8_idempotent, lemma_stream_bit_le_1, lsb_val, msb_val,
    rev_bits, round_up8, stream_bit,
};

verus! {

/// The order that individual bits are read within a byte.
#[derive(Clone, Copy, PartialEq, Eq, Structural)]
pub enum Endian {
    BigEndian,
    LittleEndian,
}

pub struct BitReader<'a> {
    pub data: &'a [u8],
    pub byte_position: usize,
    pub bit_mask: u8,
    pub endian: Endian,
}

/// True when exactly one bit of `m` is set: the masks the reader steps
/// through.
pub open spec fn is_one_hot(m: u8) -> bool {
    m == 1 || m == 2 || m == 4 || m == 8 || m == 16 || m == 32 || m == 64 || m == 128
}

/// The index (0 = least significant) of the single set bit of a one-hot mask.
pub open spec fn mask_index(m: u8) -> nat {
    if m == 1 {
        0
    } else if m == 2 {
        1
    } else if m == 4 {
        2
    } else if m == 8 {
        3
    } else if m == 16 {
        4
    } else if m == 32 {
        5
    } else if m == 64 {
        6
    } else {
        7
    }
}

impl<'a> BitReader<'a> {
    /// The bytes the reader walks over.
    pub closed spec fn stream(self) -> Seq<u8> {
        self.data@
    }

    /// Whether the first bit of each byte is its most significant one.
    pub closed spec fn msb_first(self) -> bool {
        self.endian is BigEndian
    }

    /// The absolute bit position of the next bit to read, from 0 to
    /// `8 * stream().len()` inclusive.
    pub closed spec fn pos(self) -> nat {
        (self.byte_position * 8 + if self.msb_first() {
            (7 - mask_index(self.bit_mask)) as int
        } else {
            mask_index(self.bit_mask) as int
        }) as nat
    }

    /// The cursor addresses the next bit to read or sits one past the end.
    pub closed spec fn wf(self) -> bool {
        &&& is_one_hot(self.bit_mask)
        &&& self.pos() <= 8 * self.data@.len()
        &&& self.data@.len() == vstd::slice::spec_slice_len(self.data)
    }

    /// The public `byte_position` field is the byte the cursor stands in.
    pub proof fn lemma_byte_position(self)
        requires
            self.wf(),
        ensures
            self.byte_position == self.pos() / 8,
    {
    }

    /// A well-formed cursor sits at most one past the end of the input.
    pub proof fn lemma_pos_in_range(self)
        requires
            self.wf(),
        ensures
            self.pos() <= 8 * self.stream().len(),
    {
    }

    /// `endian` determines the order that individual bits are read in a byte.
    ///
    /// `Endian::LittleEndian` reads the least significant bits of a byte
    /// first, as DEFLATE requires.
    pub fn new(data: &'a [u8], endian: Endian) -> (r: Self)
        ensures
            r.wf(),
            r.stream() == data@,
            r.pos() == 0,
            r.msb_first() == (endian is BigEndian),
    {
        let initial_mask: u8 = match endian {
            Endian::BigEndian => 0b1000_0000,
            Endian::LittleEndian => 0b0000_0001,
        };
        Self { data: data, byte_position: 0, bit_mask: initial_mask, endian }
    }

    /// Skip to the next byte boundary; a no-op when already on one.
    pub fn skip_to_next_byte(&mut self)
        requires
            old(self).wf(),
        ensures
            final(self).wf(),
            final(self).stream() == old(self).stream(),
            final(self).msb_first() == old(self).msb_first(),
            final(self).pos() == round_up8(old(self).pos()),
    {
        let start_of_byte: bool = match self.endian {
            Endian::BigEndian => self.bit_mask == 0b1000_0000,
            Endian::LittleEndian => self.bit_mask == 0b0000_0001,
        };
        if !start_of_byte {
            self.next_byte();
        }
    }

    /// Skip to the start of the next byte, even from a byte boundary.
    fn next_byte(&mut self)
        requires
            old(self).wf(),
            old(self).pos() % 8 != 0,
        ensures
            final(self).wf(),
            final(self).stream() == old(self).stream(),
            final(self).msb_first() == old(self).msb_first(),
            final(self).pos() == 8 * (old(self).pos() / 8 + 1),
    {
        self.byte_position += 1;
        self.bit_mask = match self.endian {
            Endian::BigEndian => 0b1000_0000,
            Endian::LittleEndian => 0b0000_0001,
        };
    }

    /// Advance one bit without reading it.
    pub fn skip_bit(&mut self)
        requires
            old(self).wf(),
            old(self).pos() < 8 * old(self).stream().len(),
        ensures
            final(self).wf(),
            final(self).stream() == old(self).stream(),
            final(self).msb_first() == old(self).msb_first(),
            final(self).pos() == old(self).pos() + 1,
    {
        proof {
            assert(1u8 << 1 == 2 && 2u8 << 1 == 4 && 4u8 << 1 == 8 && 8u8 << 1 == 16 && 16u8 << 1
                == 32 && 32u8 << 1 == 64 && 64u8 << 1 == 128) by (bit_vector);
            assert(128u8 >> 1 == 64 && 64u8 >> 1 == 32 && 32u8 >> 1 == 16 && 16u8 >> 1 == 8 && 8u8
                >> 1 == 4 && 4u8 >> 1 == 2 && 2u8 >> 1 == 1) by (bit_vector);
        }
        match self.endian {
            Endian::BigEndian => {
                if self.bit_mask == 0b0000_0001 {
                    self.bit_mask = 0b1000_0000;
                    self.byte_position += 1;
                } else {
                    self.bit_mask = self.bit_mask >> 1;
                }
            },
            Endian::LittleEndian => {
                if self.bit_mask == 0b1000_0000 {
                    self.bit_mask = 0b0000_0001;
                    self.byte_position += 1;
                } else {
                    self.bit_mask = self.bit_mask << 1;
                }
            },
        }
    }

    /// Read the bit under the cursor; `None` past the end of the input.
    pub fn read_bit(&mut self) -> (r: Option<u8>)
        requires
            old(self).wf(),
        ensures
            final(self).wf(),
            final(self).stream() == old(self).stream(),
            final(self).msb_first() == old(self).msb_first(),
            old(self).pos() < 8 * old(self).stream().len() ==> {
                &&& r == Some(
                    (stream_bit(old(self).stream(), old(self).msb_first(), old(self).pos()) as u8),
                )
                &&& final(self).pos() == old(self).pos() + 1
            },
            old(self).pos() >= 8 * old(self).stream().len() ==> r is None && final(self).pos()
                == old(self).pos(),
    {
        let byte: u8 = match self.data.get(self.byte_position) {
            Some(b) => *b,
            None => {
                return None;
            },
        };
        let bit: u8 = ((byte & self.bit_mask) > 0) as u8;
        proof {
            assert(((byte & 1u8) > 0) == (((byte >> 0u8) & 1) == 1) && ((byte & 2u8) > 0) == (((
            byte >> 1u8) & 1) == 1) && ((byte & 4u8) > 0) == (((byte >> 2u8) & 1) == 1) && ((byte
                & 8u8) > 0) == (((byte >> 3u8) & 1) == 1) && ((byte & 16u8) > 0) == (((byte >> 4u8)
                & 1) == 1) && ((byte & 32u8) > 0) == (((byte >> 5u8) & 1) == 1) && ((byte & 64u8)
                > 0) == (((byte >> 6u8) & 1) == 1) && ((byte & 128u8) > 0) == (((byte >> 7u8) & 1)
                == 1)) by (bit_vector);
            lemma_stream_bit_le_1(self.stream(), self.msb_first(), self.pos());
        }
        self.skip_bit();
        Some(bit)
    }

    /// Read `count` bits, assembling them so that the first bit read is the
    /// most significant: reading 3 bits of `0b1100_0101` MSB-first yields 6.
    ///
    /// `count` must be 64 or less. `None` when the input runs out, which
    /// leaves the cursor at the end of the input.
    pub fn read_bits(&mut self, count: usize) -> (r: Option<u64>)
        requires
            old(self).wf(),
            count <= 64,
        ensures
            final(self).wf(),
            final(self).stream() == old(self).stream(),
            final(self).msb_first() == old(self).msb_first(),
            old(self).pos() + count <= 8 * old(self).stream().len() ==> {
                &&& r == Some(
                    (msb_val(
                        old(self).stream(),
                        old(self).msb_first(),
                        old(self).pos(),
                        count as nat,
                    ) as u64),
                )
                &&& final(self).pos() == old(self).pos() + count
            },
            old(self).pos() + count > 8 * old(self).stream().len() ==> r is None && final(self).pos() == 8 * old(self).stream().len(),
    {
        let mut byte: u64 = 0;
        let ghost data = self.stream();
        let ghost msb = self.msb_first();
        let ghost pos0 = self.pos();
        let mut i: usize = 0;
        while i < count
            invariant
                self.wf(),
                self.stream() == data,
                self.msb_first() == msb,
                i <= count <= 64,
                self.pos() == pos0 + i,
                byte == msb_val(data, msb, pos0, i as nat),
            decreases count - i,
        {
            proof {
                lemma_msb_val_bound(data, msb, pos0, i as nat);
                if (i as nat) < 63 {
                    lemma_pow2_strictly_increases(i as nat, 63);
                }
                lemma2_to64();
                lemma2_to64_rest();
                assert(byte < 0x8000_0000_0000_0000 ==> byte << 1u64 == byte * 2) by (bit_vector);
            }
            byte = byte << 1u64;
            let b: u64 = match self.read_bit() {
                Some(b) => b as u64,
                None => {
                    return None;
                },
            };
            proof {
                lemma_stream_bit_le_1(data, msb, pos0 + i as nat);
                lemma_msb_snoc(data, msb, pos0, i as nat);
                assert(byte % 2 == 0 && b <= 1 ==> (byte | b) == byte + b) by (bit_vector);
            }
            byte = byte | b;
            i += 1;
        }
        Some(byte)
    }

    /// Read `count` bits, assembling them so that the first bit read is the
    /// least significant: reading 3 bits of `0b1100_0101` MSB-first yields 6,
    /// but 3 here.
    ///
    /// `count` must be 64 or less. `None` when the input runs out, which
    /// leaves the cursor at the end of the input.
    pub fn read_bits_reverse(&mut self, count: usize) -> (r: Option<u64>)
        requires
            old(self).wf(),
            count <= 64,
        ensures
            final(self).wf(),
            final(self).stream() == old(self).stream(),
            final(self).msb_first() == old(self).msb_first(),
            old(self).pos() + count <= 8 * old(self).stream().len() ==> {
                &&& r == Some(
                    (lsb_val(
                        old(self).stream(),
                        old(self).msb_first(),
                        old(self).pos(),
                        count as nat,
                    ) as u64),
                )
                &&& final(self).pos() == old(self).pos() + count
            },
            old(self).pos() + count > 8 * old(self).stream().len() ==> r is None && final(self).pos() == 8 * old(self).stream().len(),
    {
        let mut byte: u64 = 0;
        let ghost data = self.stream();
        let ghost msb = self.msb_first();
        let ghost pos0 = self.pos();
        let mut i: usize = 0;
        while i < count
            invariant
                self.wf(),
                self.stream() == data,
                self.msb_first() == msb,
                i <= count <= 64,
                self.pos() == pos0 + i,
                byte == lsb_val(data, msb, pos0, i as nat),
            decreases count - i,
        {
            let b: u64 = match self.read_bit() {
                Some(b) => b as u64,
                None => {
                    return None;
                },
            };
            proof {
                lemma_lsb_val_bound(data, msb, pos0, i as nat);
                lemma_stream_bit_le_1(data, msb, pos0 + i as nat);
                lemma_lsb_snoc(data, msb, pos0, i as nat);
                if (i as nat) < 63 {
                    lemma_pow2_strictly_increases(i as nat, 63);
                }
                lemma2_to64();
                lemma2_to64_rest();
                let p = pow2(i as nat);
                assert(b <= 1 ==> b * p <= p) by (nonlinear_arith);
                lemma_u64_shl_is_mul(b, i as u64);
                lemma_u64_shl_is_mul(1u64, i as u64);
                let s = i as u64;
                assert((byte | (b << s)) == byte + (b << s)) by (bit_vector)
                    requires
                        byte < (1u64 << s),
                        b <= 1u64,
                        s < 64u64,
                ;
            }
            byte = byte | (b << (i as u64));
            i += 1;
        }
        Some(byte)
    }

    /// Read 8 bits assembled MSB-first.
    pub fn read_u8(&mut self) -> (r: Option<u8>)
        requires
            old(self).wf(),
        ensures
            final(self).wf(),
            final(self).stream() == old(self).stream(),
            final(self).msb_first() == old(self).msb_first(),
            old(self).pos() + 8 <= 8 * old(self).stream().len() ==> {
                &&& r == Some(
                    (msb_val(old(self).stream(), old(self).msb_first(), old(self).pos(), 8) as u8),
                )
                &&& final(self).pos() == old(self).pos() + 8
            },
            old(self).pos() + 8 > 8 * old(self).stream().len() ==> r is None,
    {
        proof {
            lemma_msb_val_bound(self.stream(), self.msb_first(), self.pos(), 8);
            lemma2_to64();
        }
        match self.read_bits(8) {
            Some(v) => Some(v as u8),
            None => None,
        }
    }

    /// Read 8 bits assembled LSB-first.
    pub fn read_u8_reverse(&mut self) -> (r: Option<u8>)
        requires
            old(self).wf(),
        ensures
            final(self).wf(),
            final(self).stream() == old(self).stream(),
            final(self).msb_first() == old(self).msb_first(),
            old(self).pos() + 8 <= 8 * old(self).stream().len() ==> {
                &&& r == Some(
                    (lsb_val(old(self).stream(), old(self).msb_first(), old(self).pos(), 8) as u8),
                )
                &&& final(self).pos() == old(self).pos() + 8
            },
            old(self).pos() + 8 > 8 * old(self).stream().len() ==> r is None,
    {
        proof {
            lemma_lsb_val_bound(self.stream(), self.msb_first(), self.pos(), 8);
            lemma2_to64();
        }
        match self.read_bits_reverse(8) {
            Some(v) => Some(v as u8),
            None => None,
        }
    }

    /// Skip to the next byte boundary, then overwrite `to` with the next
    /// `to.len()` whole bytes of input. `None`, leaving `to` untouched, when
    /// fewer bytes than that remain.
    pub fn read_byte_slice(&mut self, to: &mut Vec<u8>) -> (r: Option<()>)
        requires
            old(self).wf(),
        ensures
            final(self).wf(),
            final(self).stream() == old(self).stream(),
            final(self).msb_first() == old(self).msb_first(),
            ({
                let a = round_up8(old(self).pos()) / 8;
                if a + old(to).len() <= old(self).stream().len() {
                    &&& r == Some(())
                    &&& final(to)@ == old(self).stream().subrange(
                        a as int,
                        a + old(to).len(),
                    )
                    &&& final(self).pos() == 8 * (a + old(to).len())
                } else {
                    &&& r is None
                    &&& final(to)@ == old(to)@
                    &&& final(self).pos() == round_up8(old(self).pos())
                }
            }),
    {
        self.skip_to_next_byte();
        let length: usize = to.len();
        let start_index: usize = self.byte_position;
        proof {
            self.lemma_byte_position();
        }
        if length > self.data.len() - start_index {
            return None;
        }
        let ghost data = self.stream();
        let mut byte_index: usize = 0;
        while byte_index < length
            invariant
                byte_index <= length,
                to@.len() == length,
                forall|j: int| 0 <= j < byte_index ==> to@[j] == data[start_index + j],
            decreases length - byte_index,
        {
            let byte: u8 = match self.data.get(start_index + byte_index) {
                Some(b) => *b,
                None => {
                    return None;
                },
            };
            to[byte_index] = byte;
            byte_index += 1;
        }
        self.byte_position = start_index + length;
        proof {
            assert(to@ =~= old(self).stream().subrange(start_index as int, start_index + length));
        }
        Some(())
    }
}

/// Assembling `n` bits MSB-first reads the bit-reverse of assembling the same
/// `n` bits LSB-first, for any byte sequence, either bit order within bytes,
/// any start position and any `n`.
pub proof fn lemma_read_bits_duality(data: Seq<u8>, msb_first: bool, pos: nat, n: nat)
    ensures
        msb_val(data, msb_first, pos, n) == rev_bits(lsb_val(data, msb_first, pos, n), n),
{
    lemma_msb_lsb_duality(data, msb_first, pos, n);
}

/// Skipping to the next byte boundary twice is the same as skipping once: the
/// position either operation leaves behind is a fixed point of `round_up8`.
pub proof fn lemma_skip_to_next_byte_idempotent(pos: nat)
    ensures
        round_up8(round_up8(pos)) == round_up8(pos),
{
    lemma_round_up8_idempotent(pos);
}

} // verus!
