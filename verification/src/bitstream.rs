//! A bit stream over an owned byte vector that can be stepped bit by bit,
//! with helpers that gather runs of bits and whole bytes.
//!
//! The cursor keeps a byte index and a within-byte bit index; stepping goes
//! through an absolute bit position, which for the big-endian flavour does
//! not visit every bit of a byte in turn. The contracts describe the cursor
//! walk exactly, through [`cursor_next`] and [`read_bits_seq`].

use vstd::prelude::*;
use vstd::arithmetic::power2::pow2;
use crate::bits::{all_bits, bit_of_byte, seq_lsb_val};
use crate::low_level_functions::bits_to_byte;

verus! {

/// One cursor step: the absolute position `8 * bp + ki + 1`, split back into
/// a byte index and a stored bit index (complemented when big-endian).
pub open spec fn cursor_next(big_endian: bool, bp: nat, ki: nat) -> (nat, nat) {
    let l = (8 * bp + ki + 1) as nat;
    (
        l / 8,
        if big_endian {
            (7 - l % 8) as nat
        } else {
            l % 8
        },
    )
}

/// The cursor after `n` steps.
pub open spec fn cursor_after(big_endian: bool, bp: nat, ki: nat, n: nat) -> (nat, nat)
    decreases n,
{
    if n == 0 {
        (bp, ki)
    } else {
        let nx = cursor_next(big_endian, bp, ki);
        cursor_after(big_endian, nx.0, nx.1, (n - 1) as nat)
    }
}

/// The bit a cursor reads: bit `ki` of the byte under `bp`, 0 out of range.
pub open spec fn bit_at(contents: Seq<u8>, bp: nat, ki: nat) -> u8 {
    if bp < contents.len() && ki < 8 {
        bit_of_byte(contents[bp as int], ki) as u8
    } else {
        0u8
    }
}

/// Whether `n` successive steps all start inside the byte vector.
pub open spec fn can_read(contents: Seq<u8>, big_endian: bool, bp: nat, ki: nat, n: nat) -> bool
    decreases n,
{
    if n == 0 {
        true
    } else {
        let nx = cursor_next(big_endian, bp, ki);
        bp < contents.len() && can_read(contents, big_endian, nx.0, nx.1, (n - 1) as nat)
    }
}

/// The `n` bits that `n` successive steps read.
pub open spec fn read_bits_seq(
    contents: Seq<u8>,
    big_endian: bool,
    bp: nat,
    ki: nat,
    n: nat,
) -> Seq<u8>
    decreases n,
{
    if n == 0 {
        Seq::empty()
    } else {
        let nx = cursor_next(big_endian, bp, ki);
        seq![bit_at(contents, bp, ki)] + read_bits_seq(
            contents,
            big_endian,
            nx.0,
            nx.1,
            (n - 1) as nat,
        )
    }
}

/// A run of reads is the first read followed by the rest; equally it is the
/// first `n` reads followed by one more.
pub proof fn lemma_read_bits_seq_snoc(
    contents: Seq<u8>,
    big_endian: bool,
    bp: nat,
    ki: nat,
    n: nat,
)
    ensures
        ({
            let c = cursor_after(big_endian, bp, ki, n);
            read_bits_seq(contents, big_endian, bp, ki, n + 1) == read_bits_seq(
                contents,
                big_endian,
                bp,
                ki,
                n,
            ).push(bit_at(contents, c.0, c.1))
        }),
        read_bits_seq(contents, big_endian, bp, ki, n).len() == n,
        all_bits(read_bits_seq(contents, big_endian, bp, ki, n)),
    decreases n,
{
    let nx = cursor_next(big_endian, bp, ki);
    crate::bits::lemma_bit_of_byte_le_1(
        if bp < contents.len() {
            contents[bp as int]
        } else {
            0
        },
        ki,
    );
    if n == 0 {
        reveal_with_fuel(read_bits_seq, 2);
        reveal_with_fuel(cursor_after, 2);
        assert(read_bits_seq(contents, big_endian, bp, ki, 1) =~= Seq::empty().push(
            bit_at(contents, bp, ki),
        ));
    } else {
        lemma_read_bits_seq_snoc(contents, big_endian, nx.0, nx.1, (n - 1) as nat);
        let c = cursor_after(big_endian, bp, ki, n);
        assert(read_bits_seq(contents, big_endian, bp, ki, n + 1) =~= read_bits_seq(
            contents,
            big_endian,
            bp,
            ki,
            n,
        ).push(bit_at(contents, c.0, c.1)));
    }
}

/// Stepping `n + 1` times is stepping `n` times and once more, and stays
/// inside the stream exactly when every step does.
pub proof fn lemma_cursor_after_snoc(
    contents: Seq<u8>,
    big_endian: bool,
    bp: nat,
    ki: nat,
    n: nat,
)
    ensures
        ({
            let c = cursor_after(big_endian, bp, ki, n);
            &&& cursor_after(big_endian, bp, ki, n + 1) == cursor_next(big_endian, c.0, c.1)
            &&& can_read(contents, big_endian, bp, ki, n + 1) == (can_read(
                contents,
                big_endian,
                bp,
                ki,
                n,
            ) && c.0 < contents.len())
        }),
    decreases n,
{
    let nx = cursor_next(big_endian, bp, ki);
    if n == 0 {
        reveal_with_fuel(cursor_after, 2);
        reveal_with_fuel(can_read, 2);
    } else {
        lemma_cursor_after_snoc(contents, big_endian, nx.0, nx.1, (n - 1) as nat);
    }
}

/// Reading `a + b` steps is reading `a`, then `b` from where that left off.
pub proof fn lemma_can_read_add(
    contents: Seq<u8>,
    big_endian: bool,
    bp: nat,
    ki: nat,
    a: nat,
    b: nat,
)
    ensures
        ({
            let c = cursor_after(big_endian, bp, ki, a);
            &&& can_read(contents, big_endian, bp, ki, a + b) == (can_read(
                contents,
                big_endian,
                bp,
                ki,
                a,
            ) && can_read(contents, big_endian, c.0, c.1, b))
            &&& cursor_after(big_endian, bp, ki, a + b) == cursor_after(
                big_endian,
                c.0,
                c.1,
                b,
            )
        }),
    decreases a,
{
    if a > 0 {
        let nx = cursor_next(big_endian, bp, ki);
        lemma_can_read_add(contents, big_endian, nx.0, nx.1, (a - 1) as nat, b);
    }
}

/// A bit stream over an owned byte vector.
pub struct BitStream {
    bytes: Vec<u8>,
    byte_position: usize,
    bit_position: u8,  // stored within-byte index; big-endian starts at 7
    big_endian: bool,
}

impl BitStream {
    /// The bytes the stream walks over.
    pub closed spec fn contents(self) -> Seq<u8> {
        self.bytes@
    }

    /// Whether the stream hands out the high bit of each byte first.
    pub closed spec fn is_big_endian(self) -> bool {
        self.big_endian
    }

    /// The current byte index.
    pub closed spec fn byte_index(self) -> nat {
        self.byte_position as nat
    }

    /// The current stored within-byte bit index.
    pub closed spec fn bit_index(self) -> nat {
        self.bit_position as nat
    }

    /// The cursor is a valid within-byte position not past the end, and the
    /// stream is small enough that absolute bit positions fit a `usize`.
    pub closed spec fn wf(self) -> bool {
        &&& self.bit_position <= 7
        &&& self.byte_position <= self.bytes@.len()
        &&& 8 * self.bytes@.len() + 7 <= usize::MAX
    }

    pub fn new(data: Vec<u8>, big_endian: bool) -> (r: Self)
        requires
            8 * data@.len() + 7 <= usize::MAX,
        ensures
            r.wf(),
            r.contents() == data@,
            r.is_big_endian() == big_endian,
            r.byte_index() == 0,
            r.bit_index() == if big_endian {
                7nat
            } else {
                0nat
            },
    {
        Self {
            bytes: data,
            byte_position: 0,
            bit_position: if big_endian {
                7
            } else {
                0
            },
            big_endian,
        }
    }

    /// The bytes from `start` (inclusive) to `end` (exclusive).
    pub fn slice(&self, start: usize, end: usize) -> (r: &[u8])
        requires
            start <= end <= self.contents().len(),
        ensures
            r@ == self.contents().subrange(start as int, end as int),
    {
        &self.bytes[start..end]
    }

    /// Put the cursor back on the very first bit position of the stream.
    /// The stored bit index becomes 0 whichever bit order is in use.
    pub fn reset_bit_position(&mut self)
        ensures
            old(self).wf() ==> final(self).wf(),
            final(self).contents() == old(self).contents(),
            final(self).is_big_endian() == old(self).is_big_endian(),
            final(self).byte_index() == 0,
            final(self).bit_index() == 0,
    {
        self.bit_position = 0;
        self.byte_position = 0;
    }

    /// Move the cursor `n` bits forward (or backward for negative `n`)
    /// through the absolute position `8 * byte_index + bit_index`, storing
    /// the complemented within-byte index when big-endian.
    pub fn advance_bit_counter(&mut self, n: i16)
        requires
            old(self).wf(),
            n >= 0 ==> 8 * old(self).byte_index() + old(self).bit_index() + n <= 8 * old(
                self,
            ).contents().len(),
            n < 0 ==> -n <= 8 * old(self).byte_index() + old(self).bit_index(),
        ensures
            final(self).wf(),
            final(self).contents() == old(self).contents(),
            final(self).is_big_endian() == old(self).is_big_endian(),
            ({
                let l = 8 * old(self).byte_index() + old(self).bit_index() + n;
                &&& final(self).byte_index() == l / 8
                &&& final(self).bit_index() == (if old(self).is_big_endian() {
                    7 - l % 8
                } else {
                    l % 8
                })
            }),
    {
        if self.big_endian {
            self.bit_position = 7 - self.bit_position;
        }
        // find bit pos relative to entire stream
        let abs_bit_pos: usize = self.current_abs_bit_position();

        // calculate new bit pos, either added or subtracted
        let new_bit_pos: usize;
        if n < 0 {
            let magnitude: usize = (-(n as i32)) as usize;
            new_bit_pos = abs_bit_pos - magnitude;
        } else {
            new_bit_pos = abs_bit_pos + (n as usize);
        }

        self.byte_position = new_bit_pos / 8;
        self.bit_position = (new_bit_pos % 8) as u8;

        if self.big_endian {
            self.bit_position = 7 - self.bit_position;
        }
    }

    /// Jump to the first bit position of the next byte.
    pub fn move_to_next_byte(&mut self)
        requires
            old(self).wf(),
            old(self).byte_index() < old(self).contents().len(),
        ensures
            final(self).wf(),
            final(self).contents() == old(self).contents(),
            final(self).is_big_endian() == old(self).is_big_endian(),
            final(self).byte_index() == old(self).byte_index() + 1,
            final(self).bit_index() == if old(self).is_big_endian() {
                7nat
            } else {
                0nat
            },
    {
        self.byte_position += 1;
        self.bit_position = if self.big_endian {
            7
        } else {
            0
        };
    }

    /// The absolute bit position of the cursor: within a byte, a big-endian
    /// stream counts its stored index down from 7.
    pub fn current_abs_bit_position(&self) -> (r: usize)
        requires
            self.wf(),
        ensures
            r == if self.is_big_endian() {
                8 * self.byte_index() + 7 - self.bit_index()
            } else {
                (8 * self.byte_index() + self.bit_index()) as int
            },
    {
        match self.big_endian {
            false => self.byte_position * 8 + (self.bit_position as usize),
            true => self.byte_position * 8 + (7 - self.bit_position as usize),
        }
    }

    /// Read the bit under the cursor and step once.
    pub fn next(&mut self) -> (r: Option<u8>)
        requires
            old(self).wf(),
            8 * old(self).byte_index() + old(self).bit_index() < 8 * old(self).contents().len(),
        ensures
            final(self).wf(),
            final(self).contents() == old(self).contents(),
            final(self).is_big_endian() == old(self).is_big_endian(),
            r == Some(bit_at(old(self).contents(), old(self).byte_index(), old(self).bit_index())),
            ({
                let nx = cursor_next(
                    old(self).is_big_endian(),
                    old(self).byte_index(),
                    old(self).bit_index(),
                );
                final(self).byte_index() == nx.0 && final(self).bit_index() == nx.1
            }),
    {
        assert(self.bit_position < 8);
        let return_val: Option<u8> = match self.bytes.get(self.byte_position) {
            // get bit at bit_position of current_byte
            Some(current_byte) => {
                let b: u8 = (*current_byte >> self.bit_position) & 1u8;
                proof {
                    let byte = self.bytes@[self.byte_position as int];
                    let k = self.bit_position;
                    assert(((byte >> k) & 1) <= 1) by (bit_vector);
                }
                Some(b)
            },
            None => None,
        };

        // increment/decrement bit positions and increment byte position
        self.advance_bit_counter(1);
        return_val
    }

    /// Read `n` successive bits into a vector.
    pub fn next_n(&mut self, n: usize) -> (r: Vec<u8>)
        requires
            old(self).wf(),
            can_read(
                old(self).contents(),
                old(self).is_big_endian(),
                old(self).byte_index(),
                old(self).bit_index(),
                n as nat,
            ),
        ensures
            final(self).wf(),
            final(self).contents() == old(self).contents(),
            final(self).is_big_endian() == old(self).is_big_endian(),
            r@ == read_bits_seq(
                old(self).contents(),
                old(self).is_big_endian(),
                old(self).byte_index(),
                old(self).bit_index(),
                n as nat,
            ),
            ({
                let c = cursor_after(
                    old(self).is_big_endian(),
                    old(self).byte_index(),
                    old(self).bit_index(),
                    n as nat,
                );
                final(self).byte_index() == c.0 && final(self).bit_index() == c.1
            }),
    {
        let ghost contents = self.contents();
        let ghost flag = self.is_big_endian();
        let ghost bp0 = self.byte_index();
        let ghost ki0 = self.bit_index();
        let mut return_val: Vec<u8> = Vec::new();
        let mut i: usize = 0;
        while i < n
            invariant
                i <= n,
                self.wf(),
                self.contents() == contents,
                self.is_big_endian() == flag,
                return_val@ == read_bits_seq(contents, flag, bp0, ki0, i as nat),
                ({
                    let c = cursor_after(flag, bp0, ki0, i as nat);
                    self.byte_index() == c.0 && self.bit_index() == c.1
                }),
            decreases n - i,
        {
            proof {
                lemma_can_read_add(contents, flag, bp0, ki0, i as nat, (n - i) as nat);
                lemma_read_bits_seq_snoc(contents, flag, bp0, ki0, i as nat);
                lemma_cursor_after_snoc(contents, flag, bp0, ki0, i as nat);
            }
            let bit: u8 = match self.next() {
                Some(b) => b,
                None => 0,  // next always yields a bit here
            };
            return_val.push(bit);
            i += 1;
        }
        return_val
    }

    /// Read the next 8 bits as a byte, first bit least significant.
    pub fn next_byte(&mut self) -> (r: u8)
        requires
            old(self).wf(),
            can_read(
                old(self).contents(),
                old(self).is_big_endian(),
                old(self).byte_index(),
                old(self).bit_index(),
                8,
            ),
        ensures
            final(self).wf(),
            final(self).contents() == old(self).contents(),
            final(self).is_big_endian() == old(self).is_big_endian(),
            r == seq_lsb_val(
                read_bits_seq(
                    old(self).contents(),
                    old(self).is_big_endian(),
                    old(self).byte_index(),
                    old(self).bit_index(),
                    8,
                ),
            ),
            ({
                let c = cursor_after(
                    old(self).is_big_endian(),
                    old(self).byte_index(),
                    old(self).bit_index(),
                    8,
                );
                final(self).byte_index() == c.0 && final(self).bit_index() == c.1
            }),
    {
        proof {
            lemma_read_bits_seq_snoc(
                self.contents(),
                self.is_big_endian(),
                self.byte_index(),
                self.bit_index(),
                8,
            );
            vstd::arithmetic::power2::lemma2_to64();
        }
        let bits: Vec<u8> = self.next_n(8);
        let byte: u8 = bits_to_byte(&bits, false);
        proof {
            assert(bits@.len() == 8);
            assert(pow2(0) == 1);
            assert(byte == seq_lsb_val(bits@) * pow2(0));
            assert(seq_lsb_val(bits@) * pow2(0) == seq_lsb_val(bits@));
        }
        byte
    }

    /// Read `n` whole bytes, each assembled first-bit-least-significant.
    pub fn next_n_bytes(&mut self, n: usize) -> (r: Vec<u8>)
        requires
            old(self).wf(),
            can_read(
                old(self).contents(),
                old(self).is_big_endian(),
                old(self).byte_index(),
                old(self).bit_index(),
                8 * n as nat,
            ),
        ensures
            final(self).wf(),
            final(self).contents() == old(self).contents(),
            final(self).is_big_endian() == old(self).is_big_endian(),
            r@.len() == n,
            forall|j: int|
                0 <= j < n ==> r@[j] == seq_lsb_val(
                    #[trigger] read_bits_seq(
                        old(self).contents(),
                        old(self).is_big_endian(),
                        cursor_after(
                            old(self).is_big_endian(),
                            old(self).byte_index(),
                            old(self).bit_index(),
                            (8 * j) as nat,
                        ).0,
                        cursor_after(
                            old(self).is_big_endian(),
                            old(self).byte_index(),
                            old(self).bit_index(),
                            (8 * j) as nat,
                        ).1,
                        8,
                    ),
                ),
            ({
                let c = cursor_after(
                    old(self).is_big_endian(),
                    old(self).byte_index(),
                    old(self).bit_index(),
                    (8 * n) as nat,
                );
                final(self).byte_index() == c.0 && final(self).bit_index() == c.1
            }),
    {
        let ghost contents = self.contents();
        let ghost flag = self.is_big_endian();
        let ghost bp0 = self.byte_index();
        let ghost ki0 = self.bit_index();
        let mut bytes: Vec<u8> = Vec::new();
        let mut byte_n: usize = 0;
        while byte_n < n
            invariant
                byte_n <= n,
                self.wf(),
                self.contents() == contents,
                self.is_big_endian() == flag,
                bytes@.len() == byte_n,
                forall|j: int|
                    0 <= j < byte_n ==> bytes@[j] == seq_lsb_val(
                        #[trigger] read_bits_seq(
                            contents,
                            flag,
                            cursor_after(flag, bp0, ki0, (8 * j) as nat).0,
                            cursor_after(flag, bp0, ki0, (8 * j) as nat).1,
                            8,
                        ),
                    ),
                ({
                    let c = cursor_after(flag, bp0, ki0, (8 * byte_n) as nat);
                    self.byte_index() == c.0 && self.bit_index() == c.1
                }),
            decreases n - byte_n,
        {
            proof {
                lemma_can_read_add(contents, flag, bp0, ki0, (8 * byte_n) as nat, (8 * (n - byte_n)) as nat);
                let c = cursor_after(flag, bp0, ki0, (8 * byte_n) as nat);
                lemma_can_read_add(contents, flag, c.0, c.1, 8, (8 * (n - byte_n) - 8) as nat);
                lemma_can_read_add(contents, flag, bp0, ki0, (8 * byte_n) as nat, 8);
            }
            let byte: u8 = self.next_byte();
            bytes.push(byte);
            byte_n += 1;
        }
        bytes
    }
}

} // verus!
