//! DEFLATE block decoding: the BFINAL/BTYPE outer loop, stored blocks,
//! fixed- and dynamic-Huffman blocks, and length/distance back-reference
//! expansion into the output buffer.
//!
//! Every executable step is proved against a recursive specification decoder
//! ([`spec_run`] and the functions under it) that reads the same bits.

use vstd::prelude::*;
use vstd::arithmetic::power2::*;
use vstd::bits::*;
use crate::bitreader::{BitReader, Endian};
use crate::bits::{
    lemma_lsb_snoc, lemma_lsb_val_bound, lemma_msb_snoc, lemma_msb_val_bound,
    lemma_stream_bit_le_1, lsb_val, msb_val, round_up8, stream_bit,
};
use crate::huffman_coding::{
    canonical_map, has_nonzero, huff_probe, max_code_len, min_code_len, valid_codelengths,
    HuffmanTree,
};

verus! {

/// A literal/length symbol after its extra bits are resolved.
pub enum LiteralLengthSymbol {
    Literal(u8),
    EndOfBlock,
    Length(u16),
}

#[derive(Clone, Copy, Debug, PartialEq, Eq, Structural)]
pub enum DeflateError {
    NoFinalBlock,
    NoBType,
    InvalidBType,
    ReservedBType,
    InvalidUncompressedBlock(usize),
    InvalidFixedBlock(usize),
    InvalidDynamicBlock(usize),
}

/// The position of the `i`th entry of the code-length code-length vector:
/// the permutation of RFC 1951 section 3.2.7.
pub open spec fn clen_order(i: int) -> int {
    if i == 0 {
        16
    } else if i == 1 {
        17
    } else if i == 2 {
        18
    } else if i == 3 {
        0
    } else if i == 4 {
        8
    } else if i == 5 {
        7
    } else if i == 6 {
        9
    } else if i == 7 {
        6
    } else if i == 8 {
        10
    } else if i == 9 {
        5
    } else if i == 10 {
        11
    } else if i == 11 {
        4
    } else if i == 12 {
        12
    } else if i == 13 {
        3
    } else if i == 14 {
        13
    } else if i == 15 {
        2
    } else if i == 16 {
        14
    } else if i == 17 {
        1
    } else {
        15
    }
}

/// The number of extra bits that follow literal/length symbol `sym`.
pub open spec fn length_extra_bits(sym: nat) -> nat {
    if sym <= 264 {
        0
    } else if sym <= 268 {
        1
    } else if sym <= 272 {
        2
    } else if sym <= 276 {
        3
    } else if sym <= 280 {
        4
    } else if sym <= 284 {
        5
    } else {
        0
    }
}

/// The base copy length of literal/length symbol `sym`.
pub open spec fn length_base(sym: nat) -> nat {
    if sym <= 264 {
        (sym - 254) as nat
    } else if sym <= 268 {
        (11 + (sym - 265) * 2) as nat
    } else if sym <= 272 {
        (19 + (sym - 269) * 4) as nat
    } else if sym <= 276 {
        (35 + (sym - 273) * 8) as nat
    } else if sym <= 280 {
        (67 + (sym - 277) * 16) as nat
    } else if sym <= 284 {
        (131 + (sym - 281) * 32) as nat
    } else {
        258
    }
}

/// The number of extra bits that follow distance symbol `d`.
pub open spec fn dist_extra_bits(d: nat) -> nat {
    if d <= 3 {
        0
    } else {
        ((d - 2) / 2) as nat
    }
}

/// The base distance of distance symbol `d`.
pub open spec fn dist_base(d: nat) -> nat {
    if d <= 3 {
        d + 1
    } else if d <= 5 {
        (5 + (d - 4) * 2) as nat
    } else if d <= 7 {
        (9 + (d - 6) * 4) as nat
    } else if d <= 9 {
        (17 + (d - 8) * 8) as nat
    } else if d <= 11 {
        (33 + (d - 10) * 16) as nat
    } else if d <= 13 {
        (65 + (d - 12) * 32) as nat
    } else if d <= 15 {
        (129 + (d - 14) * 64) as nat
    } else if d <= 17 {
        (257 + (d - 16) * 128) as nat
    } else if d <= 19 {
        (513 + (d - 18) * 256) as nat
    } else if d <= 21 {
        (1025 + (d - 20) * 512) as nat
    } else if d <= 23 {
        (2049 + (d - 22) * 1024) as nat
    } else if d <= 25 {
        (4097 + (d - 24) * 2048) as nat
    } else if d <= 27 {
        (8193 + (d - 26) * 4096) as nat
    } else {
        (16385 + (d - 28) * 8192) as nat
    }
}

/// Resolve one literal/length symbol at `pos`: a literal byte, the
/// end-of-block mark, or a copy length with its extra bits consumed. `None`
/// when the symbol is out of range or the extra bits are missing.
pub open spec fn spec_lit_len(data: Seq<u8>, pos: nat, sym: nat) -> Option<
    (LiteralLengthSymbol, nat),
> {
    if sym <= 255 {
        Some((LiteralLengthSymbol::Literal(sym as u8), pos))
    } else if sym == 256 {
        Some((LiteralLengthSymbol::EndOfBlock, pos))
    } else if sym <= 284 {
        let eb = length_extra_bits(sym);
        if pos + eb <= 8 * data.len() {
            Some(
                (
                    LiteralLengthSymbol::Length(
                        (length_base(sym) + lsb_val(data, false, pos, eb)) as u16,
                    ),
                    pos + eb,
                ),
            )
        } else {
            None
        }
    } else if sym == 285 {
        Some((LiteralLengthSymbol::Length(258u16), pos))
    } else {
        None
    }
}

/// Resolve one distance symbol at `pos` into a distance, its extra bits
/// consumed. `None` when the symbol is out of range or the bits are missing.
pub open spec fn spec_distance(data: Seq<u8>, pos: nat, dsym: nat) -> Option<(nat, nat)> {
    if dsym <= 29 {
        let eb = dist_extra_bits(dsym);
        if pos + eb <= 8 * data.len() {
            Some((dist_base(dsym) + lsb_val(data, false, pos, eb), pos + eb))
        } else {
            None
        }
    } else {
        None
    }
}

/// `window` repeated over and over, cut to `n` bytes.
pub open spec fn tile(window: Seq<u8>, n: nat) -> Seq<u8> {
    Seq::new(n, |i: int| window[i % (window.len() as int)])
}

/// The output after a back-reference: the last `distance` bytes, tiled out
/// to `length` bytes and appended.
pub open spec fn spec_backref(out: Seq<u8>, length: nat, distance: nat) -> Seq<u8> {
    out + tile(out.skip(out.len() - distance), length)
}

/// Tiling reads the window cyclically: byte `i` of the tiled run is byte
/// `i mod distance` of the window.
pub proof fn lemma_tile_index(window: Seq<u8>, n: nat, i: int)
    requires
        window.len() > 0,
        0 <= i < n,
    ensures
        tile(window, n)[i] == window[i % (window.len() as int)],
{
}

/// Decode one fixed-Huffman literal/length symbol at `pos` by the inlined
/// ranges of RFC 1951 section 3.2.6: 7 bits MSB-first, then an 8th and a 9th
/// as the ranges require.
pub open spec fn spec_fixed_lit(data: Seq<u8>, pos: nat) -> Option<(nat, nat)> {
    if pos + 7 > 8 * data.len() {
        None
    } else {
        let b7 = msb_val(data, false, pos, 7);
        if b7 <= 23 {
            Some((b7 + 256, pos + 7))
        } else if pos + 8 > 8 * data.len() {
            None
        } else {
            let b8 = msb_val(data, false, pos, 8);
            if 48 <= b8 <= 191 {
                Some(((b8 - 48) as nat, pos + 8))
            } else if 192 <= b8 <= 199 {
                Some((b8 + 88, pos + 8))
            } else if pos + 9 > 8 * data.len() {
                None
            } else {
                let b9 = msb_val(data, false, pos, 9);
                if 400 <= b9 <= 511 {
                    Some(((b9 - 256) as nat, pos + 9))
                } else {
                    None
                }
            }
        }
    }
}

/// Run the fixed-Huffman symbol loop from `pos` with output `out` until the
/// end-of-block symbol: literals append a byte; length symbols read a 5-bit
/// MSB-first distance symbol and append a back-reference. `None` on any
/// malformed or truncated step, a too-large distance included.
pub open spec fn spec_fixed_symbols(data: Seq<u8>, pos: nat, out: Seq<u8>) -> Option<
    (nat, Seq<u8>),
>
    decreases 8 * data.len() - pos,
{
    match spec_fixed_lit(data, pos) {
        None => None,
        Some((sym, p1)) => match spec_lit_len(data, p1, sym) {
            None => None,
            Some((ll, p2)) => match ll {
                LiteralLengthSymbol::EndOfBlock => Some((p2, out)),
                LiteralLengthSymbol::Literal(b) => spec_fixed_symbols(data, p2, out.push(b)),
                LiteralLengthSymbol::Length(length) => {
                    if p2 + 5 > 8 * data.len() {
                        None
                    } else {
                        let ds = msb_val(data, false, p2, 5);
                        if ds > 29 {
                            None
                        } else {
                            match spec_distance(data, p2 + 5, ds) {
                                None => None,
                                Some((distance, p3)) => {
                                    if distance > out.len() {
                                        None
                                    } else {
                                        spec_fixed_symbols(
                                            data,
                                            p3,
                                            spec_backref(out, length as nat, distance),
                                        )
                                    }
                                },
                            }
                        }
                    }
                },
            },
        },
    }
}

/// Run the dynamic-Huffman symbol loop from `pos` with output `out`, reading
/// literal/length symbols through one canonical mapping and distance symbols
/// through another.
pub open spec fn spec_dyn_symbols(
    data: Seq<u8>,
    pos: nat,
    out: Seq<u8>,
    lit_m: Map<u32, u16>,
    lit_min: nat,
    lit_max: nat,
    dist_m: Map<u32, u16>,
    dist_min: nat,
    dist_max: nat,
) -> Option<(nat, Seq<u8>)>
    decreases 8 * data.len() - pos,
{
    match huff_probe(lit_m, data, false, pos, lit_min, lit_max) {
        None => None,
        Some((sym, l1)) => {
            let p1 = pos + l1;
            if p1 <= pos || p1 > 8 * data.len() {
                None
            } else {
                match spec_lit_len(data, p1, sym as nat) {
                    None => None,
                    Some((ll, p2)) => match ll {
                        LiteralLengthSymbol::EndOfBlock => Some((p2, out)),
                        LiteralLengthSymbol::Literal(b) => spec_dyn_symbols(
                            data,
                            p2,
                            out.push(b),
                            lit_m,
                            lit_min,
                            lit_max,
                            dist_m,
                            dist_min,
                            dist_max,
                        ),
                        LiteralLengthSymbol::Length(length) => {
                            match huff_probe(dist_m, data, false, p2, dist_min, dist_max) {
                                None => None,
                                Some((dsym, l2)) => {
                                    let p2b = p2 + l2;
                                    if p2b > 8 * data.len() {
                                        None
                                    } else {
                                        match spec_distance(data, p2b, dsym as nat) {
                                            None => None,
                                            Some((distance, p3)) => {
                                                if distance > out.len() {
                                                    None
                                                } else {
                                                    spec_dyn_symbols(
                                                        data,
                                                        p3,
                                                        spec_backref(out, length as nat, distance),
                                                        lit_m,
                                                        lit_min,
                                                        lit_max,
                                                        dist_m,
                                                        dist_min,
                                                        dist_max,
                                                    )
                                                }
                                            },
                                        }
                                    }
                                },
                            }
                        },
                    },
                }
            }
        },
    }
}

/// Read `hclen` three-bit values starting at entry `i`, placing them into
/// the 19-entry vector `acc` at the permuted positions.
pub open spec fn spec_clen_lengths(
    data: Seq<u8>,
    pos: nat,
    i: nat,
    hclen: nat,
    acc: Seq<u8>,
) -> Option<(Seq<u8>, nat)>
    decreases hclen - i,
{
    if i >= hclen {
        Some((acc, pos))
    } else if pos + 3 > 8 * data.len() {
        None
    } else {
        spec_clen_lengths(
            data,
            pos + 3,
            i + 1,
            hclen,
            acc.update(clen_order(i as int), lsb_val(data, false, pos, 3) as u8),
        )
    }
}

/// `acc` with entries `start .. start + n` replaced by `v`.
pub open spec fn seq_fill(acc: Seq<u8>, start: nat, n: nat, v: u8) -> Seq<u8> {
    Seq::new(
        acc.len() as nat,
        |i: int|
            if start <= i < start + n {
                v
            } else {
                acc[i]
            },
    )
}

/// Decode code lengths through the code-length alphabet until `count` have
/// been produced: symbols 0-15 set one length, 16 repeats the previous
/// length 3-6 times, 17 and 18 skip over runs of zeros. `None` on a
/// truncated stream, a 16 with nothing before it, or a repeat that overruns
/// the vector.
pub open spec fn spec_dyn_lengths(
    data: Seq<u8>,
    pos: nat,
    m: Map<u32, u16>,
    minl: nat,
    maxl: nat,
    parsed: nat,
    count: nat,
    acc: Seq<u8>,
) -> Option<(Seq<u8>, nat)>
    decreases (if parsed < count {
        (count - parsed) as nat
    } else {
        0nat
    }),
{
    if parsed >= count {
        Some((acc, pos))
    } else {
        match huff_probe(m, data, false, pos, minl, maxl) {
            None => None,
            Some((sym, l)) => {
                let p1 = pos + l;
                if sym <= 15 {
                    spec_dyn_lengths(
                        data,
                        p1,
                        m,
                        minl,
                        maxl,
                        parsed + 1,
                        count,
                        acc.update(parsed as int, sym as u8),
                    )
                } else if sym == 16 {
                    if p1 + 2 > 8 * data.len() {
                        None
                    } else {
                        let rep = lsb_val(data, false, p1, 2) + 3;
                        if parsed == 0 || parsed + rep > acc.len() {
                            None
                        } else {
                            spec_dyn_lengths(
                                data,
                                p1 + 2,
                                m,
                                minl,
                                maxl,
                                parsed + rep,
                                count,
                                seq_fill(acc, parsed, rep, acc[parsed - 1]),
                            )
                        }
                    }
                } else if sym == 17 {
                    if p1 + 3 > 8 * data.len() {
                        None
                    } else {
                        spec_dyn_lengths(
                            data,
                            p1 + 3,
                            m,
                            minl,
                            maxl,
                            parsed + lsb_val(data, false, p1, 3) + 3,
                            count,
                            acc,
                        )
                    }
                } else if sym == 18 {
                    if p1 + 7 > 8 * data.len() {
                        None
                    } else {
                        spec_dyn_lengths(
                            data,
                            p1 + 7,
                            m,
                            minl,
                            maxl,
                            parsed + lsb_val(data, false, p1, 7) + 11,
                            count,
                            acc,
                        )
                    }
                } else {
                    None
                }
            },
        }
    }
}

/// Decode a stored block at `pos`: align to the next byte, read LEN and
/// NLEN little-endian, demand they are complements, and append the next LEN
/// whole bytes to `out`. The error carries the byte offset of the aligned
/// block start.
pub open spec fn spec_stored(data: Seq<u8>, pos: nat, out: Seq<u8>) -> Result<
    (nat, Seq<u8>),
    DeflateError,
> {
    let p = round_up8(pos);
    let idx = p / 8;
    if p + 32 > 8 * data.len() {
        Err(DeflateError::InvalidUncompressedBlock(idx as usize))
    } else {
        let len = lsb_val(data, false, p, 16);
        let nlen = lsb_val(data, false, p + 16, 16);
        if len != 65535 - nlen {
            Err(DeflateError::InvalidUncompressedBlock(idx as usize))
        } else {
            let a = (p + 32) / 8;
            if a + len > data.len() {
                Err(DeflateError::InvalidUncompressedBlock(idx as usize))
            } else {
                Ok(((a + len) * 8, out + data.subrange(a as int, (a + len) as int)))
            }
        }
    }
}

/// Decode a dynamic-Huffman block at `pos`: read HLIT, HDIST and HCLEN,
/// build the code-length tree, decode the two code-length vectors, build
/// both trees, and run the symbol loop. `None` stands for a malformed or
/// truncated block.
pub open spec fn spec_dynamic_block(data: Seq<u8>, pos: nat, out: Seq<u8>) -> Option<
    (nat, Seq<u8>),
> {
    if pos + 14 > 8 * data.len() {
        None
    } else {
        let hlit = lsb_val(data, false, pos, 5) + 257;
        let hdist = lsb_val(data, false, pos + 5, 5) + 1;
        let hclen = lsb_val(data, false, pos + 10, 4) + 4;
        if hlit > 286 {
            None
        } else {
        match spec_clen_lengths(data, pos + 14, 0, hclen, Seq::new(19, |i: int| 0u8)) {
            None => None,
            Some((clens, p1)) => {
                if !has_nonzero(clens) {
                    None
                } else {
                    match spec_dyn_lengths(
                        data,
                        p1,
                        canonical_map(clens),
                        min_code_len(clens),
                        max_code_len(clens),
                        0,
                        hlit,
                        Seq::new(286, |i: int| 0u8),
                    ) {
                        None => None,
                        Some((lit_lens, p2)) => {
                            if !has_nonzero(lit_lens) {
                                None
                            } else {
                                match spec_dyn_lengths(
                                    data,
                                    p2,
                                    canonical_map(clens),
                                    min_code_len(clens),
                                    max_code_len(clens),
                                    0,
                                    hdist,
                                    Seq::new(32, |i: int| 0u8),
                                ) {
                                    None => None,
                                    Some((dist_lens, p3)) => {
                                        if !has_nonzero(dist_lens) {
                                            None
                                        } else {
                                            spec_dyn_symbols(
                                                data,
                                                p3,
                                                out,
                                                canonical_map(lit_lens),
                                                min_code_len(lit_lens),
                                                max_code_len(lit_lens),
                                                canonical_map(dist_lens),
                                                min_code_len(dist_lens),
                                                max_code_len(dist_lens),
                                            )
                                        }
                                    },
                                }
                            }
                        },
                    }
                }
            },
        }
        }
    }
}

/// Decode one block at `pos`: BFINAL, then the two BTYPE bits LSB-first,
/// then the block body of the selected type. Returns the position and output
/// after the block together with BFINAL, or the block's error.
pub open spec fn spec_block(data: Seq<u8>, pos: nat, out: Seq<u8>) -> Result<
    (nat, nat, Seq<u8>),
    DeflateError,
> {
    if pos + 1 > 8 * data.len() {
        Err(DeflateError::NoFinalBlock)
    } else if pos + 3 > 8 * data.len() {
        Err(DeflateError::NoBType)
    } else {
        let bfinal = stream_bit(data, false, pos);
        let b1 = stream_bit(data, false, pos + 1);
        let b2 = stream_bit(data, false, pos + 2);
        if b1 == 0 && b2 == 0 {
            match spec_stored(data, pos + 3, out) {
                Err(e) => Err(e),
                Ok((p, o)) => Ok((bfinal, p, o)),
            }
        } else if b1 == 1 && b2 == 0 {
            match spec_fixed_symbols(data, pos + 3, out) {
                None => Err(DeflateError::InvalidFixedBlock((((pos + 3) / 8) as usize))),
                Some((p, o)) => Ok((bfinal, p, o)),
            }
        } else if b1 == 0 && b2 == 1 {
            match spec_dynamic_block(data, pos + 3, out) {
                None => Err(DeflateError::InvalidDynamicBlock((((pos + 3) / 8) as usize))),
                Some((p, o)) => Ok((bfinal, p, o)),
            }
        } else {
            Err(DeflateError::ReservedBType)
        }
    }
}

/// Every step of the specification decoder moves forward through the bit
/// stream and never past its end.
pub proof fn lemma_spec_steps_advance(data: Seq<u8>, pos: nat, out: Seq<u8>)
    ensures
        spec_fixed_symbols(data, pos, out) matches Some((p, o)) ==> pos < p <= 8 * data.len(),
        spec_stored(data, pos, out) matches Ok((p, o)) ==> pos <= p <= 8 * data.len(),
        spec_dynamic_block(data, pos, out) matches Some((p, o)) ==> pos < p <= 8 * data.len(),
        spec_block(data, pos, out) matches Ok((b, p, o)) ==> pos < p <= 8 * data.len(),
{
    lemma_spec_fixed_symbols_advance(data, pos, out);
    crate::bits::lemma_round_up8_idempotent(pos);
    if spec_dynamic_block(data, pos, out) is Some {
        lemma_spec_dynamic_block_advance(data, pos, out);
    }
    if pos + 3 <= 8 * data.len() {
        lemma_spec_fixed_symbols_advance(data, (pos + 3) as nat, out);
        crate::bits::lemma_round_up8_idempotent((pos + 3) as nat);
        if spec_dynamic_block(data, (pos + 3) as nat, out) is Some {
            lemma_spec_dynamic_block_advance(data, (pos + 3) as nat, out);
        }
    }
}

pub proof fn lemma_spec_fixed_symbols_advance(data: Seq<u8>, pos: nat, out: Seq<u8>)
    ensures
        spec_fixed_symbols(data, pos, out) matches Some((p, o)) ==> pos < p <= 8 * data.len(),
    decreases 8 * data.len() - pos,
{
    match spec_fixed_lit(data, pos) {
        None => {},
        Some((sym, p1)) => match spec_lit_len(data, p1, sym) {
            None => {},
            Some((ll, p2)) => match ll {
                LiteralLengthSymbol::EndOfBlock => {},
                LiteralLengthSymbol::Literal(b) => {
                    lemma_spec_fixed_symbols_advance(data, p2, out.push(b));
                },
                LiteralLengthSymbol::Length(length) => {
                    if p2 + 5 <= 8 * data.len() {
                        let ds = msb_val(data, false, p2, 5);
                        if ds <= 29 {
                            match spec_distance(data, p2 + 5, ds) {
                                None => {},
                                Some((distance, p3)) => {
                                    if distance <= out.len() {
                                        lemma_spec_fixed_symbols_advance(
                                            data,
                                            p3,
                                            spec_backref(out, length as nat, distance),
                                        );
                                    }
                                },
                            }
                        }
                    }
                },
            },
        },
    }
}

pub proof fn lemma_spec_dyn_symbols_advance(
    data: Seq<u8>,
    pos: nat,
    out: Seq<u8>,
    lit_m: Map<u32, u16>,
    lit_min: nat,
    lit_max: nat,
    dist_m: Map<u32, u16>,
    dist_min: nat,
    dist_max: nat,
)
    ensures
        spec_dyn_symbols(data, pos, out, lit_m, lit_min, lit_max, dist_m, dist_min, dist_max)
            matches Some((p, o)) ==> pos < p <= 8 * data.len(),
    decreases 8 * data.len() - pos,
{
    match huff_probe(lit_m, data, false, pos, lit_min, lit_max) {
        None => {},
        Some((sym, l1)) => {
            let p1 = pos + l1;
            if p1 <= pos || p1 > 8 * data.len() {
            } else {
                match spec_lit_len(data, p1, sym as nat) {
                    None => {},
                    Some((ll, p2)) => match ll {
                        LiteralLengthSymbol::EndOfBlock => {},
                        LiteralLengthSymbol::Literal(b) => {
                            lemma_spec_dyn_symbols_advance(
                                data,
                                p2,
                                out.push(b),
                                lit_m,
                                lit_min,
                                lit_max,
                                dist_m,
                                dist_min,
                                dist_max,
                            );
                        },
                        LiteralLengthSymbol::Length(length) => {
                            match huff_probe(dist_m, data, false, p2, dist_min, dist_max) {
                                None => {},
                                Some((dsym, l2)) => {
                                    let p2b = p2 + l2;
                                    if p2b <= 8 * data.len() {
                                        match spec_distance(data, p2b, dsym as nat) {
                                            None => {},
                                            Some((distance, p3)) => {
                                                if distance <= out.len() {
                                                    lemma_spec_dyn_symbols_advance(
                                                        data,
                                                        p3,
                                                        spec_backref(out, length as nat, distance),
                                                        lit_m,
                                                        lit_min,
                                                        lit_max,
                                                        dist_m,
                                                        dist_min,
                                                        dist_max,
                                                    );
                                                }
                                            },
                                        }
                                    }
                                },
                            }
                        },
                    },
                }
            }
        },
    }
}

pub proof fn lemma_spec_dyn_lengths_advance(
    data: Seq<u8>,
    pos: nat,
    m: Map<u32, u16>,
    minl: nat,
    maxl: nat,
    parsed: nat,
    count: nat,
    acc: Seq<u8>,
)
    requires
        pos <= 8 * data.len(),
    ensures
        spec_dyn_lengths(data, pos, m, minl, maxl, parsed, count, acc) matches Some((s, p)) ==> pos
            <= p <= 8 * data.len(),
    decreases (if parsed < count {
        (count - parsed) as nat
    } else {
        0nat
    }),
{
    if parsed < count {
        match huff_probe(m, data, false, pos, minl, maxl) {
            None => {},
            Some((sym, l)) => {
                crate::huffman_coding::lemma_huff_probe_consumes(m, data, false, pos, minl, maxl);
                let p1 = pos + l;
                if sym <= 15 {
                    lemma_spec_dyn_lengths_advance(
                        data,
                        p1,
                        m,
                        minl,
                        maxl,
                        parsed + 1,
                        count,
                        acc.update(parsed as int, sym as u8),
                    );
                } else if sym == 16 {
                    if p1 + 2 <= 8 * data.len() {
                        let rep = lsb_val(data, false, p1, 2) + 3;
                        if parsed != 0 && parsed + rep <= acc.len() {
                            lemma_spec_dyn_lengths_advance(
                                data,
                                (p1 + 2) as nat,
                                m,
                                minl,
                                maxl,
                                parsed + rep,
                                count,
                                seq_fill(acc, parsed, rep, acc[parsed - 1]),
                            );
                        }
                    }
                } else if sym == 17 {
                    if p1 + 3 <= 8 * data.len() {
                        lemma_spec_dyn_lengths_advance(
                            data,
                            (p1 + 3) as nat,
                            m,
                            minl,
                            maxl,
                            parsed + lsb_val(data, false, p1, 3) + 3,
                            count,
                            acc,
                        );
                    }
                } else if sym == 18 {
                    if p1 + 7 <= 8 * data.len() {
                        lemma_spec_dyn_lengths_advance(
                            data,
                            (p1 + 7) as nat,
                            m,
                            minl,
                            maxl,
                            parsed + lsb_val(data, false, p1, 7) + 11,
                            count,
                            acc,
                        );
                    }
                }
            },
        }
    }
}

pub proof fn lemma_spec_clen_lengths_advance(
    data: Seq<u8>,
    pos: nat,
    i: nat,
    hclen: nat,
    acc: Seq<u8>,
)
    requires
        pos <= 8 * data.len(),
    ensures
        spec_clen_lengths(data, pos, i, hclen, acc) matches Some((s, p)) ==> pos <= p <= 8
            * data.len(),
    decreases hclen - i,
{
    if i < hclen && pos + 3 <= 8 * data.len() {
        lemma_spec_clen_lengths_advance(
            data,
            pos + 3,
            i + 1,
            hclen,
            acc.update(clen_order(i as int), lsb_val(data, false, pos, 3) as u8),
        );
    }
}

pub proof fn lemma_spec_dynamic_block_advance(data: Seq<u8>, pos: nat, out: Seq<u8>)
    ensures
        spec_dynamic_block(data, pos, out) matches Some((p, o)) ==> pos < p <= 8 * data.len(),
{
    if pos + 14 <= 8 * data.len() {
        let hlit = lsb_val(data, false, pos, 5) + 257;
        let hdist = lsb_val(data, false, pos + 5, 5) + 1;
        let hclen = lsb_val(data, false, pos + 10, 4) + 4;
        lemma_spec_clen_lengths_advance(
            data,
            pos + 14,
            0,
            hclen,
            Seq::new(19, |i: int| 0u8),
        );
        match spec_clen_lengths(data, pos + 14, 0, hclen, Seq::new(19, |i: int| 0u8)) {
            None => {},
            Some((clens, p1)) => {
                lemma_spec_dyn_lengths_advance(
                    data,
                    p1,
                    canonical_map(clens),
                    min_code_len(clens),
                    max_code_len(clens),
                    0,
                    hlit,
                    Seq::new(286, |i: int| 0u8),
                );
                match spec_dyn_lengths(
                    data,
                    p1,
                    canonical_map(clens),
                    min_code_len(clens),
                    max_code_len(clens),
                    0,
                    hlit,
                    Seq::new(286, |i: int| 0u8),
                ) {
                    None => {},
                    Some((lit_lens, p2)) => {
                        lemma_spec_dyn_lengths_advance(
                            data,
                            p2,
                            canonical_map(clens),
                            min_code_len(clens),
                            max_code_len(clens),
                            0,
                            hdist,
                            Seq::new(32, |i: int| 0u8),
                        );
                        match spec_dyn_lengths(
                            data,
                            p2,
                            canonical_map(clens),
                            min_code_len(clens),
                            max_code_len(clens),
                            0,
                            hdist,
                            Seq::new(32, |i: int| 0u8),
                        ) {
                            None => {},
                            Some((dist_lens, p3)) => {
                                lemma_spec_dyn_symbols_advance(
                                    data,
                                    p3,
                                    out,
                                    canonical_map(lit_lens),
                                    min_code_len(lit_lens),
                                    max_code_len(lit_lens),
                                    canonical_map(dist_lens),
                                    min_code_len(dist_lens),
                                    max_code_len(dist_lens),
                                );
                            },
                        }
                    },
                }
            },
        }
    }
}

/// A byte string wrapped in a single stored block: BFINAL set, BTYPE 00,
/// LEN and NLEN little-endian, then the bytes themselves.
pub open spec fn stored_block_stream(x: Seq<u8>) -> Seq<u8> {
    seq![
        1u8,
        (x.len() % 256) as u8,
        ((x.len() / 256) % 256) as u8,
        (255 - x.len() % 256) as u8,
        (255 - (x.len() / 256) % 256) as u8,
    ] + x
}

/// Round trip with the trivial compressor: a byte string short enough for
/// one stored block decompresses to itself.
pub proof fn lemma_stored_block_round_trip(x: Seq<u8>)
    requires
        x.len() < 0x10000,
    ensures
        spec_run(stored_block_stream(x), 0, Seq::empty()) matches Ok(o) && o == x,
{
    let s = stored_block_stream(x);
    assert(s.len() == 5 + x.len());
    assert(s[0] == 1u8 && s[1] == (x.len() % 256) as u8 && s[2] == ((x.len() / 256) % 256) as u8
        && s[3] == (255 - x.len() % 256) as u8 && s[4] == (255 - (x.len() / 256) % 256) as u8);
    assert(((1u8 >> 0u8) & 1) == 1 && ((1u8 >> 1u8) & 1) == 0 && ((1u8 >> 2u8) & 1) == 0) by (
    bit_vector);
    assert(stream_bit(s, false, 0) == 1);
    assert(stream_bit(s, false, 1) == 0);
    assert(stream_bit(s, false, 2) == 0);

    // the stored block starts at the byte boundary after the three header bits
    assert(round_up8(3) == 8);
    crate::bits::lemma_lsb_val_split(s, false, 8, 8, 8);
    crate::bits::lemma_lsb_val_byte(s, 1);
    crate::bits::lemma_lsb_val_byte(s, 2);
    lemma2_to64();
    assert(lsb_val(s, false, 8, 16) == x.len() % 256 + ((x.len() / 256) % 256) * 256);
    assert(x.len() % 256 + (x.len() / 256) * 256 == x.len());
    assert((x.len() / 256) % 256 == x.len() / 256);
    crate::bits::lemma_lsb_val_split(s, false, 24, 8, 8);
    crate::bits::lemma_lsb_val_byte(s, 3);
    crate::bits::lemma_lsb_val_byte(s, 4);
    assert(lsb_val(s, false, 24, 16) == 255 - x.len() % 256 + (255 - x.len() / 256) * 256);
    assert(lsb_val(s, false, 8, 16) == 65535 - lsb_val(s, false, 24, 16));

    assert(s.subrange(5, 5 + x.len() as int) =~= x);
    assert(Seq::<u8>::empty() + x =~= x);
    assert(spec_stored(s, 3, Seq::empty()) matches Ok((p, o)) && p == 8 * (5 + x.len()) && o
        == x);
}


/// Run the whole DEFLATE stream from `pos` with output `out`: decode blocks
/// until one with BFINAL set has been fully decoded, and return the final
/// output.
pub open spec fn spec_run(data: Seq<u8>, pos: nat, out: Seq<u8>) -> Result<Seq<u8>, DeflateError>
    decreases 8 * data.len() - pos,
    via spec_run_decreases
{
    match spec_block(data, pos, out) {
        Err(e) => Err(e),
        Ok((bfinal, p, o)) => {
            if bfinal != 0 {
                Ok(o)
            } else {
                spec_run(data, p, o)
            }
        },
    }
}

#[via_fn]
proof fn spec_run_decreases(data: Seq<u8>, pos: nat, out: Seq<u8>) {
    lemma_spec_steps_advance(data, pos, out);
}

/// The block-level DEFLATE decompressor: a little-endian bit reader over the
/// compressed bytes and the output buffer grown so far.
pub struct DeflateDecompression<'a> {
    bits: BitReader<'a>,
    decompressed_buffer: Vec<u8>,
}

/// Compute a base value plus extra bits: `first_value` is the value of the
/// first code of a range, each code in the range spans `2^extra_bit_count`
/// values, and `extra_bits` selects within the span of code `code_index`.
pub fn value_from_extra_bits(
    code_index: usize,
    first_value: usize,
    extra_bit_count: usize,
    extra_bits: u16,
) -> (r: u16)
    requires
        extra_bit_count < 16,
        first_value + code_index * pow2(extra_bit_count as nat) + extra_bits < 0x10000,
    ensures
        r == first_value + code_index * pow2(extra_bit_count as nat) + extra_bits,
{
    proof {
        lemma2_to64();
        lemma_usize_shl_is_mul(1usize, extra_bit_count);
        if extra_bit_count < 15 {
            lemma_pow2_strictly_increases(extra_bit_count as nat, 15);
        }
    }
    let max_range: usize = 1usize << extra_bit_count;
    let start_of_range: usize = first_value + (code_index * max_range);
    (start_of_range as u16) + extra_bits
}

/// The entry of the code-length permutation at `i`.
fn clen_order_at(i: usize) -> (r: usize)
    requires
        i < 19,
    ensures
        r == clen_order(i as int),
        r < 19,
{
    match i {
        0 => 16,
        1 => 17,
        2 => 18,
        3 => 0,
        4 => 8,
        5 => 7,
        6 => 9,
        7 => 6,
        8 => 10,
        9 => 5,
        10 => 11,
        11 => 4,
        12 => 12,
        13 => 3,
        14 => 13,
        15 => 2,
        16 => 14,
        17 => 1,
        _ => 15,
    }
}

impl<'a> DeflateDecompression<'a> {
    /// The compressed bytes being decoded.
    pub closed spec fn stream(self) -> Seq<u8> {
        self.bits.stream()
    }

    /// The absolute bit position of the next bit to decode.
    pub closed spec fn pos(self) -> nat {
        self.bits.pos()
    }

    /// The bytes decompressed so far.
    pub closed spec fn out(self) -> Seq<u8> {
        self.decompressed_buffer@
    }

    /// The reader is well-formed and little-endian, as DEFLATE requires.
    pub closed spec fn wf(self) -> bool {
        self.bits.wf() && !self.bits.msb_first()
    }

    pub fn new(deflate_bytes: &'a [u8]) -> (r: Self)
        ensures
            r.wf(),
            r.stream() == deflate_bytes@,
            r.pos() == 0,
            r.out() == Seq::<u8>::empty(),
    {
        let r = Self {
            bits: BitReader::new(deflate_bytes, Endian::LittleEndian),
            decompressed_buffer: Vec::new(),
        };
        proof {
            assert(r.out() =~= Seq::<u8>::empty());
        }
        r
    }

    /// Resolve a literal/length symbol, reading its extra bits: exactly
    /// [`spec_lit_len`].
    fn process_lit_len_symbol(&mut self, symbol: u16) -> (r: Option<LiteralLengthSymbol>)
        requires
            old(self).wf(),
        ensures
            final(self).wf(),
            final(self).stream() == old(self).stream(),
            final(self).out() == old(self).out(),
            match spec_lit_len(old(self).stream(), old(self).pos(), symbol as nat) {
                Some((ll, p)) => r == Some(ll) && final(self).pos() == p,
                None => r is None,
            },
    {
        let ghost stream = self.stream();
        let ghost pos0 = self.pos();
        proof {
            self.bits.lemma_pos_in_range();
            lemma2_to64();
            lemma_lsb_snoc(stream, false, pos0, 0);
            lemma_lsb_val_bound(stream, false, pos0, 1);
            lemma_lsb_val_bound(stream, false, pos0, 2);
            lemma_lsb_val_bound(stream, false, pos0, 3);
            lemma_lsb_val_bound(stream, false, pos0, 4);
            lemma_lsb_val_bound(stream, false, pos0, 5);
        }
        // in this match statement, all other symbols except length symbols
        // return from the function
        let length: u16 = match symbol {
            0..=255 => {
                return Some(LiteralLengthSymbol::Literal(symbol as u8));
            },
            256 => {
                return Some(LiteralLengthSymbol::EndOfBlock);
            },
            257..=264 => {
                // no extra bits
                symbol - 254
            },
            265..=268 => {
                // 1 extra bit
                let extra: u8 = match self.bits.read_bit() {
                    Some(b) => b,
                    None => {
                        return None;
                    },
                };
                value_from_extra_bits((symbol - 265) as usize, 11, 1, extra as u16)
            },
            269..=272 => {
                // 2 extra bits
                let extra: u64 = match self.bits.read_bits_reverse(2) {
                    Some(b) => b,
                    None => {
                        return None;
                    },
                };
                value_from_extra_bits((symbol - 269) as usize, 19, 2, extra as u16)
            },
            273..=276 => {
                // 3 extra bits
                let extra: u64 = match self.bits.read_bits_reverse(3) {
                    Some(b) => b,
                    None => {
                        return None;
                    },
                };
                value_from_extra_bits((symbol - 273) as usize, 35, 3, extra as u16)
            },
            277..=280 => {
                // 4 extra bits
                let extra: u64 = match self.bits.read_bits_reverse(4) {
                    Some(b) => b,
                    None => {
                        return None;
                    },
                };
                value_from_extra_bits((symbol - 277) as usize, 67, 4, extra as u16)
            },
            281..=284 => {
                // 5 extra bits
                let extra: u64 = match self.bits.read_bits_reverse(5) {
                    Some(b) => b,
                    None => {
                        return None;
                    },
                };
                value_from_extra_bits((symbol - 281) as usize, 131, 5, extra as u16)
            },
            285 => { 258 },
            _ => {
                return None;
            },
        };

        Some(LiteralLengthSymbol::Length(length))
    }

    /// Resolve a distance symbol, reading its extra bits: exactly
    /// [`spec_distance`].
    fn process_distance_symbol(&mut self, symbol: u16) -> (r: Option<u16>)
        requires
            old(self).wf(),
        ensures
            final(self).wf(),
            final(self).stream() == old(self).stream(),
            final(self).out() == old(self).out(),
            match spec_distance(old(self).stream(), old(self).pos(), symbol as nat) {
                Some((d, p)) => r == Some(d as u16) && d < 0x10000 && final(self).pos() == p,
                None => r is None,
            },
    {
        let ghost stream = self.stream();
        let ghost pos0 = self.pos();
        proof {
            self.bits.lemma_pos_in_range();
            lemma2_to64();
            lemma_lsb_snoc(stream, false, pos0, 0);
            assert forall|n: nat| n <= 13 implies lsb_val(stream, false, pos0, n) < pow2(n) by {
                lemma_lsb_val_bound(stream, false, pos0, n);
            }
        }
        match symbol {
            0..=3 => { Some(symbol + 1) },
            4..=5 => {
                // 1 extra bit
                let extra: u8 = match self.bits.read_bit() {
                    Some(b) => b,
                    None => {
                        return None;
                    },
                };
                Some(value_from_extra_bits((symbol - 4) as usize, 5, 1, extra as u16))
            },
            6..=7 => {
                // 2 extra bits
                let extra: u64 = match self.bits.read_bits_reverse(2) {
                    Some(b) => b,
                    None => {
                        return None;
                    },
                };
                Some(value_from_extra_bits((symbol - 6) as usize, 9, 2, extra as u16))
            },
            8..=9 => {
                // 3 extra bits
                let extra: u64 = match self.bits.read_bits_reverse(3) {
                    Some(b) => b,
                    None => {
                        return None;
                    },
                };
                Some(value_from_extra_bits((symbol - 8) as usize, 17, 3, extra as u16))
            },
            10..=11 => {
                // 4 extra bits
                let extra: u64 = match self.bits.read_bits_reverse(4) {
                    Some(b) => b,
                    None => {
                        return None;
                    },
                };
                Some(value_from_extra_bits((symbol - 10) as usize, 33, 4, extra as u16))
            },
            12..=13 => {
                // 5 extra bits
                let extra: u64 = match self.bits.read_bits_reverse(5) {
                    Some(b) => b,
                    None => {
                        return None;
                    },
                };
                Some(value_from_extra_bits((symbol - 12) as usize, 65, 5, extra as u16))
            },
            14..=15 => {
                // 6 extra bits
                let extra: u64 = match self.bits.read_bits_reverse(6) {
                    Some(b) => b,
                    None => {
                        return None;
                    },
                };
                Some(value_from_extra_bits((symbol - 14) as usize, 129, 6, extra as u16))
            },
            16..=17 => {
                // 7 extra bits
                let extra: u64 = match self.bits.read_bits_reverse(7) {
                    Some(b) => b,
                    None => {
                        return None;
                    },
                };
                Some(value_from_extra_bits((symbol - 16) as usize, 257, 7, extra as u16))
            },
            18..=19 => {
                // 8 extra bits
                let extra: u64 = match self.bits.read_bits_reverse(8) {
                    Some(b) => b,
                    None => {
                        return None;
                    },
                };
                Some(value_from_extra_bits((symbol - 18) as usize, 513, 8, extra as u16))
            },
            20..=21 => {
                // 9 extra bits
                let extra: u64 = match self.bits.read_bits_reverse(9) {
                    Some(b) => b,
                    None => {
                        return None;
                    },
                };
                Some(value_from_extra_bits((symbol - 20) as usize, 1025, 9, extra as u16))
            },
            22..=23 => {
                // 10 extra bits
                let extra: u64 = match self.bits.read_bits_reverse(10) {
                    Some(b) => b,
                    None => {
                        return None;
                    },
                };
                Some(value_from_extra_bits((symbol - 22) as usize, 2049, 10, extra as u16))
            },
            24..=25 => {
                // 11 extra bits
                let extra: u64 = match self.bits.read_bits_reverse(11) {
                    Some(b) => b,
                    None => {
                        return None;
                    },
                };
                Some(value_from_extra_bits((symbol - 24) as usize, 4097, 11, extra as u16))
            },
            26..=27 => {
                // 12 extra bits
                let extra: u64 = match self.bits.read_bits_reverse(12) {
                    Some(b) => b,
                    None => {
                        return None;
                    },
                };
                Some(value_from_extra_bits((symbol - 26) as usize, 8193, 12, extra as u16))
            },
            28..=29 => {
                // 13 extra bits
                let extra: u64 = match self.bits.read_bits_reverse(13) {
                    Some(b) => b,
                    None => {
                        return None;
                    },
                };
                Some(value_from_extra_bits((symbol - 28) as usize, 16385, 13, extra as u16))
            },
            _ => {
                return None;
            },
        }
    }

    /// Append a back-reference: `length` bytes read cyclically from the last
    /// `distance` bytes of the output, self-overlapping copies included.
    fn fill_length_distance_data(&mut self, length: usize, distance: usize)
        requires
            old(self).wf(),
            1 <= distance <= old(self).out().len(),
        ensures
            final(self).wf(),
            final(self).stream() == old(self).stream(),
            final(self).pos() == old(self).pos(),
            final(self).out() == spec_backref(old(self).out(), length as nat, distance as nat),
    {
        let ghost out0 = self.out();
        let ghost window = out0.skip(out0.len() - distance as nat);
        let start_range: usize = self.decompressed_buffer.len() - distance;
        let mut i: usize = 0;
        while i < length
            invariant
                i <= length,
                1 <= distance <= out0.len(),
                start_range == out0.len() - distance,
                window == out0.skip(out0.len() - distance as nat),
                self.wf() == old(self).wf(),
                self.bits == old(self).bits,
                self.out() == out0 + tile(window, i as nat),
            decreases length - i,
        {
            proof {
                assert(out0 + tile(window, i as nat + 1) =~= (out0 + tile(window, i as nat)).push(
                    window[i as int % (distance as int)],
                ));
                assert(window[i as int % (distance as int)] == out0[start_range + (
                i as int % (distance as int))]);
            }
            let byte: u8 = self.decompressed_buffer[start_range + (i % distance)];
            self.decompressed_buffer.push(byte);
            i += 1;
        }
        proof {
            assert(self.out() =~= spec_backref(out0, length as nat, distance as nat));
        }
    }

    /// Decode one fixed-Huffman symbol and apply it to the output: one step
    /// of [`spec_fixed_symbols`]. `Some(true)` on end of block, `Some(false)`
    /// after a literal or back-reference, `None` on a malformed step.
    fn next_fixed_compressed_symbol(&mut self) -> (r: Option<bool>)
        requires
            old(self).wf(),
        ensures
            final(self).wf(),
            final(self).stream() == old(self).stream(),
            ({
                let sf = spec_fixed_symbols(old(self).stream(), old(self).pos(), old(self).out());
                match r {
                    None => sf is None,
                    Some(true) => sf == Some((final(self).pos(), final(self).out())),
                    Some(false) => sf == spec_fixed_symbols(
                        old(self).stream(),
                        final(self).pos(),
                        final(self).out(),
                    ) && final(self).pos() > old(self).pos(),
                }
            }),
    {
        let ghost stream = self.stream();
        let ghost pos0 = self.pos();
        let ghost out0 = self.out();
        proof {
            self.bits.lemma_pos_in_range();
            lemma_msb_val_bound(stream, false, pos0, 7);
            lemma_msb_val_bound(stream, false, pos0, 8);
            lemma_msb_val_bound(stream, false, pos0, 9);
            lemma_msb_snoc(stream, false, pos0, 7);
            lemma_msb_snoc(stream, false, pos0, 8);
            lemma2_to64();
        }
        let mut bits: u16 = match self.bits.read_bits(7) {
            Some(b) => b as u16,
            None => {
                return None;
            },
        };
        let symbol: u16 = if bits <= 23 {
            bits + 256
        } else {
            let b: u8 = match self.bits.read_bit() {
                Some(b) => b,
                None => {
                    return None;
                },
            };
            proof {
                lemma_stream_bit_le_1(stream, false, pos0 + 7);
                let bt = bits;
                let bv = b as u16;
                assert((bt << 1u16) | bv == 2 * bt + bv) by (bit_vector)
                    requires
                        bt < 0x8000u16,
                        bv <= 1u16,
                ;
            }
            bits = (bits << 1u16) | (b as u16);
            if bits >= 48 && bits <= 191 {
                bits - 48
            } else if bits >= 192 && bits <= 199 {
                bits + 88
            } else {
                let b2: u8 = match self.bits.read_bit() {
                    Some(b) => b,
                    None => {
                        return None;
                    },
                };
                proof {
                    lemma_stream_bit_le_1(stream, false, pos0 + 8);
                    let bt = bits;
                    let bv = b2 as u16;
                    assert((bt << 1u16) | bv == 2 * bt + bv) by (bit_vector)
                        requires
                            bt < 0x8000u16,
                            bv <= 1u16,
                    ;
                }
                bits = (bits << 1u16) | (b2 as u16);
                if bits >= 400 && bits <= 511 {
                    bits - 256
                } else {
                    return None;
                }
            }
        };

        let symbol_type: LiteralLengthSymbol = match self.process_lit_len_symbol(symbol) {
            Some(s) => s,
            None => {
                return None;
            },
        };
        match symbol_type {
            LiteralLengthSymbol::EndOfBlock => {
                return Some(true);
            },
            LiteralLengthSymbol::Literal(lit) => {
                self.decompressed_buffer.push(lit);
            },
            LiteralLengthSymbol::Length(length) => {
                let ghost p2 = self.pos();
                proof {
                    lemma_msb_val_bound(stream, false, p2, 5);
                    lemma2_to64();
                }
                let distance_symbol: u64 = match self.bits.read_bits(5) {
                    Some(b) => b,
                    None => {
                        return None;
                    },
                };
                if distance_symbol > 29 {
                    return None;
                }
                let distance: u16 = match self.process_distance_symbol(distance_symbol as u16) {
                    Some(d) => d,
                    None => {
                        return None;
                    },
                };
                if (distance as usize) > self.decompressed_buffer.len() {
                    return None;
                }
                self.fill_length_distance_data(length as usize, distance as usize);
            },
        };

        Some(false)
    }

    /// Decode one dynamic-Huffman symbol through the two trees and apply it:
    /// one step of [`spec_dyn_symbols`].
    fn next_dynamic_compressed_symbol(
        &mut self,
        lit_len_codes: &HuffmanTree,
        distance_codes: &HuffmanTree,
    ) -> (r: Option<bool>)
        requires
            old(self).wf(),
            lit_len_codes.wf(),
            distance_codes.wf(),
        ensures
            final(self).wf(),
            final(self).stream() == old(self).stream(),
            ({
                let sd = spec_dyn_symbols(
                    old(self).stream(),
                    old(self).pos(),
                    old(self).out(),
                    lit_len_codes.contents(),
                    lit_len_codes.min_len(),
                    lit_len_codes.max_len(),
                    distance_codes.contents(),
                    distance_codes.min_len(),
                    distance_codes.max_len(),
                );
                match r {
                    None => sd is None,
                    Some(true) => sd == Some((final(self).pos(), final(self).out())),
                    Some(false) => sd == spec_dyn_symbols(
                        old(self).stream(),
                        final(self).pos(),
                        final(self).out(),
                        lit_len_codes.contents(),
                        lit_len_codes.min_len(),
                        lit_len_codes.max_len(),
                        distance_codes.contents(),
                        distance_codes.min_len(),
                        distance_codes.max_len(),
                    ) && final(self).pos() > old(self).pos(),
                }
            }),
    {
        let ghost stream = self.stream();
        let ghost pos0 = self.pos();
        let ghost out0 = self.out();
        proof {
            self.bits.lemma_pos_in_range();
            lit_len_codes.lemma_wf_bounds();
            distance_codes.lemma_wf_bounds();
            crate::huffman_coding::lemma_huff_probe_consumes(
                lit_len_codes.contents(),
                stream,
                false,
                pos0,
                lit_len_codes.min_len(),
                lit_len_codes.max_len(),
            );
        }
        let lit_len_symbol: u16 = match lit_len_codes.get_next_symbol(&mut self.bits) {
            Some(s) => s,
            None => {
                return None;
            },
        };
        let symbol: LiteralLengthSymbol = match self.process_lit_len_symbol(lit_len_symbol) {
            Some(s) => s,
            None => {
                return None;
            },
        };

        match symbol {
            LiteralLengthSymbol::EndOfBlock => {
                return Some(true);
            },
            LiteralLengthSymbol::Literal(lit) => {
                self.decompressed_buffer.push(lit);
            },
            LiteralLengthSymbol::Length(length) => {
                let ghost p2 = self.pos();
                proof {
                    crate::huffman_coding::lemma_huff_probe_consumes(
                        distance_codes.contents(),
                        stream,
                        false,
                        p2,
                        distance_codes.min_len(),
                        distance_codes.max_len(),
                    );
                }
                let distance_symbol: u16 = match distance_codes.get_next_symbol(&mut self.bits) {
                    Some(s) => s,
                    None => {
                        return None;
                    },
                };
                let distance: u16 = match self.process_distance_symbol(distance_symbol) {
                    Some(d) => d,
                    None => {
                        return None;
                    },
                };
                if (distance as usize) > self.decompressed_buffer.len() {
                    return None;
                }
                self.fill_length_distance_data(length as usize, distance as usize);
            },
        };

        Some(false)
    }
}


impl<'a> DeflateDecompression<'a> {
    /// Decode a stored block: exactly [`spec_stored`].
    fn deflate_uncompressed_block(&mut self) -> (r: Result<(), DeflateError>)
        requires
            old(self).wf(),
        ensures
            final(self).wf(),
            final(self).stream() == old(self).stream(),
            match spec_stored(old(self).stream(), old(self).pos(), old(self).out()) {
                Ok((p, o)) => r is Ok && final(self).pos() == p && final(self).out() == o,
                Err(e) => r matches Err(e2) && e2 == e,
            },
    {
        let ghost stream = self.stream();
        let ghost pos0 = self.pos();
        let ghost out0 = self.out();
        self.bits.skip_to_next_byte();
        let ghost p = self.pos();
        let block_byte_index: usize = self.bits.byte_position;
        proof {
            self.bits.lemma_byte_position();
            self.bits.lemma_pos_in_range();
            crate::bits::lemma_round_up8_idempotent(pos0);
            lemma_lsb_val_bound(stream, false, p, 16);
            lemma_lsb_val_bound(stream, false, p + 16, 16);
            lemma2_to64();
        }

        let block_length: u16 = match self.bits.read_bits_reverse(16) {
            Some(v) => v as u16,
            None => {
                return Err(DeflateError::InvalidUncompressedBlock(block_byte_index));
            },
        };

        let block_length_check: u16 = match self.bits.read_bits_reverse(16) {
            Some(v) => v as u16,
            None => {
                return Err(DeflateError::InvalidUncompressedBlock(block_byte_index));
            },
        };

        proof {
            let c = block_length_check;
            assert(!c == 65535 - c) by (bit_vector);
        }
        if block_length != (!block_length_check) {
            return Err(DeflateError::InvalidUncompressedBlock(block_byte_index));
        }
        let mut data_destination: Vec<u8> = vec![0u8; block_length as usize];
        proof {
            self.bits.lemma_byte_position();
            crate::bits::lemma_round_up8_idempotent((p + 32) as nat);
            assert(round_up8((p + 32) as nat) == p + 32);
        }

        match self.bits.read_byte_slice(&mut data_destination) {
            Some(u) => u,
            None => {
                return Err(DeflateError::InvalidUncompressedBlock(block_byte_index));
            },
        };
        self.decompressed_buffer.append(&mut data_destination);
        Ok(())
    }

    /// Run the fixed-Huffman symbol loop over the whole block: exactly
    /// [`spec_fixed_symbols`], with the block's starting byte offset in the
    /// error.
    fn deflate_fixed_huffman_block(&mut self) -> (r: Result<(), DeflateError>)
        requires
            old(self).wf(),
        ensures
            final(self).wf(),
            final(self).stream() == old(self).stream(),
            match spec_fixed_symbols(old(self).stream(), old(self).pos(), old(self).out()) {
                Some((p, o)) => r is Ok && final(self).pos() == p && final(self).out() == o,
                None => r matches Err(e) && e == DeflateError::InvalidFixedBlock(
                    ((old(self).pos() / 8) as usize),
                ),
            },
    {
        let ghost stream = self.stream();
        let ghost pos0 = self.pos();
        let ghost out0 = self.out();
        let block_byte_index: usize = self.bits.byte_position;
        proof {
            self.bits.lemma_byte_position();
        }

        loop
            invariant
                self.wf(),
                self.stream() == stream,
                spec_fixed_symbols(stream, self.pos(), self.out()) == spec_fixed_symbols(
                    stream,
                    pos0,
                    out0,
                ),
            decreases 8 * stream.len() - self.pos(),
        {
            proof {
                self.bits.lemma_pos_in_range();
            }
            match self.next_fixed_compressed_symbol() {
                None => {
                    return Err(DeflateError::InvalidFixedBlock(block_byte_index));
                },
                Some(true) => {
                    return Ok(());
                },
                Some(false) => {
                    proof {
                        self.bits.lemma_pos_in_range();
                    }
                },
            }
        }
    }

    /// Read `hclen` three-bit code lengths into the 19-entry permuted
    /// vector: exactly [`spec_clen_lengths`].
    pub fn codelength_alphabet_codelengths(&mut self, hclen: usize) -> (r: Option<Vec<u8>>)
        requires
            old(self).wf(),
            hclen <= 19,
        ensures
            final(self).wf(),
            final(self).stream() == old(self).stream(),
            final(self).out() == old(self).out(),
            match spec_clen_lengths(
                old(self).stream(),
                old(self).pos(),
                0,
                hclen as nat,
                Seq::new(19, |i: int| 0u8),
            ) {
                Some((s, p)) => r matches Some(v) && v@ == s && s.len() == 19 && final(self).pos() == p && (forall|j: int| 0 <= j < 19 ==> s[j] <= 7),
                None => r is None,
            },
    {
        let ghost stream = self.stream();
        let ghost pos0 = self.pos();
        let mut clen_codelengths: Vec<u8> = vec![0u8; 19];
        proof {
            assert(clen_codelengths@ =~= Seq::new(19, |i: int| 0u8));
        }
        let mut i: usize = 0;
        while i < hclen
            invariant
                i <= hclen <= 19,
                self.wf(),
                self.stream() == stream,
                self.out() == old(self).out(),
                clen_codelengths@.len() == 19,
                forall|j: int| 0 <= j < 19 ==> clen_codelengths@[j] <= 7,
                spec_clen_lengths(
                    stream,
                    self.pos(),
                    i as nat,
                    hclen as nat,
                    clen_codelengths@,
                ) == spec_clen_lengths(
                    stream,
                    pos0,
                    0,
                    hclen as nat,
                    Seq::new(19, |i: int| 0u8),
                ),
            decreases hclen - i,
        {
            proof {
                self.bits.lemma_pos_in_range();
                lemma_lsb_val_bound(stream, false, self.pos(), 3);
                lemma2_to64();
            }
            let next_clen: u8 = match self.bits.read_bits_reverse(3) {
                Some(v) => v as u8,
                None => {
                    return None;
                },
            };
            let idx: usize = clen_order_at(i);
            clen_codelengths[idx] = next_clen;
            i += 1;
        }
        Some(clen_codelengths)
    }

    /// Parse the codelengths of the dynamic huffman (literal and
    /// length/distance) alphabets: exactly [`spec_dyn_lengths`] over a
    /// zeroed vector of `total_len` entries.
    fn dynamic_alphabet_codelengths(
        &mut self,
        huffman_tree: &HuffmanTree,
        clen_count: usize,
        total_len: usize,
    ) -> (r: Option<Vec<u8>>)
        requires
            old(self).wf(),
            huffman_tree.wf(),
            clen_count <= total_len <= 286,
        ensures
            final(self).wf(),
            final(self).stream() == old(self).stream(),
            final(self).out() == old(self).out(),
            match spec_dyn_lengths(
                old(self).stream(),
                old(self).pos(),
                huffman_tree.contents(),
                huffman_tree.min_len(),
                huffman_tree.max_len(),
                0,
                clen_count as nat,
                Seq::new(total_len as nat, |i: int| 0u8),
            ) {
                Some((s, p)) => r matches Some(v) && v@ == s && final(self).pos() == p && s.len()
                    == total_len && (forall|j: int| 0 <= j < s.len() ==> s[j] <= 15),
                None => r is None,
            },
    {
        let ghost stream = self.stream();
        let ghost pos0 = self.pos();
        let ghost m = huffman_tree.contents();
        let ghost minl = huffman_tree.min_len();
        let ghost maxl = huffman_tree.max_len();
        let ghost zeros = Seq::new(total_len as nat, |i: int| 0u8);
        let mut codelengths: Vec<u8> = vec![0u8; total_len];
        proof {
            assert(codelengths@ =~= zeros);
        }
        let mut codelengths_parsed: usize = 0;

        while codelengths_parsed < clen_count
            invariant
                clen_count <= total_len,
                self.wf(),
                self.stream() == stream,
                self.out() == old(self).out(),
                codelengths@.len() == total_len,
                forall|j: int| 0 <= j < total_len ==> codelengths@[j] <= 15,
                spec_dyn_lengths(
                    stream,
                    self.pos(),
                    m,
                    minl,
                    maxl,
                    codelengths_parsed as nat,
                    clen_count as nat,
                    codelengths@,
                ) == spec_dyn_lengths(stream, pos0, m, minl, maxl, 0, clen_count as nat, zeros),
            decreases (if codelengths_parsed < clen_count {
                clen_count - codelengths_parsed
            } else {
                0
            }),
        {
            proof {
                self.bits.lemma_pos_in_range();
                huffman_tree.lemma_wf_bounds();
                crate::huffman_coding::lemma_huff_probe_consumes(
                    m,
                    stream,
                    false,
                    self.pos(),
                    minl,
                    maxl,
                );
            }
            // symbols will be 18 or less for the codelength alphabet, or incorrect
            let symbol: u16 = match huffman_tree.get_next_symbol(&mut self.bits) {
                Some(s) => s,
                None => {
                    return None;
                },
            };
            let ghost p1 = self.pos();
            proof {
                lemma_lsb_val_bound(stream, false, p1, 2);
                lemma_lsb_val_bound(stream, false, p1, 3);
                lemma_lsb_val_bound(stream, false, p1, 7);
                lemma2_to64();
            }

            match symbol {
                0..=15 => {
                    codelengths[codelengths_parsed] = symbol as u8;
                    codelengths_parsed += 1;
                },
                16 => {
                    let rep: u64 = match self.bits.read_bits_reverse(2) {
                        Some(v) => v,
                        None => {
                            return None;
                        },
                    };
                    let repeat_length: usize = (rep as usize) + 3;
                    if codelengths_parsed == 0 {
                        return None;
                    }
                    let previous: u8 = codelengths[codelengths_parsed - 1];
                    if repeat_length > total_len - codelengths_parsed {
                        return None;
                    }
                    let ghost acc = codelengths@;
                    let mut j: usize = 0;
                    while j < repeat_length
                        invariant
                            j <= repeat_length,
                            codelengths_parsed + repeat_length <= total_len,
                            codelengths@.len() == total_len,
                            codelengths@ == seq_fill(
                                acc,
                                codelengths_parsed as nat,
                                j as nat,
                                previous,
                            ),
                        decreases repeat_length - j,
                    {
                        proof {
                            assert(seq_fill(
                                acc,
                                codelengths_parsed as nat,
                                (j + 1) as nat,
                                previous,
                            ) =~= seq_fill(
                                acc,
                                codelengths_parsed as nat,
                                j as nat,
                                previous,
                            ).update(codelengths_parsed + j, previous));
                        }
                        codelengths[codelengths_parsed + j] = previous;
                        j += 1;
                    }
                    codelengths_parsed += repeat_length;
                },
                17 => {
                    let zero_length: u64 = match self.bits.read_bits_reverse(3) {
                        Some(v) => v,
                        None => {
                            return None;
                        },
                    };
                    codelengths_parsed += (zero_length as usize) + 3;
                },
                18 => {
                    let zero_length: u64 = match self.bits.read_bits_reverse(7) {
                        Some(v) => v,
                        None => {
                            return None;
                        },
                    };
                    codelengths_parsed += (zero_length as usize) + 11;
                },
                _ => {
                    return None;
                },
            }
        }

        Some(codelengths)
    }

    /// Decode a dynamic-Huffman block: exactly [`spec_dynamic_block`], with
    /// the block's starting byte offset in the error.
    fn deflate_dynamic_huffman_block(&mut self) -> (r: Result<(), DeflateError>)
        requires
            old(self).wf(),
        ensures
            final(self).wf(),
            final(self).stream() == old(self).stream(),
            match spec_dynamic_block(old(self).stream(), old(self).pos(), old(self).out()) {
                Some((p, o)) => r is Ok && final(self).pos() == p && final(self).out() == o,
                None => r matches Err(e) && e == DeflateError::InvalidDynamicBlock(
                    ((old(self).pos() / 8) as usize),
                ),
            },
    {
        let ghost stream = self.stream();
        let ghost pos0 = self.pos();
        let ghost out0 = self.out();
        let block_byte_index: usize = self.bits.byte_position;
        proof {
            self.bits.lemma_byte_position();
            self.bits.lemma_pos_in_range();
            lemma_lsb_val_bound(stream, false, pos0, 5);
            lemma_lsb_val_bound(stream, false, pos0 + 5, 5);
            lemma_lsb_val_bound(stream, false, pos0 + 10, 4);
            lemma2_to64();
        }

        let hlit_value: u64 = match self.bits.read_bits_reverse(5) {
            Some(v) => v,
            None => {
                return Err(DeflateError::InvalidDynamicBlock(block_byte_index));
            },
        };
        let hlit: usize = (hlit_value as usize) + 257;

        let hdist_value: u64 = match self.bits.read_bits_reverse(5) {
            Some(v) => v,
            None => {
                return Err(DeflateError::InvalidDynamicBlock(block_byte_index));
            },
        };
        let hdist: usize = (hdist_value as usize) + 1;

        let hclen_value: u64 = match self.bits.read_bits_reverse(4) {
            Some(v) => v,
            None => {
                return Err(DeflateError::InvalidDynamicBlock(block_byte_index));
            },
        };
        let hclen: usize = (hclen_value as usize) + 4;

        if hlit > 286 {
            return Err(DeflateError::InvalidDynamicBlock(block_byte_index));
        }

        let clen_codelengths: Vec<u8> = match self.codelength_alphabet_codelengths(hclen) {
            Some(v) => v,
            None => {
                return Err(DeflateError::InvalidDynamicBlock(block_byte_index));
            },
        };

        let clen_alphabet_huffman_tree: HuffmanTree = match HuffmanTree::from_codelengths(
            clen_codelengths.as_slice(),
        ) {
            Some(t) => t,
            None => {
                return Err(DeflateError::InvalidDynamicBlock(block_byte_index));
            },
        };

        let lit_len_codelengths: Vec<u8> = match self.dynamic_alphabet_codelengths(
            &clen_alphabet_huffman_tree,
            hlit,
            286,
        ) {
            Some(v) => v,
            None => {
                return Err(DeflateError::InvalidDynamicBlock(block_byte_index));
            },
        };
        let lit_len_huffman_tree: HuffmanTree = match HuffmanTree::from_codelengths(
            lit_len_codelengths.as_slice(),
        ) {
            Some(t) => t,
            None => {
                return Err(DeflateError::InvalidDynamicBlock(block_byte_index));
            },
        };

        let distance_codelengths: Vec<u8> = match self.dynamic_alphabet_codelengths(
            &clen_alphabet_huffman_tree,
            hdist,
            32,
        ) {
            Some(v) => v,
            None => {
                return Err(DeflateError::InvalidDynamicBlock(block_byte_index));
            },
        };
        let distance_huffman_tree: HuffmanTree = match HuffmanTree::from_codelengths(
            distance_codelengths.as_slice(),
        ) {
            Some(t) => t,
            None => {
                return Err(DeflateError::InvalidDynamicBlock(block_byte_index));
            },
        };

        loop
            invariant
                self.wf(),
                self.stream() == stream,
                lit_len_huffman_tree.wf(),
                distance_huffman_tree.wf(),
                spec_dynamic_block(stream, pos0, out0) == spec_dyn_symbols(
                    stream,
                    self.pos(),
                    self.out(),
                    lit_len_huffman_tree.contents(),
                    lit_len_huffman_tree.min_len(),
                    lit_len_huffman_tree.max_len(),
                    distance_huffman_tree.contents(),
                    distance_huffman_tree.min_len(),
                    distance_huffman_tree.max_len(),
                ),
            decreases 8 * stream.len() - self.pos(),
        {
            proof {
                self.bits.lemma_pos_in_range();
            }
            match self.next_dynamic_compressed_symbol(
                &lit_len_huffman_tree,
                &distance_huffman_tree,
            ) {
                None => {
                    return Err(DeflateError::InvalidDynamicBlock(block_byte_index));
                },
                Some(true) => {
                    return Ok(());
                },
                Some(false) => {
                    proof {
                        self.bits.lemma_pos_in_range();
                    }
                },
            }
        }
    }

    /// Decode one block: BFINAL, BTYPE, then the block body. `Ok(true)` when
    /// the block was the last one; exactly one step of [`spec_run`].
    fn decompress_next_block(&mut self) -> (r: Result<bool, DeflateError>)
        requires
            old(self).wf(),
        ensures
            final(self).wf(),
            final(self).stream() == old(self).stream(),
            match r {
                Ok(b) => (if b {
                    spec_run(old(self).stream(), old(self).pos(), old(self).out()) == Ok::<
                        Seq<u8>,
                        DeflateError,
                    >(final(self).out())
                } else {
                    spec_run(old(self).stream(), old(self).pos(), old(self).out()) == spec_run(
                        old(self).stream(),
                        final(self).pos(),
                        final(self).out(),
                    ) && final(self).pos() > old(self).pos()
                }),
                Err(e) => spec_run(old(self).stream(), old(self).pos(), old(self).out()) matches
                    Err(e2) && e2 == e,
            },
    {
        let ghost stream = self.stream();
        let ghost pos0 = self.pos();
        let ghost out0 = self.out();
        proof {
            self.bits.lemma_pos_in_range();
            lemma_stream_bit_le_1(stream, false, pos0);
            lemma_stream_bit_le_1(stream, false, pos0 + 1);
            lemma_stream_bit_le_1(stream, false, pos0 + 2);
            lemma_spec_steps_advance(stream, pos0, out0);
        }

        let bfinal: u8 = match self.bits.read_bit() {
            Some(b) => b,
            None => {
                return Err(DeflateError::NoFinalBlock);
            },
        };

        let b1: u8 = match self.bits.read_bit() {
            Some(b) => b,
            None => {
                return Err(DeflateError::NoBType);
            },
        };
        let b2: u8 = match self.bits.read_bit() {
            Some(b) => b,
            None => {
                return Err(DeflateError::NoBType);
            },
        };

        let res: Result<(), DeflateError> = if b1 == 0 && b2 == 0 {
            self.deflate_uncompressed_block()
        } else if b1 == 1 && b2 == 0 {
            self.deflate_fixed_huffman_block()
        } else if b1 == 0 && b2 == 1 {
            self.deflate_dynamic_huffman_block()
        } else {
            return Err(DeflateError::ReservedBType);
        };
        match res {
            Err(e) => {
                return Err(e);
            },
            Ok(u) => u,
        };

        Ok(bfinal > 0)
    }

    /// Decode the whole DEFLATE stream: blocks until one with BFINAL set,
    /// returning the decompressed bytes. Exactly [`spec_run`] from the
    /// decoder's current state.
    #[verifier::rlimit(50)]
    pub fn decompress(self) -> (r: Result<Vec<u8>, DeflateError>)
        requires
            self.wf(),
        ensures
            match spec_run(self.stream(), self.pos(), self.out()) {
                Ok(o) => r matches Ok(v) && v@ == o,
                Err(e) => r matches Err(e2) && e2 == e,
            },
    {
        let mut this = self;
        let ghost stream = this.stream();
        let ghost pos0 = this.pos();
        let ghost out0 = this.out();
        loop
            invariant
                this.wf(),
                this.stream() == stream,
                spec_run(stream, this.pos(), this.out()) == spec_run(stream, pos0, out0),
            decreases 8 * stream.len() - this.pos(),
        {
            proof {
                this.bits.lemma_pos_in_range();
            }
            match this.decompress_next_block() {
                Err(e) => {
                    return Err(e);
                },
                Ok(true) => {
                    return Ok(this.decompressed_buffer);
                },
                Ok(false) => {
                    proof {
                        this.bits.lemma_pos_in_range();
                    }
                },
            }
        }
    }
}


} // verus!

