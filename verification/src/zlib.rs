//! The zlib envelope of RFC 1950: the two header bytes with their check,
//! the optional preset-dictionary id, the DEFLATE payload, and the
//! big-endian Adler-32 trailer over the decompressed bytes.

use vstd::prelude::*;
use vstd::arithmetic::power2::*;
use vstd::bits::*;
use crate::bits::be_byte_val;
use crate::deflate::{lemma_stored_block_round_trip, spec_run, stored_block_stream, DeflateDecompression, DeflateError};
use crate::{adler_pair, adler_spec, lemma_adler_spec_bound};

verus! {

#[derive(Clone, Copy, Debug, PartialEq, Eq, Structural)]
pub enum ZlibError {
    NoBytes,
    NoFlg,
    FCheck,
    InvalidFDict,
    Deflate(DeflateError),
    AdlerCheck,
}

impl From<DeflateError> for ZlibError {
    fn from(value: DeflateError) -> (r: Self) {
        Self::Deflate(value)
    }
}

impl vstd::std_specs::convert::FromSpecImpl<DeflateError> for ZlibError {
    open spec fn obeys_from_spec() -> bool {
        true
    }

    open spec fn from_spec(value: DeflateError) -> Self {
        ZlibError::Deflate(value)
    }
}

/// The Adler-32 checksum: two running sums modulo 65521, packed big-endian
/// into one 32-bit value.
pub fn adler_32(bytes: &[u8]) -> (r: u32)
    ensures
        r == adler_spec(bytes@),
{
    let mut a: u32 = 1;
    let mut b: u32 = 0;
    let mut index: usize = 0;
    while index < bytes.len()
        invariant
            index <= bytes@.len(),
            (a as nat, b as nat) == adler_pair(bytes@.take(index as int)),
            a < 65521,
            b < 65521,
        decreases bytes@.len() - index,
    {
        proof {
            assert(bytes@.take(index as int + 1).drop_last() =~= bytes@.take(index as int));
        }
        a = (a + (bytes[index] as u32)) % 65521;
        b = (b + a) % 65521;
        index += 1;
    }
    proof {
        assert(bytes@.take(bytes@.len() as int) =~= bytes@);
        lemma2_to64();
        lemma_u32_shl_is_mul(b, 16);
        let bv = b;
        let av = a;
        assert((bv << 16u32) | av == (bv << 16u32) + av) by (bit_vector)
            requires
                av < 0x10000u32,
                bv < 0x10000u32,
        ;
    }
    (b << 16u32) | a
}

/// The decompression report: the parsed header fields, the decompressed
/// bytes, and the validated Adler-32 value.
#[derive(Debug)]
pub struct ZlibDecompressed {
    pub cm: u8,
    pub cinfo: u8,
    pub dictid: Option<[u8; 4]>,
    pub flevel: u8,
    pub data: Vec<u8>,
    pub adler32: u32,
}

pub struct ZlibParser<'a> {
    bytes: &'a [u8],
}

/// The header check of RFC 1950: the two header bytes, read big-endian,
/// are divisible by 31.
pub open spec fn zlib_check_ok(b: Seq<u8>) -> bool {
    (b[0] * 256 + b[1]) % 31 == 0
}

/// The FDICT flag: bit 5 of the FLG byte.
pub open spec fn zlib_fdict(b: Seq<u8>) -> nat {
    ((b[1] as nat) / 32) % 2
}

/// The DEFLATE payload: everything between the header (and the DICTID when
/// FDICT is set) and the four trailer bytes.
pub open spec fn zlib_payload(b: Seq<u8>) -> Seq<u8> {
    if zlib_fdict(b) == 1 {
        b.subrange(6, b.len() - 4)
    } else {
        b.subrange(2, b.len() - 4)
    }
}

/// The Adler-32 trailer: the last four bytes read big-endian.
pub open spec fn zlib_trailer(b: Seq<u8>) -> nat {
    be_byte_val(b.subrange(b.len() - 4, b.len() as int))
}

/// The envelope is intact: a valid header check and enough bytes for the
/// header, the DICTID when FDICT is set, and the trailer.
pub open spec fn zlib_header_ok(b: Seq<u8>) -> bool {
    &&& b.len() >= 2
    &&& zlib_check_ok(b)
    &&& (zlib_fdict(b) == 0 ==> b.len() >= 6)
    &&& (zlib_fdict(b) == 1 ==> b.len() >= 10)
}

/// A four-byte sequence read big-endian, spelled out.
proof fn lemma_be4(s: Seq<u8>)
    requires
        s.len() == 4,
    ensures
        be_byte_val(s) == s[0] * 0x100_0000 + s[1] * 0x1_0000 + s[2] * 0x100 + s[3],
{
    let s3 = s.drop_last();
    let s2 = s3.drop_last();
    let s1 = s2.drop_last();
    let s0 = s1.drop_last();
    assert(s0 =~= Seq::empty());
    assert(be_byte_val(s0) == 0);
    assert(be_byte_val(s1) == s[0]);
    assert(be_byte_val(s2) == s[0] * 0x100 + s[1]);
    assert(be_byte_val(s3) == (s[0] * 0x100 + s[1]) * 0x100 + s[2]);
}

/// A byte string wrapped in the whole zlib envelope by the trivial
/// compressor: a fixed header, one stored block, and the big-endian
/// Adler-32 trailer.
pub open spec fn zlib_stored_stream(x: Seq<u8>) -> Seq<u8> {
    seq![0x78u8, 0x01u8] + stored_block_stream(x) + seq![
        ((adler_spec(x) / 0x100_0000) % 256) as u8,
        ((adler_spec(x) / 0x1_0000) % 256) as u8,
        ((adler_spec(x) / 0x100) % 256) as u8,
        (adler_spec(x) % 256) as u8,
    ]
}

/// Round trip with the trivial compressor, envelope included: the stream
/// `zlib_stored_stream(x)` carries a valid header, a payload that
/// decompresses to `x`, and a trailer that is the Adler-32 of `x` — so a
/// parse of it must succeed and return `x`.
#[verifier::rlimit(80)]
pub proof fn lemma_zlib_stored_round_trip(x: Seq<u8>)
    requires
        x.len() < 0x10000,
    ensures
        zlib_header_ok(zlib_stored_stream(x)),
        zlib_fdict(zlib_stored_stream(x)) == 0,
        zlib_payload(zlib_stored_stream(x)) == stored_block_stream(x),
        spec_run(zlib_payload(zlib_stored_stream(x)), 0, Seq::empty()) matches Ok(o) && o == x,
        adler_spec(x) == zlib_trailer(zlib_stored_stream(x)),
{
    let b = zlib_stored_stream(x);
    let a = adler_spec(x);
    assert(b.len() == x.len() + 11);
    assert(b[0] == 0x78u8 && b[1] == 0x01u8);
    assert(zlib_check_ok(b));
    assert(zlib_fdict(b) == 0);
    assert(zlib_payload(b) =~= stored_block_stream(x));
    lemma_stored_block_round_trip(x);

    // the four trailer bytes recompose to the checksum
    lemma_adler_spec_bound(x);
    let t = b.subrange(b.len() - 4, b.len() as int);
    lemma_be4(t);
    assert(t[0] == ((a / 0x100_0000) % 256) as u8 && t[1] == ((a / 0x1_0000) % 256) as u8 && t[2]
        == ((a / 0x100) % 256) as u8 && t[3] == (a % 256) as u8);
    vstd::arithmetic::div_mod::lemma_div_denominator(a as int, 256, 256);
    vstd::arithmetic::div_mod::lemma_div_denominator(a as int, 65536, 256);
    let a1 = a / 256;
    let a2 = a1 / 256;
    let a3 = a2 / 256;
    assert(a == 256 * a1 + a % 256);
    assert(a1 == 256 * a2 + a1 % 256);
    assert(a2 == 256 * a3 + a2 % 256);
    assert(a3 < 256) by (nonlinear_arith)
        requires
            a < 0x1_0000_0000,
            a1 == a / 256,
            a2 == a1 / 256,
            a3 == a2 / 256,
    ;
    assert(be_byte_val(t) == a);
}


impl<'a> ZlibParser<'a> {
    /// The raw zlib stream being parsed.
    pub closed spec fn input(self) -> Seq<u8> {
        self.bytes@
    }

    pub fn new(bytes: &'a [u8]) -> (r: Self)
        ensures
            r.input() == bytes@,
    {
        Self { bytes }
    }

    /// Read CMF and FLG and validate the check: `NoBytes` and `NoFlg` when
    /// the header is truncated, `FCheck` when the check fails.
    fn parse_cmf_flg(&mut self) -> (r: Result<(u8, u8), ZlibError>)
        ensures
            final(self).input() == old(self).input(),
            ({
                let b = old(self).input();
                if b.len() == 0 {
                    r == Err::<(u8, u8), ZlibError>(ZlibError::NoBytes)
                } else if b.len() == 1 {
                    r == Err::<(u8, u8), ZlibError>(ZlibError::NoFlg)
                } else if !zlib_check_ok(b) {
                    r == Err::<(u8, u8), ZlibError>(ZlibError::FCheck)
                } else {
                    r matches Ok((cmf, flg)) && cmf == b[0] && flg == b[1]
                }
            }),
    {
        let cmf: u8 = match self.bytes.get(0) {
            Some(v) => *v,
            None => {
                return Err(ZlibError::NoBytes);
            },
        };
        let flg: u8 = match self.bytes.get(1) {
            Some(v) => *v,
            None => {
                return Err(ZlibError::NoFlg);
            },
        };

        proof {
            let c = cmf;
            let f = flg;
            assert(((c as u16) << 8u16 | (f as u16)) == c * 256 + f) by (bit_vector);
        }
        if ((cmf as u16) << 8u16 | flg as u16) % 31 != 0 {
            return Err(ZlibError::FCheck);
        }

        Ok((cmf, flg))
    }

    /// Read the four trailer bytes as a big-endian Adler-32 value.
    fn parse_adler(&mut self) -> (r: u32)
        requires
            old(self).input().len() >= 4,
        ensures
            final(self).input() == old(self).input(),
            r == zlib_trailer(old(self).input()),
    {
        let n: usize = self.bytes.len();
        let a0: u8 = self.bytes[n - 4];
        let a1: u8 = self.bytes[n - 3];
        let a2: u8 = self.bytes[n - 2];
        let a3: u8 = self.bytes[n - 1];

        proof {
            let s = self.input().subrange(self.input().len() - 4, self.input().len() as int);
            lemma_be4(s);
            let x0 = a0;
            let x1 = a1;
            let x2 = a2;
            let x3 = a3;
            assert(((x0 as u32) << 24u32 | (x1 as u32) << 16u32 | (x2 as u32) << 8u32 | (
            x3 as u32)) == x0 * 0x100_0000 + x1 * 0x1_0000 + x2 * 0x100 + x3) by (bit_vector);
        }
        let adler32: u32 = (a0 as u32) << 24u32 | (a1 as u32) << 16u32 | (a2 as u32) << 8u32 | (
        a3 as u32);

        adler32
    }

    /// Parse the whole stream: validate the header, decompress the DEFLATE
    /// payload, and validate the Adler-32 trailer over the result.
    ///
    /// Exactly one of the following holds of the input: fewer than two
    /// header bytes (`NoBytes`, `NoFlg`); a failing header check (`FCheck`);
    /// too few bytes for the DICTID or trailer (`InvalidFDict`); a payload
    /// the DEFLATE decoder rejects (`Deflate`); a trailer that is not the
    /// Adler-32 of the decompressed bytes (`AdlerCheck`); or success, with
    /// every report field pinned down.
    pub fn parse(&mut self) -> (r: Result<ZlibDecompressed, ZlibError>)
        ensures
            final(self).input() == old(self).input(),
            ({
                let b = old(self).input();
                &&& b.len() == 0 ==> r == Err::<ZlibDecompressed, ZlibError>(ZlibError::NoBytes)
                &&& b.len() == 1 ==> r == Err::<ZlibDecompressed, ZlibError>(ZlibError::NoFlg)
                &&& (b.len() >= 2 && !zlib_check_ok(b)) ==> r == Err::<
                    ZlibDecompressed,
                    ZlibError,
                >(ZlibError::FCheck)
                &&& (b.len() >= 2 && zlib_check_ok(b) && zlib_fdict(b) == 0 && b.len() < 6) ==> r
                    == Err::<ZlibDecompressed, ZlibError>(ZlibError::InvalidFDict)
                &&& (b.len() >= 2 && zlib_check_ok(b) && zlib_fdict(b) == 1 && b.len() < 10) ==> r
                    == Err::<ZlibDecompressed, ZlibError>(ZlibError::InvalidFDict)
                &&& zlib_header_ok(b) ==> (match spec_run(
                    zlib_payload(b),
                    0,
                    Seq::<u8>::empty(),
                ) {
                    Err(e) => r == Err::<ZlibDecompressed, ZlibError>(ZlibError::Deflate(e)),
                    Ok(o) => (if adler_spec(o) != zlib_trailer(b) {
                        r == Err::<ZlibDecompressed, ZlibError>(ZlibError::AdlerCheck)
                    } else {
                        &&& r matches Ok(z)
                        &&& r matches Ok(z) ==> {
                            &&& z.cm == b[0] as nat % 16
                            &&& z.cinfo == b[0] as nat / 16
                            &&& z.flevel == b[1] as nat / 64
                            &&& z.data@ == o
                            &&& z.adler32 == zlib_trailer(b)
                            &&& zlib_fdict(b) == 0 ==> z.dictid is None
                            &&& zlib_fdict(b) == 1 ==> (z.dictid matches Some(d) && d@
                                == b.subrange(2, 6))
                        }
                    }),
                })
            }),
    {
        let ghost b = self.input();
        let (cmf, flg) = match self.parse_cmf_flg() {
            Ok(t) => t,
            Err(e) => {
                return Err(e);
            },
        };

        proof {
            let f = flg;
            assert((f & 0b0010_0000) >> 5u8 == (f / 32) % 2) by (bit_vector);
            let c = cmf;
            assert(c & 0b0000_1111 == c % 16 && (c & 0b1111_0000) >> 4u8 == c / 16 && (f
                & 0b1100_0000) >> 6u8 == f / 64) by (bit_vector);
        }
        let fdict: u8 = (flg & 0b0010_0000) >> 5u8;

        let n: usize = self.bytes.len();
        let dictid: Option<[u8; 4]>;
        let data_slice: &[u8];

        match fdict {
            0 => {
                if n < 6 {
                    return Err(ZlibError::InvalidFDict);
                }
                dictid = None;
                data_slice = &self.bytes[2..n - 4];
            },
            1 => {
                if n < 10 {
                    return Err(ZlibError::InvalidFDict);
                }
                dictid = Some(
                    [self.bytes[2], self.bytes[3], self.bytes[4], self.bytes[5]],
                );
                data_slice = &self.bytes[6..n - 4];
            },
            _ => {
                return Err(ZlibError::InvalidFDict);
            },
        }
        proof {
            assert(data_slice@ =~= zlib_payload(b));
        }

        let decompressed: Vec<u8> = match DeflateDecompression::new(data_slice).decompress() {
            Ok(v) => v,
            Err(e) => {
                return Err(ZlibError::Deflate(e));
            },
        };
        let adler32: u32 = self.parse_adler();

        if adler_32(decompressed.as_slice()) != adler32 {
            return Err(ZlibError::AdlerCheck);
        }

        let z = ZlibDecompressed {
            cm: cmf & 0b0000_1111,
            cinfo: (cmf & 0b1111_0000) >> 4u8,
            dictid,
            flevel: (flg & 0b1100_0000) >> 6u8,
            data: decompressed,
            adler32,
        };
        proof {
            if zlib_fdict(b) == 1 {
                assert(z.dictid matches Some(d) && d@ =~= b.subrange(2, 6));
            }
        }
        Ok(z)
    }
}

} // verus!
