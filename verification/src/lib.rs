//! Decoder core for zlib streams (RFC 1950) and the DEFLATE bitstreams they
//! carry (RFC 1951): a reversible bit reader, canonical Huffman decoding,
//! block-level DEFLATE decompression and the zlib envelope with its Adler-32
//! trailer.

#![verifier::loop_isolation(false)]

use vstd::prelude::*;

pub mod bitreader;
pub mod bits;
pub mod bitstream;
pub mod deflate;
pub mod huffman_coding;
pub mod low_level_functions;
pub mod zlib;

verus! {

/// `a = 1; b = 0; for each byte: a = (a + byte) % 65521; b = (b + a) % 65521`,
/// folded over `bytes` from left to right.
pub open spec fn adler_pair(bytes: Seq<u8>) -> (nat, nat)
    decreases bytes.len(),
{
    if bytes.len() == 0 {
        (1nat, 0nat)
    } else {
        let (a, b) = adler_pair(bytes.drop_last());
        let a2 = ((a + bytes.last()) % 65521) as nat;
        ((a2, (((b + a2) % 65521) as nat)))
    }
}

/// The Adler-32 checksum of `bytes` as a 32-bit value.
pub open spec fn adler_spec(bytes: Seq<u8>) -> nat {
    let (a, b) = adler_pair(bytes);
    b * 0x10000 + a
}

/// Both running sums stay below the modulus, so the checksum fits 32 bits.
pub proof fn lemma_adler_spec_bound(bytes: Seq<u8>)
    ensures
        adler_pair(bytes).0 < 65521,
        adler_pair(bytes).1 < 65521,
        adler_spec(bytes) < 0x1_0000_0000,
    decreases bytes.len(),
{
    if bytes.len() > 0 {
        lemma_adler_spec_bound(bytes.drop_last());
    }
}

} // verus!
