//! Canonical Huffman decoding: building the `(length, code) -> symbol`
//! mapping from a code-length vector by the canonical construction, and
//! decoding one symbol at a time from a bit reader.

use vstd::prelude::*;
use vstd::arithmetic::power2::*;
use crate::bitreader::BitReader;
use crate::bits::{lemma_msb_snoc, lemma_msb_val_bound, lemma_stream_bit_le_1, msb_val};

verus! {

/// A code-length vector for a DEFLATE alphabet: at most 286 symbols, each
/// code at most 15 bits.
pub open spec fn valid_codelengths(lens: Seq<u8>) -> bool {
    lens.len() <= 286 && forall|i: int| 0 <= i < lens.len() ==> lens[i] <= 15
}

/// Some symbol has a code.
pub open spec fn has_nonzero(lens: Seq<u8>) -> bool {
    exists|i: int| 0 <= i < lens.len() && lens[i] > 0
}

/// How many of the first `s` symbols have code length `l`.
pub open spec fn count_len_upto(lens: Seq<u8>, l: nat, s: nat) -> nat
    decreases s,
{
    if s == 0 {
        0
    } else {
        (count_len_upto(lens, l, (s - 1) as nat) + if lens[s - 1] == l {
            1int
        } else {
            0int
        }) as nat
    }
}

/// How many symbols have code length `l`.
pub open spec fn length_count(lens: Seq<u8>, l: nat) -> nat {
    count_len_upto(lens, l, lens.len())
}

/// The first canonical code of length `l`: zero for length one, and for each
/// further length the previous first code plus the previous length's
/// population, shifted left once.
pub open spec fn next_code_base(lens: Seq<u8>, l: nat) -> nat
    decreases l,
{
    if l <= 1 {
        0
    } else {
        (next_code_base(lens, (l - 1) as nat) + length_count(lens, (l - 1) as nat)) * 2
    }
}

/// The canonical code of symbol `s`: the first code of its length plus its
/// rank among the symbols of the same length.
pub open spec fn code_of(lens: Seq<u8>, s: int) -> nat {
    next_code_base(lens, lens[s] as nat) + count_len_upto(lens, lens[s] as nat, s as nat)
}

/// A `(length, code)` pair packed into one lookup key; codes stay below
/// `0x100_0000`, so the packing is injective.
pub open spec fn prefix_key(length: nat, code: nat) -> nat {
    length * 0x100_0000 + code
}

/// The packed key of symbol `s`.
pub open spec fn key_of(lens: Seq<u8>, s: int) -> nat {
    prefix_key(lens[s] as nat, code_of(lens, s))
}

/// The canonical mapping restricted to the first `s` symbols.
pub open spec fn canonical_map_upto(lens: Seq<u8>, s: nat) -> Map<u32, u16>
    decreases s,
{
    if s == 0 {
        Map::empty()
    } else {
        let m = canonical_map_upto(lens, (s - 1) as nat);
        if lens[s - 1] > 0 {
            m.insert(key_of(lens, s - 1) as u32, (s - 1) as u16)
        } else {
            m
        }
    }
}

/// The full canonical `(length, code) -> symbol` mapping of a code-length
/// vector.
pub open spec fn canonical_map(lens: Seq<u8>) -> Map<u32, u16> {
    canonical_map_upto(lens, lens.len())
}

/// The largest code length among the first `s` symbols.
pub open spec fn max_len_upto(lens: Seq<u8>, s: nat) -> nat
    decreases s,
{
    if s == 0 {
        0
    } else {
        let m = max_len_upto(lens, (s - 1) as nat);
        if lens[s - 1] > m {
            lens[s - 1] as nat
        } else {
            m
        }
    }
}

/// The largest code length of the vector.
pub open spec fn max_code_len(lens: Seq<u8>) -> nat {
    max_len_upto(lens, lens.len())
}

/// The smallest non-zero code length among the first `s` symbols, or 255
/// when every one of them is zero.
pub open spec fn min_nonzero_upto(lens: Seq<u8>, s: nat) -> nat
    decreases s,
{
    if s == 0 {
        255
    } else {
        let m = min_nonzero_upto(lens, (s - 1) as nat);
        if lens[s - 1] > 0 && (lens[s - 1] as nat) < m {
            lens[s - 1] as nat
        } else {
            m
        }
    }
}

/// The smallest non-zero code length, or 255 when there is none.
pub open spec fn min_code_len(lens: Seq<u8>) -> nat {
    min_nonzero_upto(lens, lens.len())
}

/// Probing decode: try each code length from `l` up to `maxl`, matching the
/// MSB-first assembly of that many bits against the mapping; the shortest
/// match wins. `None` when the bits run out or no length matches.
pub open spec fn huff_probe(
    m: Map<u32, u16>,
    data: Seq<u8>,
    msb: bool,
    pos: nat,
    l: nat,
    maxl: nat,
) -> Option<(u16, nat)>
    decreases (if l <= maxl {
        (maxl - l + 1) as nat
    } else {
        0nat
    }),
{
    if l > maxl {
        None
    } else if pos + l > 8 * data.len() {
        None
    } else if m.contains_key(prefix_key(l, msb_val(data, msb, pos, l)) as u32) {
        Some((m[prefix_key(l, msb_val(data, msb, pos, l)) as u32], l))
    } else {
        huff_probe(m, data, msb, pos, l + 1, maxl)
    }
}

/// A successful probe consumes between its starting and maximum lengths,
/// and never more bits than the stream holds.
pub proof fn lemma_huff_probe_consumes(
    m: Map<u32, u16>,
    data: Seq<u8>,
    msb: bool,
    pos: nat,
    l: nat,
    maxl: nat,
)
    ensures
        huff_probe(m, data, msb, pos, l, maxl) matches Some((sym, used)) ==> l <= used <= maxl
            && pos + used <= 8 * data.len(),
    decreases (if l <= maxl {
        (maxl - l + 1) as nat
    } else {
        0nat
    }),
{
    if l <= maxl {
        lemma_huff_probe_consumes(m, data, msb, pos, l + 1, maxl);
    }
}

pub proof fn lemma_count_len_le(lens: Seq<u8>, l: nat, s: nat)
    ensures
        count_len_upto(lens, l, s) <= s,
    decreases s,
{
    if s > 0 {
        lemma_count_len_le(lens, l, (s - 1) as nat);
    }
}

/// Counting more symbols never loses occurrences, and passing an occurrence
/// raises the count.
pub proof fn lemma_count_len_mono(lens: Seq<u8>, l: nat, a: nat, b: nat)
    requires
        a <= b,
    ensures
        count_len_upto(lens, l, a) <= count_len_upto(lens, l, b),
        a < b && 0 <= a < lens.len() && lens[a as int] == l ==> count_len_upto(lens, l, a) + 1
            <= count_len_upto(lens, l, b),
    decreases b,
{
    if a < b {
        lemma_count_len_mono(lens, l, a, (b - 1) as nat);
    }
}

/// The first code of each length stays below `(2^l - 2) * n`, so every
/// canonical code of a DEFLATE alphabet fits well under 24 bits.
pub proof fn lemma_next_code_base_bound(lens: Seq<u8>, l: nat)
    requires
        l >= 1,
    ensures
        next_code_base(lens, l) <= (pow2(l) - 2) * lens.len(),
    decreases l,
{
    lemma2_to64();
    let n = lens.len();
    if l <= 1 {
        assert((pow2(1) - 2) * n == 0) by (nonlinear_arith)
            requires
                pow2(1) == 2,
        ;
    } else {
        lemma_next_code_base_bound(lens, (l - 1) as nat);
        lemma_count_len_le(lens, (l - 1) as nat, n);
        lemma_pow2_unfold(l);
        let p1 = pow2((l - 1) as nat) as int;
        lemma_pow2_pos((l - 1) as nat);
        assert((next_code_base(lens, (l - 1) as nat) + length_count(lens, (l - 1) as nat)) * 2
            <= (pow2(l) - 2) * n) by (nonlinear_arith)
            requires
                next_code_base(lens, (l - 1) as nat) <= (p1 - 2) * n,
                length_count(lens, (l - 1) as nat) <= n,
                pow2(l) == 2 * p1,
                p1 >= 1,
        ;
    }
}

/// Every canonical code of a valid code-length vector fits in 24 bits.
pub proof fn lemma_code_of_bound(lens: Seq<u8>, s: int)
    requires
        valid_codelengths(lens),
        0 <= s < lens.len(),
        lens[s] > 0,
    ensures
        code_of(lens, s) < 0x100_0000,
{
    let l = lens[s] as nat;
    lemma_next_code_base_bound(lens, l);
    lemma_count_len_le(lens, l, s as nat);
    lemma2_to64();
    assert((pow2(l) - 2) * lens.len() <= (pow2(15) - 2) * 286) by (nonlinear_arith)
        requires
            pow2(l) <= pow2(15),
            lens.len() <= 286,
            pow2(l) >= 2,
    ;
    if l < 15 {
        lemma_pow2_strictly_increases(l, 15);
    }
    lemma_pow2_pos(l);
}

/// Canonical-code uniqueness: distinct symbols that both have a code are
/// assigned distinct `(length, code)` pairs, hence distinct packed keys.
pub proof fn lemma_canonical_codes_unique(lens: Seq<u8>, s1: int, s2: int)
    requires
        valid_codelengths(lens),
        0 <= s1 < lens.len(),
        0 <= s2 < lens.len(),
        s1 != s2,
        lens[s1] > 0,
        lens[s2] > 0,
    ensures
        lens[s1] == lens[s2] ==> code_of(lens, s1) != code_of(lens, s2),
        key_of(lens, s1) != key_of(lens, s2),
{
    lemma_code_of_bound(lens, s1);
    lemma_code_of_bound(lens, s2);
    if lens[s1] == lens[s2] {
        let l = lens[s1] as nat;
        if s1 < s2 {
            lemma_count_len_mono(lens, l, s1 as nat, s2 as nat);
        } else {
            lemma_count_len_mono(lens, l, s2 as nat, s1 as nat);
        }
    } else {
        assert(lens[s1] * 0x100_0000 != lens[s2] * 0x100_0000) by (nonlinear_arith)
            requires
                lens[s1] != lens[s2],
        ;
        assert(key_of(lens, s1) != key_of(lens, s2)) by (nonlinear_arith)
            requires
                key_of(lens, s1) == lens[s1] * 0x100_0000 + code_of(lens, s1),
                key_of(lens, s2) == lens[s2] * 0x100_0000 + code_of(lens, s2),
                code_of(lens, s1) < 0x100_0000,
                code_of(lens, s2) < 0x100_0000,
                lens[s1] != lens[s2],
        ;
    }
}

/// The `(length, code) -> symbol` mapping, held in a hash map keyed by the
/// packed `(length, code)` pair. The map itself comes from an outside crate,
/// so it sits behind trusted wrappers, and `prefix_map_contents` names what
/// it holds.
#[verifier::external_body]
pub struct PrefixMap {
    map: rustc_hash::FxHashMap<u32, u16>,
}

/// The key-value pairs a `PrefixMap` holds.
pub uninterp spec fn prefix_map_contents(m: PrefixMap) -> Map<u32, u16>;

impl PrefixMap {
    /// Relies on `rustc_hash::FxHashMap::default` (a `std::collections::HashMap`
    /// with the Fx hasher): a freshly built map is empty.
    #[verifier::external_body]
    fn new() -> (pm: PrefixMap)
        ensures
            forall|k: u32| !prefix_map_contents(pm).contains_key(k),
    {
        PrefixMap { map: rustc_hash::FxHashMap::default() }
    }

    /// Relies on `std::collections::HashMap::insert`: the map afterwards
    /// holds `value` under `key` and is otherwise unchanged.
    #[verifier::external_body]
    fn insert(&mut self, key: u32, value: u16)
        ensures
            prefix_map_contents(*final(self)) == prefix_map_contents(*old(self)).insert(
                key,
                value,
            ),
    {
        self.map.insert(key, value);
    }

    /// Relies on `std::collections::HashMap::get`: the value stored under
    /// `key`, or `None` when the key is absent.
    #[verifier::external_body]
    fn get(&self, key: u32) -> (r: Option<u16>)
        ensures
            r == if prefix_map_contents(*self).contains_key(key) {
                Some(prefix_map_contents(*self)[key])
            } else {
                None::<u16>
            },
    {
        self.map.get(&key).cloned()
    }
}

/// A code of a canonical Huffman tree: its bit length and its value,
/// assembled MSB-first.
#[derive(Debug, PartialEq, Eq, Hash, PartialOrd, Ord, Structural)]
pub struct Prefix {
    pub length: u8,
    pub prefix: u16,
}

/// A canonical Huffman decoder: the `(length, code) -> symbol` mapping of a
/// code-length vector together with its shortest and longest code lengths.
pub struct HuffmanTree {
    pub symbol_prefixes: PrefixMap,
    min_codelength: u8,
    max_codelength: u8,
}

impl HuffmanTree {
    /// The `(packed key) -> symbol` mapping of the tree.
    pub closed spec fn contents(self) -> Map<u32, u16> {
        prefix_map_contents(self.symbol_prefixes)
    }

    /// The shortest code length of the tree.
    pub closed spec fn min_len(self) -> nat {
        self.min_codelength as nat
    }

    /// The longest code length of the tree.
    pub closed spec fn max_len(self) -> nat {
        self.max_codelength as nat
    }

    /// Probing starts at a real shortest length and stops at a longest one
    /// that fits a DEFLATE code.
    pub closed spec fn wf(self) -> bool {
        1 <= self.min_codelength <= self.max_codelength <= 15
    }

    /// What well-formedness says of the two length bounds.
    pub proof fn lemma_wf_bounds(self)
        requires
            self.wf(),
        ensures
            1 <= self.min_len() <= self.max_len() <= 15,
    {
    }

    /// Build the canonical decoder of `codelengths`, where the `n`th entry
    /// is the code length of symbol `n` and zero means the symbol has no
    /// code. `None` when the vector is empty or all zero.
    pub fn from_codelengths(codelengths: &[u8]) -> (r: Option<HuffmanTree>)
        requires
            valid_codelengths(codelengths@),
        ensures
            r is Some <==> has_nonzero(codelengths@),
            r matches Some(tree) ==> {
                &&& tree.wf()
                &&& tree.contents() == canonical_map(codelengths@)
                &&& tree.min_len() == min_code_len(codelengths@)
                &&& tree.max_len() == max_code_len(codelengths@)
            },
    {
        let ghost lens = codelengths@;
        let n: usize = codelengths.len();

        // Find the largest code length.
        let mut max_clen: u8 = 0;
        let mut i: usize = 0;
        while i < n
            invariant
                i <= n,
                max_clen == max_len_upto(lens, i as nat),
                max_clen <= 15,
            decreases n - i,
        {
            if codelengths[i] > max_clen {
                max_clen = codelengths[i];
            }
            i += 1;
        }
        if max_clen == 0 {
            proof {
                lemma_all_zero(lens, n as nat);
            }
            return None;
        }
        assert(has_nonzero(lens)) by {
            lemma_max_len_witness(lens, n as nat);
        }

        // Count number of occurrences of codelengths, and find min codelength
        let mut min_clen: u8 = 255;
        let mut clen_counts: Vec<u32> = vec![0u32; (max_clen as usize) + 1];
        let mut i: usize = 0;
        while i < n
            invariant
                i <= n,
                clen_counts@.len() == max_clen + 1,
                max_clen == max_code_len(lens),
                1 <= max_clen <= 15,
                min_clen == min_nonzero_upto(lens, i as nat),
                clen_counts@[0] == 0,
                forall|l: int|
                    1 <= l <= max_clen ==> clen_counts@[l] == count_len_upto(
                        lens,
                        l as nat,
                        i as nat,
                    ),
            decreases n - i,
        {
            let symbol_clen: u8 = codelengths[i];
            if symbol_clen > 0 {
                proof {
                    lemma_max_len_ge(lens, n as nat, i as int);
                    lemma_count_len_le(lens, symbol_clen as nat, i as nat);
                }
                if symbol_clen < min_clen {
                    min_clen = symbol_clen;
                }
                let idx: usize = symbol_clen as usize;
                clen_counts[idx] = clen_counts[idx] + 1;
            }
            i += 1;
        }

        // Create the base code for each codelength, reusing the vector: after
        // this, entry `l - 1` holds the first code of length `l`.
        let mut code: u32 = 0;
        let mut codelength: usize = 1;
        while codelength < max_clen as usize
            invariant
                1 <= codelength <= max_clen,
                max_clen == max_code_len(lens),
                1 <= max_clen <= 15,
                clen_counts@.len() == max_clen + 1,
                code == next_code_base(lens, codelength as nat),
                forall|l: int| 0 <= l < codelength ==> clen_counts@[l] == next_code_base(
                    lens,
                    (l + 1) as nat,
                ),
                forall|l: int|
                    codelength <= l <= max_clen ==> clen_counts@[l] == count_len_upto(
                        lens,
                        l as nat,
                        lens.len(),
                    ),
            decreases max_clen - codelength,
        {
            proof {
                lemma_next_code_base_bound(lens, (codelength + 1) as nat);
                lemma_count_len_le(lens, codelength as nat, lens.len());
                lemma2_to64();
                if codelength + 1 < 15 {
                    lemma_pow2_strictly_increases((codelength + 1) as nat, 15);
                }
                assert((pow2((codelength + 1) as nat) - 2) * lens.len() <= (pow2(15) - 2) * 286)
                    by (nonlinear_arith)
                    requires
                        pow2((codelength + 1) as nat) <= pow2(15),
                        pow2((codelength + 1) as nat) >= 2,
                        lens.len() <= 286,
                ;
            }
            code = (code + clen_counts[codelength]) * 2;
            // reuse vec for base codes
            clen_counts[codelength] = code;
            codelength += 1;
        }
        let mut next_codes: Vec<u32> = clen_counts;

        // Create a mapping of prefixes to symbols
        let mut symbol_prefixes: PrefixMap = PrefixMap::new();
        let mut symbol: usize = 0;
        while symbol < n
            invariant
                symbol <= n,
                next_codes@.len() == max_clen + 1,
                max_clen == max_code_len(lens),
                1 <= max_clen <= 15,
                prefix_map_contents(symbol_prefixes) == canonical_map_upto(lens, symbol as nat),
                forall|l: int|
                    1 <= l <= max_clen ==> #[trigger] next_codes@[l - 1] == next_code_base(
                        lens,
                        l as nat,
                    ) + count_len_upto(lens, l as nat, symbol as nat),
            decreases n - symbol,
        {
            let symbol_clen: u8 = codelengths[symbol];
            if symbol_clen > 0 {
                proof {
                    lemma_max_len_ge(lens, n as nat, symbol as int);
                    lemma_code_of_bound(lens, symbol as int);
                    lemma_count_len_mono(lens, symbol_clen as nat, symbol as nat, lens.len());
                }
                let idx: usize = (symbol_clen - 1) as usize;
                proof {
                    assert(next_codes@[symbol_clen as int - 1] == next_code_base(
                        lens,
                        symbol_clen as nat,
                    ) + count_len_upto(lens, symbol_clen as nat, symbol as nat));
                    assert(code_of(lens, symbol as int) < 0x100_0000);
                }
                let next_code: u32 = next_codes[idx];
                let key: u32 = (symbol_clen as u32) * 0x100_0000 + next_code;
                symbol_prefixes.insert(key, symbol as u16);
                next_codes[idx] = next_code + 1;
            }
            symbol += 1;
        }

        proof {
            lemma_min_nonzero_range(lens, n as nat);
        }
        Some(
            HuffmanTree {
                symbol_prefixes,
                max_codelength: max_clen,
                min_codelength: min_clen,
            },
        )
    }

    /// Decode the next symbol from `data`: read `min_len` bits MSB-first,
    /// then probe one added bit at a time up to `max_len`; the shortest
    /// matching code wins, exactly as [`huff_probe`] says. `None` when the
    /// stream runs dry or no code matches.
    pub fn get_next_symbol(&self, data: &mut BitReader) -> (r: Option<u16>)
        requires
            self.wf(),
            old(data).wf(),
        ensures
            final(data).wf(),
            final(data).stream() == old(data).stream(),
            final(data).msb_first() == old(data).msb_first(),
            ({
                let probe = huff_probe(
                    self.contents(),
                    old(data).stream(),
                    old(data).msb_first(),
                    old(data).pos(),
                    self.min_len(),
                    self.max_len(),
                );
                match probe {
                    Some((sym, l)) => r == Some(sym) && final(data).pos() == old(data).pos() + l,
                    None => r is None,
                }
            }),
    {
        if self.max_codelength > 16 {
            return None;
        }
        let ghost stream = data.stream();
        let ghost msb = data.msb_first();
        let ghost pos0 = data.pos();
        let ghost m = self.contents();
        let ghost maxl = self.max_len();

        let mut current_prefix: u16 = match data.read_bits(self.min_codelength as usize) {
            Some(v) => v as u16,
            None => {
                return None;
            },
        };
        proof {
            lemma_msb_val_bound(stream, msb, pos0, self.min_len());
            lemma2_to64();
        }
        let mut current_length: u8 = self.min_codelength;

        while current_length <= self.max_codelength
            invariant
                self.wf(),
                data.wf(),
                data.stream() == stream,
                data.msb_first() == msb,
                m == self.contents(),
                maxl == self.max_len(),
                self.min_len() <= current_length <= maxl + 1,
                data.pos() == pos0 + current_length,
                current_length <= maxl ==> current_prefix == msb_val(
                    stream,
                    msb,
                    pos0,
                    current_length as nat,
                ),
                huff_probe(m, stream, msb, pos0, self.min_len(), maxl) == huff_probe(
                    m,
                    stream,
                    msb,
                    pos0,
                    current_length as nat,
                    maxl,
                ),
            decreases maxl + 1 - current_length,
        {
            proof {
                data.lemma_pos_in_range();
                lemma_msb_val_bound(stream, msb, pos0, current_length as nat);
                lemma_pow2_strictly_increases(current_length as nat, 16);
                lemma2_to64();
            }
            if let Some(symbol) = self.get_symbol(
                &Prefix { length: current_length, prefix: current_prefix },
            ) {
                proof {
                    assert(current_prefix as nat == msb_val(
                        stream,
                        msb,
                        pos0,
                        current_length as nat,
                    ));
                    assert(huff_probe(m, stream, msb, pos0, current_length as nat, maxl) == Some(
                        (
                            m[prefix_key(
                                current_length as nat,
                                msb_val(stream, msb, pos0, current_length as nat),
                            ) as u32],
                            current_length as nat,
                        ),
                    ));
                }
                return Some(symbol);
            }
            let bit: u16 = match data.read_bits(1) {
                Some(b) => b as u16,
                None => {
                    proof {
                        assert(huff_probe(
                            m,
                            stream,
                            msb,
                            pos0,
                            current_length as nat + 1,
                            maxl,
                        ) is None);
                        assert(huff_probe(m, stream, msb, pos0, current_length as nat, maxl)
                            is None);
                    }
                    return None;
                },
            };
            proof {
                data.lemma_pos_in_range();
                lemma_stream_bit_le_1(stream, msb, pos0 + current_length as nat);
                lemma_msb_snoc(stream, msb, pos0 + current_length as nat, 0);
                lemma_msb_snoc(stream, msb, pos0, current_length as nat);
                let cp = current_prefix;
                let bv = bit;
                assert(cp < 0x8000 && bv <= 1 ==> ((cp << 1u16) | bv) == 2 * cp + bv) by (
                bit_vector);
                if (current_length as nat) < 15 {
                    lemma_pow2_strictly_increases(current_length as nat, 15);
                }
            }
            current_prefix = (current_prefix << 1u16) | bit;
            current_length += 1;
        }

        None
    }

    /// Look one `(length, code)` pair up in the tree's mapping.
    pub fn get_symbol(&self, code: &Prefix) -> (r: Option<u16>)
        ensures
            r == if self.contents().contains_key(
                (prefix_key(code.length as nat, code.prefix as nat) as u32),
            ) {
                Some(self.contents()[prefix_key(code.length as nat, code.prefix as nat) as u32])
            } else {
                None::<u16>
            },
    {
        self.symbol_prefixes.get((code.length as u32) * 0x100_0000 + (code.prefix as u32))
    }
}

/// If the largest length over the whole vector is zero, no entry is nonzero.
proof fn lemma_all_zero(lens: Seq<u8>, s: nat)
    requires
        s <= lens.len(),
        max_len_upto(lens, s) == 0,
    ensures
        forall|i: int| 0 <= i < s ==> lens[i] == 0,
    decreases s,
{
    if s > 0 {
        lemma_all_zero(lens, (s - 1) as nat);
    }
}

/// A nonzero largest length is attained by some entry.
proof fn lemma_max_len_witness(lens: Seq<u8>, s: nat)
    requires
        s <= lens.len(),
        max_len_upto(lens, s) > 0,
    ensures
        exists|i: int| 0 <= i < s && lens[i] == max_len_upto(lens, s),
    decreases s,
{
    if s > 0 && max_len_upto(lens, (s - 1) as nat) == max_len_upto(lens, s) {
        lemma_max_len_witness(lens, (s - 1) as nat);
    }
}

/// Every entry is at most the largest length.
proof fn lemma_max_len_ge(lens: Seq<u8>, s: nat, i: int)
    requires
        0 <= i < s <= lens.len(),
    ensures
        lens[i] <= max_len_upto(lens, s),
        max_len_upto(lens, i as nat) <= max_len_upto(lens, s),
    decreases s,
{
    if i < s - 1 {
        lemma_max_len_ge(lens, (s - 1) as nat, i);
    }
}

/// When some entry is nonzero, the smallest nonzero length is attained and
/// lies between 1 and the largest length.
proof fn lemma_min_nonzero_range(lens: Seq<u8>, s: nat)
    requires
        s <= lens.len(),
        exists|i: int| 0 <= i < s && lens[i] > 0,
    ensures
        exists|i: int|
            0 <= i < s && lens[i] > 0 && lens[i] == min_nonzero_upto(lens, s),
        1 <= min_nonzero_upto(lens, s),
        min_nonzero_upto(lens, s) <= max_len_upto(lens, s),
    decreases s,
{
    let m = min_nonzero_upto(lens, s);
    if s > 0 {
        if exists|i: int| 0 <= i < s - 1 && lens[i] > 0 {
            lemma_min_nonzero_range(lens, (s - 1) as nat);
            let w = choose|i: int|
                0 <= i < s - 1 && lens[i] > 0 && lens[i] == min_nonzero_upto(lens, (s - 1) as nat);
            lemma_max_len_ge(lens, s, w);
            if lens[s - 1] > 0 && (lens[s - 1] as nat) < min_nonzero_upto(lens, (s - 1) as nat) {
                lemma_max_len_ge(lens, s, s - 1);
            }
        } else {
            assert(forall|i: int| 0 <= i < s - 1 ==> lens[i] == 0);
            assert(lens[s - 1] > 0);
            lemma_min_all_zero(lens, (s - 1) as nat);
            lemma_max_len_ge(lens, s, s - 1);
        }
    }
}

/// Over an all-zero prefix the smallest nonzero length keeps its default.
proof fn lemma_min_all_zero(lens: Seq<u8>, s: nat)
    requires
        s <= lens.len(),
        forall|i: int| 0 <= i < s ==> lens[i] == 0,
    ensures
        min_nonzero_upto(lens, s) == 255,
    decreases s,
{
    if s > 0 {
        lemma_min_all_zero(lens, (s - 1) as nat);
    }
}

/// The canonical mapping holds every coded symbol under its key: later
/// inserts never displace earlier ones, because the keys are all distinct.
pub proof fn lemma_canonical_map_complete(lens: Seq<u8>, upto: nat, s: int)
    requires
        valid_codelengths(lens),
        0 <= s < upto <= lens.len(),
        lens[s] > 0,
    ensures
        canonical_map_upto(lens, upto).contains_key(key_of(lens, s) as u32),
        canonical_map_upto(lens, upto)[key_of(lens, s) as u32] == s as u16,
    decreases upto,
{
    lemma_code_of_bound(lens, s);
    if s == upto - 1 {
    } else {
        lemma_canonical_map_complete(lens, (upto - 1) as nat, s);
        if lens[upto - 1] > 0 {
            lemma_canonical_codes_unique(lens, s, upto - 1);
            lemma_code_of_bound(lens, upto - 1);
        }
    }
}

} // verus!
