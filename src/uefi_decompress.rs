//! Decompression of the LZ77 + canonical Huffman format used for compressed
//! firmware sections, in its two variants.
use crate::bit_reader::{bit_at, bits_be, total_bits, BitReader};
use crate::huffman::{
    build_huffman_table, code16, decode_spec, decode_symbol, lemma_decode_range, lemma_hold_frame, pow2_u64,
    table_code, tables_hold_code, valid_lengths, HuffCode, NODE_CAP,
};
use vstd::arithmetic::power2::pow2;
use vstd::prelude::*;

verus! {

/// Why a decompression failed.
#[derive(Debug, Clone, Copy, PartialEq, Eq, Structural)]
pub enum DecompressError {
    /// The input is shorter than its 8-byte header, or its header claims more
    /// compressed bytes than the input holds.
    InvalidSrcSize,
    /// The header's original size is not the length of the destination.
    InvalidDstSize,
    /// The bit stream ends early or describes an impossible code.
    MalformedSrcData,
}

/// The two variants of the format. They differ only in the width of the
/// field that counts the Position Set's code lengths: 4 bits or 5 bits.
#[derive(Debug, Clone, Copy, PartialEq, Eq, Structural)]
pub enum DecompressionAlgorithm {
    UefiDecompress,
    TianoDecompress,
}


/// Symbols of the Char&Length Set: 256 literal bytes and 254 match lengths.
pub const NC: usize = 510;
/// Width of the Char&Length Set's count fields.
pub const CBIT: usize = 9;
/// Leading bits that index the Char&Length Set's fixed table.
pub const CTABLE_BITS: usize = 12;
/// Symbols of the Extra Set.
pub const NT: usize = 19;
/// Width of the Extra Set's count fields.
pub const TBIT: usize = 5;
/// Leading bits that index the Extra Set's and the Position Set's fixed table.
pub const PTABLE_BITS: usize = 8;
/// Symbols of the Position Set.
pub const MAXNP: usize = 31;

/// One decoded instruction of the LZ77 stream.
#[derive(Debug, Clone, Copy, PartialEq, Eq, Structural)]
pub enum CodeSymbol {
    /// A byte to append as it is.
    OrigChar(u8),
    /// Copy `length` bytes starting `distance + 1` bytes before the end of
    /// the output: `StrPointer(distance, length)`.
    StrPointer(usize, usize),
}

/// `n` bits at `pos`, and the position after them.
pub open spec fn read_bits_spec(s: Seq<u8>, pos: int, n: nat) -> Option<(nat, int)> {
    if pos + n <= total_bits(s) {
        Some((bits_be(s, pos, n), pos + n))
    } else {
        None
    }
}

/// The unary tail of a long code length: each 1 bit adds one to `len`, a 0
/// bit ends it. A length past 16 is malformed.
pub open spec fn read_unary(s: Seq<u8>, pos: int, len: nat) -> Option<(nat, int)>
    decreases 16 - len,
{
    if pos + 1 > total_bits(s) || len > 16 {
        None
    } else if bit_at(s, pos) == 0 {
        Some((len, pos + 1))
    } else if len >= 16 {
        None
    } else {
        read_unary(s, pos + 1, len + 1)
    }
}

/// One code length of the Extra or Position Set: 3 bits, and when those
/// are 7, the unary tail.
pub open spec fn read_code_len(s: Seq<u8>, pos: int) -> Option<(nat, int)> {
    match read_bits_spec(s, pos, 3) {
        None => None,
        Some((v, p)) => if v < 7 {
            Some((v, p))
        } else {
            read_unary(s, p, 7)
        },
    }
}

/// `n` zero lengths.
pub open spec fn zeros(n: nat) -> Seq<u8> {
    Seq::new(n, |i: int| 0u8)
}

/// The code lengths of the Extra or Position Set after the count, appended
/// to `acc` until `count` are placed; with `extra`, a 2-bit run of zero
/// lengths follows the third.
pub open spec fn pt_entries(s: Seq<u8>, pos: int, count: nat, extra: bool, acc: Seq<u8>) -> Option<
    (Seq<u8>, int),
>
    decreases if acc.len() >= count {
        0
    } else {
        count - acc.len()
    },
{
    if acc.len() >= count {
        Some((acc, pos))
    } else {
        match read_code_len(s, pos) {
            None => None,
            Some((l, pos1)) => {
                let acc1 = acc.push(l as u8);
                if extra && acc1.len() == 3 {
                    match read_bits_spec(s, pos1, 2) {
                        None => None,
                        Some((z, pos2)) => pt_entries(s, pos2, count, extra, acc1 + zeros(z)),
                    }
                } else {
                    pt_entries(s, pos1, count, extra, acc1)
                }
            },
        }
    }
}

/// The code table of the Extra Set (`nsym` 19, `nbits` 5, `extra`) or of
/// the Position Set (`nsym` 31), and the position after it.
pub open spec fn read_pt_lens(s: Seq<u8>, pos: int, nsym: nat, nbits: nat, extra: bool) -> Option<
    (HuffCode, int),
> {
    match read_bits_spec(s, pos, nbits) {
        None => None,
        Some((count, pos1)) => if count == 0 {
            match read_bits_spec(s, pos1, nbits) {
                None => None,
                Some((c, pos2)) => if c < nsym {
                    Some((HuffCode::Single(c), pos2))
                } else {
                    None
                },
            }
        } else {
            match pt_entries(s, pos1, count, extra, Seq::empty()) {
                None => None,
                Some((e, pos2)) => if e.len() > nsym {
                    None
                } else {
                    let lens = e + zeros((nsym - e.len()) as nat);
                    if valid_lengths(lens) {
                        Some((HuffCode::Lengths(lens), pos2))
                    } else {
                        None
                    }
                },
            }
        },
    }
}

/// A run of zero lengths in the Char&Length array: Extra Set symbol 0 is
/// one zero, 1 is 3 to 18 zeros (4 bits), 2 is 20 to 531 zeros (9 bits).
pub open spec fn zero_run(sym: nat, s: Seq<u8>, pos: int) -> Option<(nat, int)> {
    if sym == 0 {
        Some((1, pos))
    } else if sym == 1 {
        match read_bits_spec(s, pos, 4) {
            None => None,
            Some((v, p)) => Some((v + 3, p)),
        }
    } else {
        match read_bits_spec(s, pos, 9) {
            None => None,
            Some((v, p)) => Some((v + 20, p)),
        }
    }
}

/// The Char&Length code lengths after the count, decoded with the Extra
/// Set's code `xcode` and appended to `acc` until `count` are placed.
pub open spec fn c_entries(s: Seq<u8>, pos: int, count: nat, xcode: HuffCode, acc: Seq<u8>) -> Option<
    (Seq<u8>, int),
>
    decreases 511 - acc.len(),
{
    if acc.len() >= count || acc.len() > 510 {
        if acc.len() > 510 {
            None
        } else {
            Some((acc, pos))
        }
    } else {
        match decode_spec(xcode, 8, s, pos) {
            None => None,
            Some((sym, pos1)) => if sym <= 2 {
                match zero_run(sym, s, pos1) {
                    None => None,
                    Some((n, pos2)) => if acc.len() + n > 510 {
                        None
                    } else {
                        c_entries(s, pos2, count, xcode, acc + zeros(n))
                    },
                }
            } else if acc.len() >= 510 {
                None
            } else {
                c_entries(s, pos1, count, xcode, acc.push((sym - 2) as u8))
            },
        }
    }
}

/// The Char&Length Set's code table, read with the Extra Set's code
/// `xcode`, and the position after it.
pub open spec fn read_c_lens(s: Seq<u8>, pos: int, xcode: HuffCode) -> Option<(HuffCode, int)> {
    match read_bits_spec(s, pos, 9) {
        None => None,
        Some((count, pos1)) => if count == 0 {
            match read_bits_spec(s, pos1, 9) {
                None => None,
                Some((c, pos2)) => if c < 510 {
                    Some((HuffCode::Single(c), pos2))
                } else {
                    None
                },
            }
        } else {
            match c_entries(s, pos1, count, xcode, Seq::empty()) {
                None => None,
                Some((e, pos2)) => {
                    let lens = e + zeros((510 - e.len()) as nat);
                    if valid_lengths(lens) {
                        Some((HuffCode::Lengths(lens), pos2))
                    } else {
                        None
                    }
                },
            }
        },
    }
}

/// A back reference's distance: a Position Set symbol `v`; when `v > 1`,
/// `v - 1` more bits below an implicit leading 1.
pub open spec fn decode_position_spec(pcode: HuffCode, s: Seq<u8>, pos: int) -> Option<(nat, int)> {
    match decode_spec(pcode, 8, s, pos) {
        None => None,
        Some((v, pos1)) => if v <= 1 {
            Some((v, pos1))
        } else {
            match read_bits_spec(s, pos1, (v - 1) as nat) {
                None => None,
                Some((x, pos2)) => Some((pow2((v - 1) as nat) + x, pos2)),
            }
        },
    }
}

/// One instruction: a Char&Length symbol below 256 is a literal byte; one
/// from 256 to 509 is a length of `symbol - 253`, followed by a distance.
pub open spec fn decode_code_symbol(ccode: HuffCode, pcode: HuffCode, s: Seq<u8>, pos: int) -> Option<
    (CodeSymbol, int),
> {
    match decode_spec(ccode, 12, s, pos) {
        None => None,
        Some((v, pos1)) => if v < 256 {
            Some((CodeSymbol::OrigChar(v as u8), pos1))
        } else if v < 510 {
            match decode_position_spec(pcode, s, pos1) {
                None => None,
                Some((d, pos2)) => Some((CodeSymbol::StrPointer(d as usize, (v - 253) as usize), pos2)),
            }
        } else {
            None
        },
    }
}

/// A block's header: its number of instructions (16 bits), then the tables
/// of the Extra Set, the Char&Length Set and the Position Set (whose count
/// field is `p_bit` wide).
pub open spec fn read_block_header(s: Seq<u8>, pos: int, p_bit: nat) -> Option<
    (nat, HuffCode, HuffCode, int),
> {
    match read_bits_spec(s, pos, 16) {
        None => None,
        Some((count, pos1)) => match read_pt_lens(s, pos1, 19, 5, true) {
            None => None,
            Some((x, pos2)) => match read_c_lens(s, pos2, x) {
                None => None,
                Some((c, pos3)) => match read_pt_lens(s, pos3, 31, p_bit, false) {
                    None => None,
                    Some((p, pos4)) => Some((count, c, p, pos4)),
                },
            },
        },
    }
}

/// Appends `len` bytes, each copied from index `from` onward of the output
/// as it grows, stopping once the output holds `n` bytes.
pub open spec fn copy_back(out: Seq<u8>, from: int, len: nat, n: nat) -> Seq<u8>
    decreases len,
{
    if len == 0 || out.len() >= n {
        out
    } else {
        copy_back(out.push(out[from]), from + 1, (len - 1) as nat, n)
    }
}

/// The output after one instruction; a back reference reaching before the
/// start is malformed.
pub open spec fn apply_symbol(out: Seq<u8>, sym: CodeSymbol, n: nat) -> Option<Seq<u8>> {
    match sym {
        CodeSymbol::OrigChar(b) => Some(out.push(b)),
        CodeSymbol::StrPointer(d, len) => if d + 1 > out.len() {
            None
        } else {
            Some(copy_back(out, out.len() - d - 1, len as nat, n))
        },
    }
}

/// Decoding from bit `pos` with `remaining` instructions left in the
/// current block, whose codes are `ccode` and `pcode`, onto `out`, until
/// the output holds `n` bytes. `None` when the data is malformed.
#[verifier::opaque]
pub open spec fn run(
    s: Seq<u8>,
    n: nat,
    p_bit: nat,
    pos: int,
    remaining: nat,
    ccode: HuffCode,
    pcode: HuffCode,
    out: Seq<u8>,
) -> Option<Seq<u8>>
    decreases n - out.len(), total_bits(s) - pos,
    via run_decreases
{
    if out.len() >= n {
        Some(out)
    } else if pos < 0 || pos > total_bits(s) {
        None
    } else if remaining == 0 {
        match read_block_header(s, pos, p_bit) {
            None => None,
            Some((count, c, p, pos4)) => run(s, n, p_bit, pos4, count, c, p, out),
        }
    } else {
        match decode_code_symbol(ccode, pcode, s, pos) {
            None => None,
            Some((sym, pos1)) => match apply_symbol(out, sym, n) {
                None => None,
                Some(out2) => run(s, n, p_bit, pos1, (remaining - 1) as nat, ccode, pcode, out2),
            },
        }
    }
}

#[via_fn]
proof fn run_decreases(
    s: Seq<u8>,
    n: nat,
    p_bit: nat,
    pos: int,
    remaining: nat,
    ccode: HuffCode,
    pcode: HuffCode,
    out: Seq<u8>,
) {
    if out.len() < n && 0 <= pos <= total_bits(s) {
        if remaining == 0 {
            lemma_header_advances(s, pos, p_bit);
        } else {
            lemma_symbol_length(ccode, pcode, s, pos);
            match decode_code_symbol(ccode, pcode, s, pos) {
                None => {},
                Some((sym, pos1)) => {
                    lemma_apply_grows(out, sym, n);
                },
            }
        }
    }
}

/// One step of `run`, spelled out.
proof fn lemma_run_unfold(
    s: Seq<u8>,
    n: nat,
    p_bit: nat,
    pos: int,
    remaining: nat,
    ccode: HuffCode,
    pcode: HuffCode,
    out: Seq<u8>,
)
    requires
        out.len() < n,
        0 <= pos <= total_bits(s),
    ensures
        remaining == 0 ==> run(s, n, p_bit, pos, remaining, ccode, pcode, out) == match read_block_header(
            s,
            pos,
            p_bit,
        ) {
            None => None,
            Some((count, c, p, pos4)) => run(s, n, p_bit, pos4, count, c, p, out),
        },
        remaining > 0 ==> run(s, n, p_bit, pos, remaining, ccode, pcode, out) == match decode_code_symbol(
            ccode,
            pcode,
            s,
            pos,
        ) {
            None => None,
            Some((sym, pos1)) => match apply_symbol(out, sym, n) {
                None => None,
                Some(out2) => run(s, n, p_bit, pos1, (remaining - 1) as nat, ccode, pcode, out2),
            },
        },
{
    reveal(run);
}

/// `run` stops once the output is full.
proof fn lemma_run_done(
    s: Seq<u8>,
    n: nat,
    p_bit: nat,
    pos: int,
    remaining: nat,
    ccode: HuffCode,
    pcode: HuffCode,
    out: Seq<u8>,
)
    requires
        out.len() >= n,
    ensures
        run(s, n, p_bit, pos, remaining, ccode, pcode, out) == Some(out),
{
    reveal(run);
}

/// The little-endian 32-bit integer at byte `off`.
pub open spec fn le32(s: Seq<u8>, off: int) -> nat {
    (s[off] + 256 * s[off + 1] + 65536 * s[off + 2] + 16777216 * s[off + 3]) as nat
}

/// Width of the Position Set's count field in each variant.
pub open spec fn p_bit_of(algo: DecompressionAlgorithm) -> nat {
    match algo {
        DecompressionAlgorithm::UefiDecompress => 4,
        DecompressionAlgorithm::TianoDecompress => 5,
    }
}

/// The destination's contents after decompressing `src` into `dst`, or the
/// error: the 8-byte header holds the compressed size and the original
/// size, both little-endian; an original size of 0 leaves the destination
/// as it is; otherwise the bit stream after the header is decoded until the
/// destination is full.
pub open spec fn decompress_spec(src: Seq<u8>, dst: Seq<u8>, algo: DecompressionAlgorithm) -> Result<
    Seq<u8>,
    DecompressError,
> {
    if src.len() < 8 {
        Err(DecompressError::InvalidSrcSize)
    } else if le32(src, 0) > src.len() {
        Err(DecompressError::InvalidSrcSize)
    } else if le32(src, 4) == 0 {
        Ok(dst)
    } else if le32(src, 4) != dst.len() {
        Err(DecompressError::InvalidDstSize)
    } else {
        match run(
            src.subrange(8, src.len() as int),
            dst.len(),
            p_bit_of(algo),
            0,
            0,
            HuffCode::Single(0),
            HuffCode::Single(0),
            Seq::empty(),
        ) {
            Some(out) => Ok(out),
            None => Err(DecompressError::MalformedSrcData),
        }
    }
}

proof fn lemma_append_zero(a: Seq<u8>, k: nat)
    ensures
        (a + zeros(k)).push(0u8) == a + zeros(k + 1),
{
    assert((a + zeros(k)).push(0u8) =~= a + zeros(k + 1));
}

/// `run` never returns more than `n` bytes, and only returns once it has
/// `n`.
proof fn lemma_run_length(
    s: Seq<u8>,
    n: nat,
    p_bit: nat,
    pos: int,
    remaining: nat,
    ccode: HuffCode,
    pcode: HuffCode,
    out: Seq<u8>,
)
    requires
        out.len() <= n,
    ensures
        run(s, n, p_bit, pos, remaining, ccode, pcode, out) matches Some(o) ==> o.len() == n,
    decreases n - out.len(), total_bits(s) - pos,
{
    reveal(run);
    if out.len() < n && 0 <= pos <= total_bits(s) {
        if remaining == 0 {
            lemma_header_advances(s, pos, p_bit);
            match read_block_header(s, pos, p_bit) {
                None => {},
                Some((count, c, p, pos4)) => lemma_run_length(s, n, p_bit, pos4, count, c, p, out),
            }
        } else {
            lemma_symbol_length(ccode, pcode, s, pos);
            match decode_code_symbol(ccode, pcode, s, pos) {
                None => {},
                Some((sym, pos1)) => {
                    lemma_apply_grows(out, sym, n);
                    match apply_symbol(out, sym, n) {
                        None => {},
                        Some(out2) => lemma_run_length(
                            s,
                            n,
                            p_bit,
                            pos1,
                            (remaining - 1) as nat,
                            ccode,
                            pcode,
                            out2,
                        ),
                    }
                },
            }
        }
    }
}

/// A successful decompression leaves the destination exactly as long as
/// it was: the output is never short and never overruns.
pub proof fn lemma_output_fills_destination(src: Seq<u8>, dst: Seq<u8>, algo: DecompressionAlgorithm)
    ensures
        decompress_spec(src, dst, algo) matches Ok(out) ==> out.len() == dst.len(),
{
    if src.len() >= 8 && le32(src, 0) <= src.len() && le32(src, 4) != 0 && le32(src, 4) == dst.len() {
        lemma_run_length(
            src.subrange(8, src.len() as int),
            dst.len(),
            p_bit_of(algo),
            0,
            0,
            HuffCode::Single(0),
            HuffCode::Single(0),
            Seq::empty(),
        );
    }
}

/// A header whose original size is 0 means success with nothing written,
/// whatever follows the header and whatever the destination.
pub proof fn lemma_empty_original(src: Seq<u8>, dst: Seq<u8>, algo: DecompressionAlgorithm)
    requires
        src.len() >= 8,
        le32(src, 0) <= src.len(),
        le32(src, 4) == 0,
    ensures
        decompress_spec(src, dst, algo) == Ok::<Seq<u8>, DecompressError>(dst),
{
}

/// A back reference with distance `d` appends `min(len, n - out.len())`
/// bytes, each a copy of the byte `d + 1` places before it, including
/// bytes that the same copy wrote (so a short pattern repeats), and keeps
/// what was there.
pub proof fn lemma_back_reference_repeats(out: Seq<u8>, d: nat, len: nat, n: nat)
    requires
        d + 1 <= out.len() <= n,
    ensures
        ({
            let r = copy_back(out, out.len() - d - 1, len, n);
            &&& r.len() == out.len() + if len <= n - out.len() {
                len as int
            } else {
                n - out.len()
            }
            &&& r.subrange(0, out.len() as int) == out
            &&& forall|i: int| out.len() <= i < r.len() ==> #[trigger] r[i] == r[i - d - 1]
        }),
    decreases len,
{
    let from = out.len() - d - 1;
    lemma_copy_back_len(out, from, len, n);
    if len > 0 && out.len() < n {
        let o2 = out.push(out[from]);
        lemma_back_reference_repeats(o2, d, (len - 1) as nat, n);
        let r = copy_back(out, from, len, n);
        assert(r == copy_back(o2, from + 1, (len - 1) as nat, n));
        assert(o2.len() - d - 1 == from + 1);
        lemma_copy_back_len(o2, from + 1, (len - 1) as nat, n);
        assert forall|i: int| out.len() <= i < r.len() implies #[trigger] r[i] == r[i - d - 1] by {
            if i == out.len() {
                assert(r.subrange(0, o2.len() as int) == o2);
                assert(r[i] == o2[i]);
                assert(r[i - d - 1] == o2[i - d - 1]);
            }
        }
    }
}

/// `Some((_, q))` for a read that starts at `pos` means `pos <= q <= total`.
pub open spec fn advances<T>(r: Option<(T, int)>, s: Seq<u8>, pos: int) -> bool {
    r matches Some((_, q)) ==> pos <= q <= total_bits(s)
}

proof fn lemma_unary_advances(s: Seq<u8>, pos: int, len: nat)
    ensures
        advances(read_unary(s, pos, len), s, pos),
    decreases 16 - len,
{
    if pos + 1 <= total_bits(s) && len <= 16 && bit_at(s, pos) != 0 && len < 16 {
        lemma_unary_advances(s, pos + 1, len + 1);
    }
}

proof fn lemma_code_len_advances(s: Seq<u8>, pos: int)
    ensures
        advances(read_code_len(s, pos), s, pos),
{
    lemma_unary_advances(s, pos + 3, 7);
}

proof fn lemma_pt_entries_advances(s: Seq<u8>, pos: int, count: nat, extra: bool, acc: Seq<u8>)
    requires
        0 <= pos <= total_bits(s),
    ensures
        advances(pt_entries(s, pos, count, extra, acc), s, pos),
    decreases if acc.len() >= count {
        0
    } else {
        count - acc.len()
    },
{
    if acc.len() < count {
        lemma_code_len_advances(s, pos);
        match read_code_len(s, pos) {
            None => {},
            Some((l, pos1)) => {
                let acc1 = acc.push(l as u8);
                if extra && acc1.len() == 3 {
                    match read_bits_spec(s, pos1, 2) {
                        None => {},
                        Some((z, pos2)) => lemma_pt_entries_advances(s, pos2, count, extra, acc1 + zeros(z)),
                    }
                } else {
                    lemma_pt_entries_advances(s, pos1, count, extra, acc1)
                }
            },
        }
    }
}

proof fn lemma_pt_lens_advances(s: Seq<u8>, pos: int, nsym: nat, nbits: nat, extra: bool)
    requires
        0 <= pos,
    ensures
        advances(read_pt_lens(s, pos, nsym, nbits, extra), s, pos),
{
    if pos + nbits <= total_bits(s) {
        lemma_pt_entries_advances(s, pos + nbits, bits_be(s, pos, nbits), extra, Seq::empty());
    }
}

proof fn lemma_decode_advances(code: HuffCode, tb: nat, s: Seq<u8>, pos: int)
    requires
        0 <= pos,
    ensures
        advances(decode_spec(code, tb, s, pos), s, pos),
{
}

proof fn lemma_c_entries_advances(s: Seq<u8>, pos: int, count: nat, xcode: HuffCode, acc: Seq<u8>)
    requires
        0 <= pos <= total_bits(s),
    ensures
        advances(c_entries(s, pos, count, xcode, acc), s, pos),
    decreases 511 - acc.len(),
{
    if acc.len() < count && acc.len() <= 510 {
        lemma_decode_advances(xcode, 8, s, pos);
        match decode_spec(xcode, 8, s, pos) {
            None => {},
            Some((sym, pos1)) => if sym <= 2 {
                assert(pos <= pos1 <= total_bits(s));
                match zero_run(sym, s, pos1) {
                    None => {},
                    Some((n, pos2)) => {
                        assert(pos1 <= pos2 <= total_bits(s));
                        if acc.len() + n <= 510 {
                            lemma_c_entries_advances(s, pos2, count, xcode, acc + zeros(n));
                            assert(advances(c_entries(s, pos2, count, xcode, acc + zeros(n)), s, pos2));
                        }
                    },
                }
            } else if acc.len() < 510 {
                lemma_c_entries_advances(s, pos1, count, xcode, acc.push((sym - 2) as u8));
            },
        }
    }
}

proof fn lemma_c_lens_advances(s: Seq<u8>, pos: int, xcode: HuffCode)
    requires
        0 <= pos,
    ensures
        advances(read_c_lens(s, pos, xcode), s, pos),
{
    if pos + 9 <= total_bits(s) {
        lemma_c_entries_advances(s, pos + 9, bits_be(s, pos, 9), xcode, Seq::empty());
    }
}

/// A block header takes at least its 16-bit count.
proof fn lemma_header_advances(s: Seq<u8>, pos: int, p_bit: nat)
    requires
        0 <= pos,
    ensures
        read_block_header(s, pos, p_bit) matches Some((_, _, _, q)) ==> pos + 16 <= q <= total_bits(s),
{
    let pos1 = pos + 16;
    lemma_pt_lens_advances(s, pos1, 19, 5, true);
    match read_pt_lens(s, pos1, 19, 5, true) {
        None => {},
        Some((x, pos2)) => {
            lemma_c_lens_advances(s, pos2, x);
            match read_c_lens(s, pos2, x) {
                None => {},
                Some((c, pos3)) => {
                    lemma_pt_lens_advances(s, pos3, 31, p_bit, false);
                },
            }
        },
    }
}

/// A decoded back reference copies at least 3 bytes.
proof fn lemma_symbol_length(ccode: HuffCode, pcode: HuffCode, s: Seq<u8>, pos: int)
    ensures
        decode_code_symbol(ccode, pcode, s, pos) matches Some((CodeSymbol::StrPointer(_, len), _))
            ==> len >= 3,
{
}

proof fn lemma_copy_back_len(out: Seq<u8>, from: int, len: nat, n: nat)
    ensures
        copy_back(out, from, len, n).len() >= out.len(),
        out.len() <= n ==> copy_back(out, from, len, n).len() <= n,
        len > 0 && out.len() < n ==> copy_back(out, from, len, n).len() > out.len(),
        copy_back(out, from, len, n).subrange(0, out.len() as int) == out,
    decreases len,
{
    if len > 0 && out.len() < n {
        let o2 = out.push(out[from]);
        lemma_copy_back_len(o2, from + 1, (len - 1) as nat, n);
        assert(o2.subrange(0, out.len() as int) == out);
        assert(copy_back(out, from, len, n).subrange(0, out.len() as int) == copy_back(
            out,
            from,
            len,
            n,
        ).subrange(0, o2.len() as int).subrange(0, out.len() as int));
    }
}

/// An instruction adds at least one byte, and never past `n`.
proof fn lemma_apply_grows(out: Seq<u8>, sym: CodeSymbol, n: nat)
    requires
        out.len() < n,
        sym matches CodeSymbol::StrPointer(_, len) ==> len >= 3,
    ensures
        apply_symbol(out, sym, n) matches Some(o2) ==> out.len() < o2.len() <= n,
{
    match sym {
        CodeSymbol::OrigChar(_) => {},
        CodeSymbol::StrPointer(d, len) => {
            if d + 1 <= out.len() {
                lemma_copy_back_len(out, out.len() - d - 1, len as nat, n);
            }
        },
    }
}


/// Reads one Extra or Position Set code length.
#[verifier::loop_isolation(false)]
fn read_code_len_exec(reader: &mut BitReader) -> (r: Option<u8>)
    requires
        old(reader).wf(),
    ensures
        final(reader).wf(),
        final(reader).data() == old(reader).data(),
        match read_code_len(old(reader).data(), old(reader).pos()) {
            None => r is None,
            Some((l, p)) => r == Some(l as u8) && final(reader).pos() == p && l <= 16,
        },
{
    let ghost data = reader.data();
    let ghost pos0 = reader.pos();
    let v = match reader.pop_bits(3) {
        None => return None,
        Some(v) => v,
    };
    if v < 7 {
        return Some(v as u8);
    }
    let mut len: u8 = 7;
    loop
        invariant
            reader.wf(),
            reader.data() == data,
            7 <= len <= 16,
            read_code_len(data, pos0) == read_unary(data, reader.pos(), len as nat),
        decreases 16 - len,
    {
        proof {
            reader.lemma_pos_bound();
        }
        let ghost p = reader.pos();
        let b = match reader.pop_bits(1) {
            None => return None,
            Some(b) => b,
        };
        assert(bits_be(data, p, 1) == bit_at(data, p)) by {
            assert(bits_be(data, p, 0) == 0);
        }
        if b == 0 {
            return Some(len);
        }
        if len >= 16 {
            return None;
        }
        len = len + 1;
    }
}

/// Reads the Extra or Position Set's code lengths that follow a nonzero
/// count; gives them in the front of an array, and how many there are.
#[verifier::loop_isolation(false)]
fn read_pt_entries(reader: &mut BitReader, count: usize, extra: bool) -> (r: Option<([u8; MAXNP], usize)>)
    requires
        old(reader).wf(),
        count < 32,
    ensures
        final(reader).wf(),
        final(reader).data() == old(reader).data(),
        match pt_entries(old(reader).data(), old(reader).pos(), count as nat, extra, Seq::empty()) {
            None => r is None,
            Some((e, p)) => r matches Some((a, n)) && n == e.len() && n <= MAXNP && a@.subrange(
                0,
                n as int,
            ) == e && final(reader).pos() == p,
        },
{
    let ghost data = reader.data();
    let ghost pos0 = reader.pos();
    let mut lens = [0u8; MAXNP];
    let mut idx: usize = 0;
    assert(lens@.subrange(0, 0) == Seq::<u8>::empty());
    while idx < count
        invariant
            reader.wf(),
            reader.data() == data,
            idx <= MAXNP,
            lens@.len() == MAXNP,
            pt_entries(data, pos0, count as nat, extra, Seq::empty()) == pt_entries(
                data,
                reader.pos(),
                count as nat,
                extra,
                lens@.subrange(0, idx as int),
            ),
        decreases 40 - idx,
    {
        let ghost acc = lens@.subrange(0, idx as int);
        let l = match read_code_len_exec(reader) {
            None => return None,
            Some(l) => l,
        };
        lens[idx] = l;
        idx = idx + 1;
        let ghost acc1 = acc.push(l);
        assert(lens@.subrange(0, idx as int) == acc1);
        if extra && idx == 3 {
            let z = match reader.pop_bits(2) {
                None => return None,
                Some(z) => z as usize,
            };
            proof {
                crate::bit_reader::lemma_bits_be_bound(data, reader.pos() - 2, 2);
                vstd::arithmetic::power2::lemma2_to64();
            }
            let mut k: usize = 0;
            while k < z
                invariant
                    idx == 3,
                    z < 4,
                    k <= z,
                    lens@.len() == MAXNP,
                    lens@.subrange(0, 3 + k) == acc1 + zeros(k as nat),
                decreases z - k,
            {
                let ghost before = lens@;
                lens[3 + k] = 0;
                proof {
                    assert(lens@.subrange(0, 3 + k + 1) =~= before.subrange(0, 3 + k).push(0u8));
                    lemma_append_zero(acc1, k as nat);
                }
                k = k + 1;
            }
            idx = 3 + z;
        }
    }
    Some((lens, idx))
}

/// Reads the Char&Length code lengths that follow a nonzero count, each
/// decoded with the Extra Set's table; gives them in the front of an
/// array, and how many there are.
#[verifier::loop_isolation(false)]
fn read_c_entries(
    reader: &mut BitReader,
    count: usize,
    table: &[u16],
    left: &[u16],
    right: &[u16],
    xlens: &[u8],
    xcodes: &[u32],
    xsingle: Option<u16>,
) -> (r: Option<([u8; NC], usize)>)
    requires
        old(reader).wf(),
        count < 512,
        NT <= xlens@.len(),
        NT <= xcodes@.len(),
        left@.len() == NODE_CAP,
        right@.len() == NODE_CAP,
        match xsingle {
            Some(c) => c < NT,
            None => {
                &&& table@.len() == pow2(PTABLE_BITS as nat)
                &&& tables_hold_code(table@, left@, right@, xlens@.subrange(0, NT as int), PTABLE_BITS as nat)
                &&& forall|s: int|
                    0 <= s < NT && xlens@[s] > 0 ==> xcodes@[s] == code16(xlens@.subrange(0, NT as int), s)
            },
        },
    ensures
        final(reader).wf(),
        final(reader).data() == old(reader).data(),
        match c_entries(
            old(reader).data(),
            old(reader).pos(),
            count as nat,
            table_code(xsingle, xlens@, NT as nat),
            Seq::empty(),
        ) {
            None => r is None,
            Some((e, p)) => r matches Some((a, n)) && n == e.len() && n <= NC && a@.subrange(
                0,
                n as int,
            ) == e && final(reader).pos() == p,
        },
{
    let ghost data = reader.data();
    let ghost pos0 = reader.pos();
    let ghost xcode = table_code(xsingle, xlens@, NT as nat);
    let mut lens = [0u8; NC];
    let mut idx: usize = 0;
    assert(lens@.subrange(0, 0) == Seq::<u8>::empty());
    while idx < count
        invariant
            reader.wf(),
            reader.data() == data,
            idx <= NC,
            lens@.len() == NC,
            c_entries(data, pos0, count as nat, xcode, Seq::empty()) == c_entries(
                data,
                reader.pos(),
                count as nat,
                xcode,
                lens@.subrange(0, idx as int),
            ),
        decreases NC + 1 - idx,
    {
        let ghost acc = lens@.subrange(0, idx as int);
        let ghost p0 = reader.pos();
        proof {
            lemma_decode_range(xcode, 8, data, p0, NT as nat);
        }
        let sym = match decode_symbol(reader, table, left, right, xlens, xcodes, NT, PTABLE_BITS, xsingle) {
            None => return None,
            Some(t) => t,
        };
        if sym <= 2 {
            let ghost pos1 = reader.pos();
            let run: usize = if sym == 0 {
                1
            } else if sym == 1 {
                match reader.pop_bits(4) {
                    None => return None,
                    Some(v) => {
                        proof {
                            crate::bit_reader::lemma_bits_be_bound(data, reader.pos() - 4, 4);
                            vstd::arithmetic::power2::lemma2_to64();
                        }
                        v as usize + 3
                    },
                }
            } else {
                match reader.pop_bits(9) {
                    None => return None,
                    Some(v) => {
                        proof {
                            crate::bit_reader::lemma_bits_be_bound(data, reader.pos() - 9, 9);
                            vstd::arithmetic::power2::lemma2_to64();
                        }
                        v as usize + 20
                    },
                }
            };
            assert(run <= 531);
            if idx + run > NC {
                return None;
            }
            let mut k: usize = 0;
            while k < run
                invariant
                    idx + run <= NC,
                    k <= run,
                    lens@.len() == NC,
                    lens@.subrange(0, idx + k) == acc + zeros(k as nat),
                decreases run - k,
            {
                let ghost before = lens@;
                lens[idx + k] = 0;
                proof {
                    assert(lens@.subrange(0, idx + k + 1) =~= before.subrange(0, idx + k).push(0u8));
                    lemma_append_zero(acc, k as nat);
                }
                k = k + 1;
            }
            idx = idx + run;
        } else {
            if idx >= NC {
                return None;
            }
            lens[idx] = (sym - 2) as u8;
            idx = idx + 1;
            assert(lens@.subrange(0, idx as int) == acc.push((sym - 2) as u8));
        }
    }
    Some((lens, idx))
}

/// State of one decompression: the bit cursor, the current block's code
/// tables, and how many of the block's instructions are left.
struct DecodeSession<'a> {
    reader: BitReader<'a>,
    remaining: usize,
    left: [u16; NODE_CAP],
    right: [u16; NODE_CAP],
    c_len: [u8; NC],
    c_codes: [u32; NC],
    c_table: [u16; 4096],
    c_single: Option<u16>,
    pt_len: [u8; MAXNP],
    pt_codes: [u32; MAXNP],
    pt_table: [u16; 256],
    pt_single: Option<u16>,
    p_bit: usize,
}

impl<'a> DecodeSession<'a> {
    spec fn ccode(&self) -> HuffCode {
        table_code(self.c_single, self.c_len@, NC as nat)
    }

    /// The Extra Set's or the Position Set's code, by its number of symbols.
    spec fn ptcode(&self, nsym: nat) -> HuffCode {
        table_code(self.pt_single, self.pt_len@, nsym)
    }

    /// The arrays have their sizes and the cursor is well formed.
    spec fn arrays_ok(&self) -> bool {
        &&& self.reader.wf()
        &&& self.left@.len() == NODE_CAP
        &&& self.right@.len() == NODE_CAP
        &&& self.c_len@.len() == NC
        &&& self.c_codes@.len() == NC
        &&& self.c_table@.len() == pow2(12)
        &&& self.pt_table@.len() == pow2(8)
        &&& self.pt_len@.len() == MAXNP
        &&& self.pt_codes@.len() == MAXNP
        &&& 1 <= self.p_bit <= 5
    }

    /// The Char&Length table is one that decodes `ccode()`.
    spec fn c_ok(&self) -> bool {
        match self.c_single {
            Some(c) => c < NC,
            None => {
                &&& tables_hold_code(
                    self.c_table@,
                    self.left@,
                    self.right@,
                    self.c_len@.subrange(0, NC as int),
                    CTABLE_BITS as nat,
                )
                &&& forall|s: int|
                    0 <= s < NC && self.c_len@[s] > 0 ==> self.c_codes@[s] == code16(
                        self.c_len@.subrange(0, NC as int),
                        s,
                    )
            },
        }
    }

    /// The Extra/Position table is one that decodes `ptcode(nsym)`.
    spec fn pt_ok(&self, nsym: nat) -> bool {
        &&& nsym <= MAXNP
        &&& match self.pt_single {
            Some(c) => c < nsym,
            None => {
                &&& tables_hold_code(
                    self.pt_table@,
                    self.left@,
                    self.right@,
                    self.pt_len@.subrange(0, nsym as int),
                    PTABLE_BITS as nat,
                )
                &&& forall|s: int|
                    0 <= s < nsym && self.pt_len@[s] > 0 ==> self.pt_codes@[s] == code16(
                        self.pt_len@.subrange(0, nsym as int),
                        s,
                    )
            },
        }
    }

    fn new(src: &'a [u8], p_bit: usize) -> (r: Self)
        requires
            1 <= p_bit <= 5,
        ensures
            r.arrays_ok(),
            r.c_ok(),
            r.pt_ok(MAXNP as nat),
            r.reader.data() == src@,
            r.reader.pos() == 0,
            r.remaining == 0,
            r.p_bit == p_bit,
            r.ccode() == HuffCode::Single(0),
            r.ptcode(MAXNP as nat) == HuffCode::Single(0),
    {
        proof {
            vstd::arithmetic::power2::lemma2_to64();
        }
        let r = DecodeSession {
            reader: BitReader::new(src),
            remaining: 0,
            left: [0u16; NODE_CAP],
            right: [0u16; NODE_CAP],
            c_len: [0u8; NC],
            c_codes: [0u32; NC],
            c_table: [0u16; 4096],
            c_single: Some(0),
            pt_len: [0u8; MAXNP],
            pt_codes: [0u32; MAXNP],
            pt_table: [0u16; 256],
            pt_single: Some(0),
            p_bit,
        };
        r
    }

    /// Reads the Extra Set's (`nsym` 19) or the Position Set's (`nsym` 31)
    /// code lengths and builds its table.
    #[verifier::loop_isolation(false)]
    fn read_pt_len(&mut self, nsym: usize, nbits: usize, extra: bool) -> (r: Result<(), DecompressError>)
        requires
            old(self).arrays_ok(),
            1 <= nbits <= 5,
            1 <= nsym <= MAXNP,
        ensures
            final(self).arrays_ok(),
            final(self).reader.data() == old(self).reader.data(),
            final(self).c_len == old(self).c_len,
            final(self).c_codes == old(self).c_codes,
            final(self).c_table == old(self).c_table,
            final(self).c_single == old(self).c_single,
            final(self).remaining == old(self).remaining,
            final(self).p_bit == old(self).p_bit,
            old(self).c_ok() ==> final(self).c_ok(),
            match read_pt_lens(
                old(self).reader.data(),
                old(self).reader.pos(),
                nsym as nat,
                nbits as nat,
                extra,
            ) {
                None => r == Err::<(), DecompressError>(DecompressError::MalformedSrcData),
                Some((code, p)) => r is Ok && final(self).reader.pos() == p && final(self).ptcode(
                    nsym as nat,
                ) == code && final(self).pt_ok(nsym as nat),
            },
    {
        let ghost data = self.reader.data();
        let count = match self.reader.pop_bits(nbits) {
            None => return Err(DecompressError::MalformedSrcData),
            Some(v) => v as usize,
        };
        proof {
            crate::bit_reader::lemma_bits_be_bound(data, self.reader.pos() - nbits, nbits as nat);
            vstd::arithmetic::power2::lemma2_to64();
            if nbits < 5 {
                vstd::arithmetic::power2::lemma_pow2_strictly_increases(nbits as nat, 5);
            }
        }
        if count == 0 {
            let c = match self.reader.pop_bits(nbits) {
                None => return Err(DecompressError::MalformedSrcData),
                Some(v) => v as usize,
            };
            if c >= nsym {
                return Err(DecompressError::MalformedSrcData);
            }
            self.pt_single = Some(c as u16);
            return Ok(());
        }
        let (mut lens, n) = match read_pt_entries(&mut self.reader, count, extra) {
            None => return Err(DecompressError::MalformedSrcData),
            Some(x) => x,
        };
        if n > nsym {
            return Err(DecompressError::MalformedSrcData);
        }
        let ghost e = lens@.subrange(0, n as int);
        let mut i: usize = n;
        while i < nsym
            invariant
                n <= i <= nsym <= MAXNP,
                lens@.len() == MAXNP,
                lens@.subrange(0, i as int) == e + zeros((i - n) as nat),
            decreases nsym - i,
        {
            let ghost before = lens@;
            lens[i] = 0;
            proof {
                assert(lens@.subrange(0, i + 1) =~= before.subrange(0, i as int).push(0u8));
                lemma_append_zero(e, (i - n) as nat);
            }
            i = i + 1;
        }
        self.pt_len = lens;
        self.pt_single = None;
        let ghost left0 = self.left@;
        let ghost right0 = self.right@;
        proof {
            vstd::arithmetic::power2::lemma2_to64();
        }
        let r = build_huffman_table(
            nsym,
            &self.pt_len,
            PTABLE_BITS,
            &mut self.pt_table,
            &mut self.left,
            &mut self.right,
            &mut self.pt_codes,
        );
        proof {
            if old(self).c_ok() && self.c_single is None {
                lemma_hold_frame(
                    self.c_table@,
                    left0,
                    right0,
                    self.left@,
                    self.right@,
                    self.c_len@.subrange(0, NC as int),
                    CTABLE_BITS as nat,
                );
            }
        }
        r
    }

    /// Reads the Char&Length Set's code lengths, decoding them with the
    /// Extra Set's table, and builds its table.
    #[verifier::loop_isolation(false)]
    fn read_c_len(&mut self) -> (r: Result<(), DecompressError>)
        requires
            old(self).arrays_ok(),
            old(self).pt_ok(NT as nat),
        ensures
            final(self).arrays_ok(),
            final(self).reader.data() == old(self).reader.data(),
            final(self).remaining == old(self).remaining,
            final(self).p_bit == old(self).p_bit,
            match read_c_lens(old(self).reader.data(), old(self).reader.pos(), old(self).ptcode(NT as nat)) {
                None => r == Err::<(), DecompressError>(DecompressError::MalformedSrcData),
                Some((code, p)) => r is Ok && final(self).reader.pos() == p && final(self).ccode() == code
                    && final(self).c_ok(),
            },
    {
        let ghost data = self.reader.data();
        let count = match self.reader.pop_bits(CBIT) {
            None => return Err(DecompressError::MalformedSrcData),
            Some(v) => v as usize,
        };
        proof {
            crate::bit_reader::lemma_bits_be_bound(data, self.reader.pos() - 9, 9);
            vstd::arithmetic::power2::lemma2_to64();
        }
        if count == 0 {
            let c = match self.reader.pop_bits(CBIT) {
                None => return Err(DecompressError::MalformedSrcData),
                Some(v) => v as usize,
            };
            if c >= NC {
                return Err(DecompressError::MalformedSrcData);
            }
            self.c_single = Some(c as u16);
            return Ok(());
        }
        let (mut lens, n) = match read_c_entries(
            &mut self.reader,
            count,
            &self.pt_table,
            &self.left,
            &self.right,
            &self.pt_len,
            &self.pt_codes,
            self.pt_single,
        ) {
            None => return Err(DecompressError::MalformedSrcData),
            Some(x) => x,
        };
        let ghost e = lens@.subrange(0, n as int);
        let mut i: usize = n;
        while i < NC
            invariant
                n <= i <= NC,
                lens@.len() == NC,
                lens@.subrange(0, i as int) == e + zeros((i - n) as nat),
            decreases NC - i,
        {
            let ghost before = lens@;
            lens[i] = 0;
            proof {
                assert(lens@.subrange(0, i + 1) =~= before.subrange(0, i as int).push(0u8));
                lemma_append_zero(e, (i - n) as nat);
            }
            i = i + 1;
        }
        assert(lens@.subrange(0, NC as int) == lens@);
        self.c_len = lens;
        self.c_single = None;
        proof {
            vstd::arithmetic::power2::lemma2_to64();
        }
        build_huffman_table(
            NC,
            &self.c_len,
            CTABLE_BITS,
            &mut self.c_table,
            &mut self.left,
            &mut self.right,
            &mut self.c_codes,
        )
    }

    /// Decodes a back reference's distance with the Position Set's table.
    fn decode_position(&mut self) -> (r: Result<usize, DecompressError>)
        requires
            old(self).arrays_ok(),
            old(self).pt_ok(MAXNP as nat),
        ensures
            final(self).arrays_ok(),
            final(self).reader.data() == old(self).reader.data(),
            final(self).c_len == old(self).c_len,
            final(self).c_codes == old(self).c_codes,
            final(self).c_single == old(self).c_single,
            final(self).pt_len == old(self).pt_len,
            final(self).pt_codes == old(self).pt_codes,
            final(self).pt_single == old(self).pt_single,
            final(self).c_table == old(self).c_table,
            final(self).pt_table == old(self).pt_table,
            final(self).left == old(self).left,
            final(self).right == old(self).right,
            final(self).remaining == old(self).remaining,
            final(self).p_bit == old(self).p_bit,
            match decode_position_spec(
                old(self).ptcode(MAXNP as nat),
                old(self).reader.data(),
                old(self).reader.pos(),
            ) {
                None => r == Err::<usize, DecompressError>(DecompressError::MalformedSrcData),
                Some((d, p)) => r == Ok::<usize, DecompressError>(d as usize) && final(self).reader.pos()
                    == p && d < 0x4000_0000,
            },
    {
        let ghost data = self.reader.data();
        proof {
            lemma_decode_range(self.ptcode(MAXNP as nat), 8, data, self.reader.pos(), MAXNP as nat);
        }
        let v = match decode_symbol(
            &mut self.reader,
            &self.pt_table,
            &self.left,
            &self.right,
            &self.pt_len,
            &self.pt_codes,
            MAXNP,
            PTABLE_BITS,
            self.pt_single,
        ) {
            None => return Err(DecompressError::MalformedSrcData),
            Some(v) => v,
        };
        if v <= 1 {
            return Ok(v);
        }
        let x = match self.reader.pop_bits(v - 1) {
            None => return Err(DecompressError::MalformedSrcData),
            Some(x) => x,
        };
        let high = pow2_u64(v - 1);
        proof {
            crate::bit_reader::lemma_bits_be_bound(data, self.reader.pos() - (v - 1), (v - 1) as nat);
            vstd::arithmetic::power2::lemma2_to64();
            if v - 1 < 29 {
                vstd::arithmetic::power2::lemma_pow2_strictly_increases((v - 1) as nat, 29);
            }
        }
        Ok((high + x as u64) as usize)
    }

    /// Decodes one instruction with the current block's tables.
    fn decode_code_symbol(&mut self) -> (r: Result<CodeSymbol, DecompressError>)
        requires
            old(self).arrays_ok(),
            old(self).c_ok(),
            old(self).pt_ok(MAXNP as nat),
        ensures
            final(self).arrays_ok(),
            final(self).c_ok(),
            final(self).pt_ok(MAXNP as nat),
            final(self).reader.data() == old(self).reader.data(),
            final(self).ccode() == old(self).ccode(),
            final(self).ptcode(MAXNP as nat) == old(self).ptcode(MAXNP as nat),
            final(self).remaining == old(self).remaining,
            final(self).p_bit == old(self).p_bit,
            match decode_code_symbol(
                old(self).ccode(),
                old(self).ptcode(MAXNP as nat),
                old(self).reader.data(),
                old(self).reader.pos(),
            ) {
                None => r == Err::<CodeSymbol, DecompressError>(DecompressError::MalformedSrcData),
                Some((sym, p)) => r == Ok::<CodeSymbol, DecompressError>(sym) && final(self).reader.pos()
                    == p,
            },
    {
        let ghost data = self.reader.data();
        proof {
            lemma_decode_range(self.ccode(), 12, data, self.reader.pos(), NC as nat);
        }
        let v = match decode_symbol(
            &mut self.reader,
            &self.c_table,
            &self.left,
            &self.right,
            &self.c_len,
            &self.c_codes,
            NC,
            CTABLE_BITS,
            self.c_single,
        ) {
            None => return Err(DecompressError::MalformedSrcData),
            Some(v) => v,
        };
        if v < 256 {
            return Ok(CodeSymbol::OrigChar(v as u8));
        }
        let d = match self.decode_position() {
            Err(e) => return Err(e),
            Ok(d) => d,
        };
        Ok(CodeSymbol::StrPointer(d, v - 253))
    }

    /// Reads a block's header: its instruction count and its three tables.
    fn read_block_header(&mut self) -> (r: Result<(), DecompressError>)
        requires
            old(self).arrays_ok(),
        ensures
            final(self).arrays_ok(),
            final(self).reader.data() == old(self).reader.data(),
            final(self).p_bit == old(self).p_bit,
            match read_block_header(old(self).reader.data(), old(self).reader.pos(), old(self).p_bit as nat) {
                None => r == Err::<(), DecompressError>(DecompressError::MalformedSrcData),
                Some((count, c, p, q)) => {
                    &&& r is Ok
                    &&& final(self).reader.pos() == q
                    &&& final(self).remaining == count
                    &&& final(self).ccode() == c
                    &&& final(self).ptcode(MAXNP as nat) == p
                    &&& final(self).c_ok()
                    &&& final(self).pt_ok(MAXNP as nat)
                },
            },
    {
        let count = match self.reader.pop_bits(16) {
            None => return Err(DecompressError::MalformedSrcData),
            Some(v) => v as usize,
        };
        match self.read_pt_len(NT, TBIT, true) {
            Err(e) => return Err(e),
            Ok(()) => {},
        }
        match self.read_c_len() {
            Err(e) => return Err(e),
            Ok(()) => {},
        }
        let p_bit = self.p_bit;
        match self.read_pt_len(MAXNP, p_bit, false) {
            Err(e) => return Err(e),
            Ok(()) => {},
        }
        self.remaining = count;
        Ok(())
    }
}

/// Appends a back reference's bytes to the first `out_len` bytes of `dst`,
/// one at a time so that the copy may overlap what it writes; stops when
/// `dst` is full. Gives the new output length.
fn copy_match(dst: &mut [u8], out_len: usize, distance: usize, length: usize) -> (r: usize)
    requires
        distance < out_len <= old(dst)@.len(),
    ensures
        final(dst)@.len() == old(dst)@.len(),
        out_len <= r <= final(dst)@.len(),
        final(dst)@.subrange(0, r as int) == copy_back(
            old(dst)@.subrange(0, out_len as int),
            out_len - distance - 1,
            length as nat,
            old(dst)@.len() as nat,
        ),
{
    let n = dst.len();
    let ghost out = dst@.subrange(0, out_len as int);
    let ghost start = out_len - distance - 1;
    let mut len = out_len;
    let mut from = out_len - distance - 1;
    let mut k: usize = 0;
    while k < length && len < n
        invariant
            k <= length,
            len == out_len + k,
            from == start + k,
            from < len <= n,
            n == dst@.len(),
            dst@.len() == old(dst)@.len(),
            copy_back(out, start as int, length as nat, n as nat) == copy_back(
                dst@.subrange(0, len as int),
                from as int,
                (length - k) as nat,
                n as nat,
            ),
        decreases length - k,
    {
        let ghost before = dst@.subrange(0, len as int);
        let v = dst[from];
        dst[len] = v;
        assert(dst@.subrange(0, len + 1) == before.push(before[from as int]));
        len = len + 1;
        from = from + 1;
        k = k + 1;
    }
    len
}

/// One step of the decoding loop: reads a block header when the block is
/// used up, else decodes one instruction and carries it out on `dst`,
/// whose first `out_len` bytes are the output so far. Gives the new output
/// length.
fn decode_step(session: &mut DecodeSession, dst: &mut [u8], out_len: usize) -> (r: Result<usize, DecompressError>)
    requires
        old(session).arrays_ok(),
        old(session).c_ok(),
        old(session).pt_ok(MAXNP as nat),
        out_len < old(dst)@.len(),
    ensures
        final(session).arrays_ok(),
        r is Ok ==> final(session).c_ok() && final(session).pt_ok(MAXNP as nat),
        final(session).reader.data() == old(session).reader.data(),
        final(session).p_bit == old(session).p_bit,
        final(dst)@.len() == old(dst)@.len(),
        ({
            let before = run(
                old(session).reader.data(),
                old(dst)@.len() as nat,
                old(session).p_bit as nat,
                old(session).reader.pos(),
                old(session).remaining as nat,
                old(session).ccode(),
                old(session).ptcode(MAXNP as nat),
                old(dst)@.subrange(0, out_len as int),
            );
            match r {
                Ok(len) => {
                    &&& out_len <= len <= old(dst)@.len()
                    &&& before == run(
                        final(session).reader.data(),
                        old(dst)@.len() as nat,
                        final(session).p_bit as nat,
                        final(session).reader.pos(),
                        final(session).remaining as nat,
                        final(session).ccode(),
                        final(session).ptcode(MAXNP as nat),
                        final(dst)@.subrange(0, len as int),
                    )
                    &&& (len > out_len || final(session).reader.pos() > old(session).reader.pos())
                },
                Err(e) => e == DecompressError::MalformedSrcData && before is None,
            }
        }),
{
    let ghost data = session.reader.data();
    let ghost out = dst@.subrange(0, out_len as int);
    let ghost n = dst@.len() as nat;
    proof {
        session.reader.lemma_pos_bound();
        lemma_run_unfold(
            data,
            n,
            session.p_bit as nat,
            session.reader.pos(),
            session.remaining as nat,
            session.ccode(),
            session.ptcode(MAXNP as nat),
            out,
        );
        lemma_symbol_length(session.ccode(), session.ptcode(MAXNP as nat), data, session.reader.pos());
    }
    if session.remaining == 0 {
        proof {
            lemma_header_advances(data, session.reader.pos(), session.p_bit as nat);
        }
        match session.read_block_header() {
            Err(e) => return Err(e),
            Ok(()) => {},
        }
        return Ok(out_len);
    }
    let sym = match session.decode_code_symbol() {
        Err(e) => return Err(e),
        Ok(sym) => sym,
    };
    session.remaining = session.remaining - 1;
    proof {
        lemma_apply_grows(out, sym, n);
    }
    match sym {
        CodeSymbol::OrigChar(b) => {
            dst[out_len] = b;
            assert(dst@.subrange(0, out_len + 1) == out.push(b));
            Ok(out_len + 1)
        },
        CodeSymbol::StrPointer(distance, length) => {
            if distance >= out_len {
                return Err(DecompressError::MalformedSrcData);
            }
            Ok(copy_match(dst, out_len, distance, length))
        },
    }
}

/// Decompresses `src` into `dst`, which must be exactly as long as the
/// original data, with the variant `algo` of the format.
///
/// `src` starts with an 8-byte header: the compressed size and the original
/// size, both little-endian 32-bit. `InvalidSrcSize` when `src` is shorter
/// than the header or than the compressed size; success without writing
/// when the original size is 0; `InvalidDstSize` when it is not `dst`'s
/// length; otherwise the blocks after the header are decoded until `dst` is
/// full, and `MalformedSrcData` when they cannot be. On success `dst` holds
/// exactly `decompress_spec`'s output; on failure its contents are
/// unspecified, but it is never written past its end.
pub fn decompress_into_with_algo(src: &[u8], dst: &mut [u8], algo: DecompressionAlgorithm) -> (r: Result<
    (),
    DecompressError,
>)
    ensures
        final(dst)@.len() == old(dst)@.len(),
        r == Err::<(), DecompressError>(DecompressError::InvalidSrcSize) || r == Err::<(), DecompressError>(
            DecompressError::InvalidDstSize,
        ) ==> final(dst)@ == old(dst)@,
        match decompress_spec(src@, old(dst)@, algo) {
            Ok(out) => r is Ok && final(dst)@ == out,
            Err(e) => r == Err::<(), DecompressError>(e),
        },
{
    if src.len() < 8 {
        return Err(DecompressError::InvalidSrcSize);
    }
    let compressed_size = src[0] as u64 + src[1] as u64 * 256 + src[2] as u64 * 65536 + src[3] as u64
        * 16777216;
    if compressed_size > src.len() as u64 {
        return Err(DecompressError::InvalidSrcSize);
    }
    let orig_size = src[4] as u64 + src[5] as u64 * 256 + src[6] as u64 * 65536 + src[7] as u64
        * 16777216;
    if orig_size == 0 {
        return Ok(());
    }
    if orig_size != dst.len() as u64 {
        return Err(DecompressError::InvalidDstSize);
    }
    let n = dst.len();
    let p_bit: usize = match algo {
        DecompressionAlgorithm::UefiDecompress => 4,
        DecompressionAlgorithm::TianoDecompress => 5,
    };
    let body = &src[8..src.len()];
    let ghost data = src@.subrange(8, src@.len() as int);
    assert(body@ == data);
    let mut session = DecodeSession::new(body, p_bit);
    let mut out_len: usize = 0;
    let ghost result = run(data, n as nat, p_bit as nat, 0, 0, HuffCode::Single(0), HuffCode::Single(0), Seq::empty());
    assert(dst@.subrange(0, 0) == Seq::<u8>::empty());
    while out_len < n
        invariant
            session.arrays_ok(),
            session.c_ok(),
            session.pt_ok(MAXNP as nat),
            session.reader.data() == data,
            session.p_bit == p_bit,
            p_bit == p_bit_of(algo),
            out_len <= n,
            n == dst@.len(),
            dst@.len() == old(dst)@.len(),
            decompress_spec(src@, old(dst)@, algo) == match result {
                Some(out) => Ok(out),
                None => Err(DecompressError::MalformedSrcData),
            },
            result == run(
                data,
                n as nat,
                p_bit as nat,
                session.reader.pos(),
                session.remaining as nat,
                session.ccode(),
                session.ptcode(MAXNP as nat),
                dst@.subrange(0, out_len as int),
            ),
        decreases n - out_len, total_bits(data) - session.reader.pos(),
    {
        proof {
            session.reader.lemma_pos_bound();
        }
        match decode_step(&mut session, dst, out_len) {
            Err(e) => return Err(e),
            Ok(len) => out_len = len,
        }
        proof {
            session.reader.lemma_pos_bound();
        }
    }
    assert(dst@.subrange(0, n as int) == dst@);
    proof {
        lemma_run_done(
            data,
            n as nat,
            p_bit as nat,
            session.reader.pos(),
            session.remaining as nat,
            session.ccode(),
            session.ptcode(MAXNP as nat),
            dst@,
        );
    }
    Ok(())
}

} // verus!
