//! Canonical Huffman codes: what a code-length array means, and the decode
//! tables built from it (a fixed lookup table indexed by the leading bits,
//! and a binary trie for the codes longer than that table).
use crate::bit_reader::{
    bit_at, bits_be, lemma_bits_be_bound, lemma_bits_be_prefix, lemma_bits_be_split, total_bits, BitReader,
};
use crate::uefi_decompress::DecompressError;
use vstd::arithmetic::power2::{
    lemma2_to64, lemma_pow2_adds, lemma_pow2_pos, lemma_pow2_strictly_increases, pow2,
};
use vstd::bits::lemma_u64_shl_is_mul;
use vstd::prelude::*;

verus! {

/// Capacity of the trie node arrays: the largest alphabet's 510 leaves and
/// its at most 509 internal nodes.
pub const NODE_CAP: usize = 1019;

/// Number of symbols below `k` whose code length is `len`.
pub open spec fn count_below(lens: Seq<u8>, len: int, k: int) -> nat
    decreases k,
{
    if k <= 0 {
        0
    } else {
        count_below(lens, len, k - 1) + if lens[k - 1] == len {
            1nat
        } else {
            0nat
        }
    }
}

/// Share of the 16-bit code space taken by all codes shorter than `len`.
pub open spec fn kraft_below(lens: Seq<u8>, len: int) -> nat
    decreases len,
{
    if len <= 1 {
        0
    } else {
        kraft_below(lens, len - 1) + count_below(lens, len - 1, lens.len() as int) * pow2(
            (16 - (len - 1)) as nat,
        )
    }
}

/// The canonical code of symbol `s`, left-aligned in 16 bits: codes are
/// handed out in order of length, then of symbol.
pub open spec fn code16(lens: Seq<u8>, s: int) -> nat {
    kraft_below(lens, lens[s] as int) + count_below(lens, lens[s] as int, s) * pow2(
        (16 - lens[s]) as nat,
    )
}

/// A usable length array: no length above 16, and the codes fill the code
/// space exactly (neither over- nor under-subscribed).
pub open spec fn valid_lengths(lens: Seq<u8>) -> bool {
    &&& forall|i: int| 0 <= i < lens.len() ==> lens[i] <= 16
    &&& kraft_below(lens, 17) == pow2(16)
}

/// Symbol `t`'s code is the next `lens[t]` bits of `s` at bit `pos`.
pub open spec fn code_matches(lens: Seq<u8>, t: int, s: Seq<u8>, pos: int) -> bool {
    &&& 0 <= t < lens.len()
    &&& 0 < lens[t] <= 16
    &&& pos + lens[t] <= total_bits(s)
    &&& bits_be(s, pos, lens[t] as nat) * pow2((16 - lens[t]) as nat) == code16(lens, t)
}

/// What a code table gives for the bits of `s` at `pos`.
pub enum HuffCode {
    /// Every lookup yields this one symbol and consumes no bits.
    Single(nat),
    /// The canonical code of this length array.
    Lengths(Seq<u8>),
}

/// Decoding one symbol at bit `pos` with a table whose fixed part is
/// indexed by `tb` bits: those `tb` bits must be present, then the symbol is
/// the one whose code the next bits spell. Gives the symbol and the position
/// after its code.
pub open spec fn decode_spec(code: HuffCode, tb: nat, s: Seq<u8>, pos: int) -> Option<(nat, int)> {
    if pos + tb > total_bits(s) {
        None
    } else {
        match code {
            HuffCode::Single(c) => Some((c, pos)),
            HuffCode::Lengths(lens) => {
                if exists|t: int| code_matches(lens, t, s, pos) {
                    let t = choose|t: int| code_matches(lens, t, s, pos);
                    Some((t as nat, pos + lens[t]))
                } else {
                    None
                }
            },
        }
    }
}

proof fn lemma_count_below_le(lens: Seq<u8>, len: int, k: int)
    requires
        0 <= k <= lens.len(),
    ensures
        count_below(lens, len, k) <= k,
    decreases k,
{
    if k > 0 {
        lemma_count_below_le(lens, len, k - 1);
    }
}

/// Counting up to a later index counts at least one more symbol of the
/// length of `s`.
proof fn lemma_count_below_step(lens: Seq<u8>, s: int, k: int)
    requires
        0 <= s < k <= lens.len(),
    ensures
        count_below(lens, lens[s] as int, k) >= count_below(lens, lens[s] as int, s) + 1,
    decreases k,
{
    if k > s + 1 {
        lemma_count_below_step(lens, s, k - 1);
    }
}

proof fn lemma_kraft_monotone(lens: Seq<u8>, a: int, b: int)
    requires
        a <= b,
    ensures
        kraft_below(lens, a) <= kraft_below(lens, b),
    decreases b - a,
{
    if a < b {
        lemma_kraft_monotone(lens, a, b - 1);
    }
}

/// Codes come in order: a symbol that is shorter, or equally long and
/// lower, has its whole range of the code space before the other's code.
pub proof fn lemma_code_order(lens: Seq<u8>, s: int, t: int)
    requires
        0 <= s < lens.len(),
        0 <= t < lens.len(),
        0 < lens[s] <= lens[t] <= 16,
        lens[s] < lens[t] || s < t,
    ensures
        code16(lens, s) + pow2((16 - lens[s]) as nat) <= code16(lens, t),
{
    let ls = lens[s] as int;
    let lt = lens[t] as int;
    let ps = pow2((16 - ls) as nat);
    let n = lens.len() as int;
    let cs = count_below(lens, ls, s);
    if ls == lt {
        lemma_count_below_step(lens, s, t);
        let ct = count_below(lens, lt, t);
        assert(ct * ps >= (cs + 1) * ps) by (nonlinear_arith)
            requires ct >= cs + 1, ps >= 0;
        assert((cs + 1) * ps == cs * ps + ps) by (nonlinear_arith);
    } else {
        lemma_count_below_step(lens, s, n);
        let cn = count_below(lens, ls, n);
        assert(kraft_below(lens, ls + 1) == kraft_below(lens, ls) + cn * ps);
        assert(cn * ps >= (cs + 1) * ps) by (nonlinear_arith)
            requires cn >= cs + 1, ps >= 0;
        assert((cs + 1) * ps == cs * ps + ps) by (nonlinear_arith);
        lemma_kraft_monotone(lens, ls + 1, lt);
    }
}

/// Canonical codes are prefix-free: at most one symbol's code can start at
/// a given bit.
pub proof fn lemma_code_unique(lens: Seq<u8>, a: int, b: int, s: Seq<u8>, pos: int)
    requires
        code_matches(lens, a, s, pos),
        code_matches(lens, b, s, pos),
    ensures
        a == b,
{
    if a != b {
        if lens[a] < lens[b] || (lens[a] == lens[b] && a < b) {
            lemma_code_prefix_clash(lens, a, b, s, pos);
            lemma_code_order(lens, a, b);
        } else {
            lemma_code_prefix_clash(lens, b, a, s, pos);
            lemma_code_order(lens, b, a);
        }
    }
}

/// When two codes both match at `pos`, the longer one lies inside the
/// range of the code space that the shorter one covers.
proof fn lemma_code_prefix_clash(lens: Seq<u8>, a: int, b: int, s: Seq<u8>, pos: int)
    requires
        code_matches(lens, a, s, pos),
        code_matches(lens, b, s, pos),
        lens[a] <= lens[b],
    ensures
        code16(lens, b) < code16(lens, a) + pow2((16 - lens[a]) as nat),
{
    let la = lens[a] as nat;
    let lb = lens[b] as nat;
    let d = (lb - la) as nat;
    let bb = bits_be(s, pos, lb);
    let ba = bits_be(s, pos, la);
    lemma_bits_be_prefix(s, pos, la, d);
    assert(la + d == lb);
    lemma_pow2_pos(d);
    let pd = pow2(d);
    let r = bb % pd;
    assert(bb == ba * pd + r) by (nonlinear_arith)
        requires pd > 0, ba == bb / pd, r == bb % pd;
    assert(0 <= r < pd) by (nonlinear_arith)
        requires pd > 0, r == bb % pd;
    let pa = pow2((16 - la) as nat);
    let pb = pow2((16 - lb) as nat);
    lemma_pow2_adds(d, (16 - lb) as nat);
    assert(pd * pb == pa);
    assert(bb * pb == ba * pa + r * pb) by (nonlinear_arith)
        requires bb == ba * pd + r, pd * pb == pa;
    lemma_pow2_pos((16 - lb) as nat);
    assert(r * pb < pa) by (nonlinear_arith)
        requires 0 <= r < pd, pd * pb == pa, pb > 0;
}

/// A length array that passes validation decodes each symbol's code to
/// that symbol, consuming exactly the code's length.
pub proof fn lemma_codeword_decodes(lens: Seq<u8>, tb: nat, t: int, s: Seq<u8>, pos: int)
    requires
        code_matches(lens, t, s, pos),
        pos + tb <= total_bits(s),
    ensures
        decode_spec(HuffCode::Lengths(lens), tb, s, pos) == Some((t as nat, pos + lens[t])),
{
    assert(exists|u: int| code_matches(lens, u, s, pos));
    let u = choose|u: int| code_matches(lens, u, s, pos);
    lemma_code_unique(lens, t, u, s, pos);
    let code = HuffCode::Lengths(lens);
    assert(!(pos + tb > total_bits(s)));
    assert(code matches HuffCode::Lengths(l) && l == lens);
    assert(decode_spec(code, tb, s, pos) == Some((u as nat, pos + lens[u])));
}


/// A symbol's code range ends inside the code space that the whole array
/// takes.
proof fn lemma_code_fits(lens: Seq<u8>, s: int)
    requires
        0 <= s < lens.len(),
        0 < lens[s] <= 16,
    ensures
        code16(lens, s) + pow2((16 - lens[s]) as nat) <= kraft_below(lens, 17),
{
    let ls = lens[s] as int;
    let ps = pow2((16 - ls) as nat);
    let n = lens.len() as int;
    let cs = count_below(lens, ls, s);
    lemma_count_below_step(lens, s, n);
    let cn = count_below(lens, ls, n);
    assert(kraft_below(lens, ls + 1) == kraft_below(lens, ls) + cn * ps);
    assert(cn * ps >= (cs + 1) * ps) by (nonlinear_arith)
        requires cn >= cs + 1, ps >= 0;
    assert((cs + 1) * ps == cs * ps + ps) by (nonlinear_arith);
    lemma_kraft_monotone(lens, ls + 1, 17);
}

/// Codes no longer than `len - 1` bits take whole blocks of
/// `2^(17 - len)` in the 16-bit code space.
proof fn lemma_kraft_aligned(lens: Seq<u8>, len: int)
    requires
        1 <= len <= 17,
    ensures
        kraft_below(lens, len) % pow2((17 - len) as nat) == 0,
    decreases len,
{
    lemma_pow2_pos((17 - len) as nat);
    let p = pow2((17 - len) as nat);
    if len == 1 {
        assert(kraft_below(lens, len) == 0);
        vstd::arithmetic::div_mod::lemma_mod_multiples_basic(0, p as int);
    } else {
        lemma_kraft_aligned(lens, len - 1);
        let a = kraft_below(lens, len - 1);
        let c = count_below(lens, len - 1, lens.len() as int);
        assert(kraft_below(lens, len) == a + c * p);
        vstd::arithmetic::power2::lemma_pow2_unfold((18 - len) as nat);
        assert(pow2((18 - len) as nat) == 2 * p);
        let k = a / (2 * p);
        assert(a == k * (2 * p)) by (nonlinear_arith)
            requires a % (2 * p) == 0, p > 0, k == a / (2 * p);
        assert(a + c * p == (2 * k + c) * p) by (nonlinear_arith)
            requires a == k * (2 * p);
        vstd::arithmetic::div_mod::lemma_mod_multiples_basic((2 * k + c) as int, p as int);
    }
}

/// A code's 16-bit value is a multiple of the block it takes.
proof fn lemma_code_aligned(lens: Seq<u8>, t: int)
    requires
        0 <= t < lens.len(),
        0 < lens[t] <= 16,
    ensures
        code16(lens, t) % pow2((16 - lens[t]) as nat) == 0,
{
    let l = lens[t] as int;
    lemma_kraft_aligned(lens, l);
    let p = pow2((16 - l) as nat);
    lemma_pow2_pos((16 - l) as nat);
    vstd::arithmetic::power2::lemma_pow2_unfold((17 - l) as nat);
    let a = kraft_below(lens, l);
    let k = a / (2 * p);
    assert(a == k * (2 * p)) by (nonlinear_arith)
        requires a % (2 * p) == 0, p > 0, k == a / (2 * p);
    let cb = count_below(lens, l, t);
    assert(a + cb * p == (2 * k + cb) * p) by (nonlinear_arith)
        requires a == k * (2 * p);
    vstd::arithmetic::div_mod::lemma_mod_multiples_basic((2 * k + cb) as int, p as int);
}

/// Fixed-table index `i` (of `tb` bits) starts inside the range of the
/// code space that symbol `t`'s code covers.
pub open spec fn in_code_range(lens: Seq<u8>, tb: nat, t: int, i: int) -> bool {
    code16(lens, t) <= i * pow2((16 - tb) as nat) < code16(lens, t) + pow2((16 - lens[t]) as nat)
}

/// The indices in a code's range are a run of `2^(tb - len)` starting at
/// the code's leading `tb` bits.
proof fn lemma_code_range(lens: Seq<u8>, tb: nat, t: int, i: int)
    requires
        0 <= t < lens.len(),
        0 < lens[t] <= tb <= 16,
    ensures
        in_code_range(lens, tb, t, i) <==> (code16(lens, t) / pow2((16 - tb) as nat) <= i
            < code16(lens, t) / pow2((16 - tb) as nat) + pow2((tb - lens[t]) as nat)),
{
    let l = lens[t] as nat;
    let d = pow2((16 - tb) as nat);
    let w = pow2((tb - l) as nat);
    let c = code16(lens, t);
    lemma_code_aligned(lens, t);
    lemma_pow2_adds((tb - l) as nat, (16 - tb) as nat);
    lemma_pow2_pos((16 - tb) as nat);
    lemma_pow2_pos((tb - l) as nat);
    assert(pow2((16 - l) as nat) == w * d);
    assert(w * d > 0) by (nonlinear_arith)
        requires w > 0, d > 0;
    let q = c / (w * d);
    assert(c == q * w * d) by (nonlinear_arith)
        requires c % (w * d) == 0, w * d > 0, q == c / (w * d);
    assert(c / d == q * w) by (nonlinear_arith)
        requires c == q * w * d, d > 0;
    assert((q * w <= i < q * w + w) <==> (q * w * d <= i * d < q * w * d + w * d)) by (nonlinear_arith)
        requires d > 0;
}

/// The fixed-table entry at the leading bits of a code longer than the
/// table's index lies past every shorter code's range.
proof fn lemma_root_past_short_codes(lens: Seq<u8>, tb: nat, t: int, s: int)
    requires
        0 <= t < lens.len(),
        0 <= s < lens.len(),
        0 < lens[t] <= tb < lens[s] <= 16,
    ensures
        !in_code_range(lens, tb, t, (code16(lens, s) / pow2((16 - tb) as nat)) as int),
{
    let l = lens[t] as nat;
    let d = pow2((16 - tb) as nat);
    let w = pow2((tb - l) as nat);
    let c = code16(lens, t);
    let cs = code16(lens, s);
    lemma_code_order(lens, t, s);
    lemma_code_aligned(lens, t);
    lemma_pow2_adds((tb - l) as nat, (16 - tb) as nat);
    lemma_pow2_pos((16 - tb) as nat);
    lemma_pow2_pos((tb - l) as nat);
    assert(w * d > 0) by (nonlinear_arith)
        requires w > 0, d > 0;
    let q = c / (w * d);
    assert(c == q * w * d) by (nonlinear_arith)
        requires c % (w * d) == 0, w * d > 0, q == c / (w * d);
    let e = (q + 1) * w;
    assert(c + w * d == e * d) by (nonlinear_arith)
        requires c == q * w * d, e == (q + 1) * w;
    let root = cs / d;
    assert(pow2((16 - l) as nat) == w * d);
    assert(e * d <= cs);
    vstd::arithmetic::div_mod::lemma_div_is_ordered((e * d) as int, cs as int, d as int);
    vstd::arithmetic::div_mod::lemma_div_multiples_vanish(e as int, d as int);
    assert((e * d) / d == e) by (nonlinear_arith)
        requires (d * e) / d == e;
    assert(root >= e);
    assert(root * d >= e * d) by (nonlinear_arith)
        requires root >= e, d > 0;
}

/// A valid code's range of fixed-table indices lies inside the table.
proof fn lemma_code_range_fits(lens: Seq<u8>, tb: nat, t: int)
    requires
        0 <= t < lens.len(),
        0 < lens[t] <= tb <= 16,
        kraft_below(lens, 17) == pow2(16),
    ensures
        code16(lens, t) / pow2((16 - tb) as nat) + pow2((tb - lens[t]) as nat) <= pow2(tb),
{
    let l = lens[t] as nat;
    let d = pow2((16 - tb) as nat);
    let w = pow2((tb - l) as nat);
    let c = code16(lens, t);
    lemma_code_fits(lens, t);
    lemma_code_aligned(lens, t);
    lemma_pow2_adds((tb - l) as nat, (16 - tb) as nat);
    lemma_pow2_adds(tb, (16 - tb) as nat);
    lemma_pow2_pos((16 - tb) as nat);
    lemma_pow2_pos((tb - l) as nat);
    assert(w * d > 0) by (nonlinear_arith)
        requires w > 0, d > 0;
    let q = c / (w * d);
    assert(c == q * w * d) by (nonlinear_arith)
        requires c % (w * d) == 0, w * d > 0, q == c / (w * d);
    assert(c / d == q * w) by (nonlinear_arith)
        requires c == q * w * d, d > 0;
    assert(q * w + w <= pow2(tb)) by (nonlinear_arith)
        requires c == q * w * d, c + w * d <= pow2(tb) * d, d > 0;
}

/// Distinct codes cover disjoint ranges of fixed-table indices.
proof fn lemma_code_ranges_disjoint(lens: Seq<u8>, tb: nat, s: int, t: int, i: int)
    requires
        0 <= s < lens.len(),
        0 <= t < lens.len(),
        s != t,
        0 < lens[s] <= 16,
        0 < lens[t] <= 16,
        in_code_range(lens, tb, s, i),
    ensures
        !in_code_range(lens, tb, t, i),
{
    if lens[s] < lens[t] || (lens[s] == lens[t] && s < t) {
        lemma_code_order(lens, s, t);
    } else {
        lemma_code_order(lens, t, s);
    }
}

/// The first `m` bits of symbol `t`'s code.
pub open spec fn prefix_of(lens: Seq<u8>, t: int, m: int) -> int {
    (code16(lens, t) / pow2((16 - m) as nat)) as int
}

/// What the trie slot of the `m`-bit prefix `v` holds: fixed-table entry
/// `v` when `m` is `tb`, else the left or right child (by `v`'s last bit)
/// of the node that `nodes` records for `v` without that bit.
pub open spec fn slot(
    table: Seq<u16>,
    left: Seq<u16>,
    right: Seq<u16>,
    nodes: Map<(int, int), int>,
    tb: int,
    m: int,
    v: int,
) -> int {
    if m == tb {
        table[v] as int
    } else if v % 2 == 0 {
        left[nodes[(m - 1, v / 2)]] as int
    } else {
        right[nodes[(m - 1, v / 2)]] as int
    }
}

/// Whether the slot of prefix `v` (of `m` bits) exists: a fixed-table
/// entry past the short codes (from `lo` on), or a child of a recorded node.
spec fn slot_exists(table_len: int, nodes: Map<(int, int), int>, tb: int, lo: int, m: int, v: int) -> bool {
    ||| (m == tb && lo <= v < table_len)
    ||| (tb < m <= 16 && nodes.contains_key((m - 1, v / 2)))
}

/// `nodes` records trie nodes: each recorded prefix's node sits in that
/// prefix's slot, under the node of its parent prefix.
pub open spec fn nodes_placed(
    table: Seq<u16>,
    left: Seq<u16>,
    right: Seq<u16>,
    nodes: Map<(int, int), int>,
    tb: int,
    nsym: int,
) -> bool {
    forall|p: (int, int)|
        #[trigger] nodes.contains_key(p) ==> {
            &&& tb <= p.0 < 16
            &&& nsym <= nodes[p] < 2 * nsym - 1
            &&& (p.0 == tb ==> 0 <= p.1 < table.len())
            &&& (p.0 > tb ==> nodes.contains_key((p.0 - 1, p.1 / 2)))
            &&& slot(table, left, right, nodes, tb, p.0, p.1) == nodes[p]
        }
}

/// Symbol `t`'s code is in the trie: the slots of its prefixes from `tb`
/// bits on hold recorded nodes, and the slot of the whole code holds `t`.
pub open spec fn code_in_trie(
    table: Seq<u16>,
    left: Seq<u16>,
    right: Seq<u16>,
    nodes: Map<(int, int), int>,
    lens: Seq<u8>,
    tb: int,
    t: int,
) -> bool {
    &&& forall|m: int| tb <= m < lens[t] ==> #[trigger] nodes.contains_key((m, prefix_of(lens, t, m)))
    &&& slot(table, left, right, nodes, tb, lens[t] as int, prefix_of(lens, t, lens[t] as int)) == t
}

/// The fixed table and the trie hold the canonical code of `lens`: every
/// entry in a short code's range holds its symbol, and every longer code
/// leads through the trie to its symbol (`trie_of`).
pub open spec fn tables_hold_code(table: Seq<u16>, left: Seq<u16>, right: Seq<u16>, lens: Seq<u8>, tb: nat) -> bool {
    &&& forall|t: int, i: int|
        0 <= t < lens.len() && 0 < lens[t] <= tb && 0 <= i < table.len() && #[trigger] in_code_range(
            lens,
            tb,
            t,
            i,
        ) ==> table[i] == t
    &&& exists|nodes: Map<(int, int), int>| trie_of(table, left, right, nodes, lens, tb as int)
}

/// `nodes` records, by prefix, the trie of the codes of `lens` longer than
/// `tb` bits:
/// - each recorded node sits in its prefix's slot, and every long code
///   leads along its bits to its symbol (`nodes_placed`, `code_in_trie`);
/// - every recorded prefix is a proper prefix of some code, so a node lies
///   less deep than the longest code, and a walk from the fixed table ends
///   at a leaf within (longest length - `tb`) steps;
/// - every fixed-table entry and every child of a node is a symbol or a
///   recorded node;
/// - node ids are `nsym`, `nsym + 1`, ... in the order they were handed
///   out, one per recorded prefix, all below `2 * nsym - 1`.
pub open spec fn trie_of(
    table: Seq<u16>,
    left: Seq<u16>,
    right: Seq<u16>,
    nodes: Map<(int, int), int>,
    lens: Seq<u8>,
    tb: int,
) -> bool {
    let nsym = lens.len() as int;
    &&& nodes_placed(table, left, right, nodes, tb, nsym)
    &&& forall|t: int| 0 <= t < nsym && lens[t] > tb ==> #[trigger] code_in_trie(table, left, right, nodes, lens, tb, t)
    &&& forall|p: (int, int)|
        #[trigger] nodes.contains_key(p) ==> exists|t: int|
            0 <= t < nsym && lens[t] > p.0 && #[trigger] prefix_of(lens, t, p.0) == p.1
    &&& forall|i: int| 0 <= i < table.len() && #[trigger] table[i] >= nsym ==> nodes.contains_key((tb, i))
    &&& forall|p: (int, int), b: int|
        nodes.contains_key(p) && 0 <= b <= 1 && #[trigger] slot(table, left, right, nodes, tb, p.0 + 1, 2 * p.1 + b)
            >= nsym ==> nodes.contains_key((p.0 + 1, 2 * p.1 + b))
    &&& nodes.dom().finite()
    &&& forall|p: (int, int)| #[trigger] nodes.contains_key(p) ==> nodes[p] < nsym + nodes.dom().len()
    &&& forall|j: int| nsym <= j < nsym + nodes.dom().len() ==> #[trigger] id_used(nodes, j)
}

/// Some symbol below `done`, longer than `tb` bits, has the `m`-bit code `v`.
spec fn claimed(lens: Seq<u8>, tb: int, done: int, m: int, v: int) -> bool {
    exists|t: int| 0 <= t < done && lens[t] > tb && lens[t] == m && #[trigger] prefix_of(lens, t, m) == v
}

/// The trie while it is built: the codes of the long symbols below `done`
/// are in; node ids are distinct and below `next`; slots with node ids are
/// recorded; slots neither recorded nor holding a code are empty (0); and
/// every recorded prefix leads to the code of a long symbol below `wit`.
#[verifier::opaque]
spec fn trie_inv(
    table: Seq<u16>,
    left: Seq<u16>,
    right: Seq<u16>,
    nodes: Map<(int, int), int>,
    lens: Seq<u8>,
    tb: int,
    lo: int,
    done: int,
    wit: int,
    next: int,
) -> bool {
    let nsym = lens.len() as int;
    &&& nodes_placed(table, left, right, nodes, tb, nsym)
    &&& forall|p: (int, int)|
        #[trigger] nodes.contains_key(p) ==> slot_exists(table.len() as int, nodes, tb, lo, p.0, p.1)
    &&& forall|p: (int, int)| #[trigger] nodes.contains_key(p) ==> nodes[p] < next
    &&& forall|p: (int, int), q: (int, int)|
        #[trigger] nodes.contains_key(p) && #[trigger] nodes.contains_key(q) && nodes[p] == nodes[q] ==> p == q
    &&& forall|t: int|
        0 <= t < done && lens[t] > tb ==> #[trigger] code_in_trie(table, left, right, nodes, lens, tb, t)
    &&& forall|m: int, v: int|
        slot_exists(table.len() as int, nodes, tb, lo, m, v) && #[trigger] slot(table, left, right, nodes, tb, m, v)
            >= nsym ==> nodes.contains_key((m, v))
    &&& forall|m: int, v: int|
        slot_exists(table.len() as int, nodes, tb, lo, m, v) && !nodes.contains_key((m, v)) && !claimed(
            lens,
            tb,
            done,
            m,
            v,
        ) ==> #[trigger] slot(table, left, right, nodes, tb, m, v) == 0
    &&& forall|p: (int, int)|
        #[trigger] nodes.contains_key(p) ==> exists|t: int|
            0 <= t < wit && lens[t] > p.0 && #[trigger] prefix_of(lens, t, p.0) == p.1
    &&& nodes.dom().finite()
    &&& nodes.dom().len() == next - nsym
    &&& forall|j: int| nsym <= j < next ==> #[trigger] id_used(nodes, j)
}

/// Some recorded node has id `j`.
pub open spec fn id_used(nodes: Map<(int, int), int>, j: int) -> bool {
    exists|p: (int, int)| nodes.contains_key(p) && nodes[p] == j
}

/// One more bit of a code's prefix.
proof fn lemma_prefix_step(lens: Seq<u8>, t: int, m: int)
    requires
        0 <= m < 16,
    ensures
        prefix_of(lens, t, m + 1) / 2 == prefix_of(lens, t, m),
{
    let c = code16(lens, t) as int;
    vstd::arithmetic::power2::lemma_pow2_unfold((16 - m) as nat);
    lemma_pow2_pos((15 - m) as nat);
    let p = pow2((15 - m) as nat) as int;
    assert(pow2((16 - m) as nat) == 2 * p);
    vstd::arithmetic::div_mod::lemma_div_denominator(c, p, 2);
    assert(c / (p * 2) == c / (2 * p)) by (nonlinear_arith);
}

/// A code is no prefix of another: when the `m`-bit code of `t` and the
/// first `m` bits of `s`'s code (at least as long) agree, `s` is `t`.
proof fn lemma_no_code_prefix(lens: Seq<u8>, t: int, s: int)
    requires
        0 <= t < lens.len(),
        0 <= s < lens.len(),
        t != s,
        0 < lens[t] <= lens[s] <= 16,
    ensures
        prefix_of(lens, s, lens[t] as int) != prefix_of(lens, t, lens[t] as int),
{
    let l = lens[t] as int;
    let w = pow2((16 - l) as nat) as int;
    let ct = code16(lens, t) as int;
    let cs = code16(lens, s) as int;
    lemma_pow2_pos((16 - l) as nat);
    lemma_code_aligned(lens, t);
    if cs / w == ct / w {
        let q = ct / w;
        assert(ct == q * w) by (nonlinear_arith)
            requires ct % w == 0, w > 0, q == ct / w;
        assert(q * w <= cs < q * w + w) by (nonlinear_arith)
            requires cs / w == q, w > 0;
        lemma2_to64();
        assert(cs * pow2(0) == cs);
        assert(in_code_range(lens, 16, t, cs));
        lemma_code_ranges_disjoint(lens, 16, t, s, cs);
        lemma_pow2_pos((16 - lens[s]) as nat);
        assert(in_code_range(lens, 16, s, cs));
    }
}

/// Where slot `(d, pv)` lives: `table2`, `left2`, `right2` are the arrays
/// after storing `x` there.
spec fn slot_written(
    table: Seq<u16>,
    left: Seq<u16>,
    right: Seq<u16>,
    nodes: Map<(int, int), int>,
    tb: int,
    d: int,
    pv: int,
    x: u16,
    table2: Seq<u16>,
    left2: Seq<u16>,
    right2: Seq<u16>,
) -> bool {
    if d == tb {
        table2 == table.update(pv, x) && left2 == left && right2 == right
    } else if pv % 2 == 0 {
        table2 == table && left2 == left.update(nodes[(d - 1, pv / 2)], x) && right2 == right
    } else {
        table2 == table && left2 == left && right2 == right.update(nodes[(d - 1, pv / 2)], x)
    }
}

/// Storing into one slot leaves every other existing slot as it was.
proof fn lemma_write_frame(
    table: Seq<u16>,
    left: Seq<u16>,
    right: Seq<u16>,
    nodes: Map<(int, int), int>,
    tb: int,
    lo: int,
    d: int,
    pv: int,
    x: u16,
    table2: Seq<u16>,
    left2: Seq<u16>,
    right2: Seq<u16>,
)
    requires
        0 <= lo,
        slot_exists(table.len() as int, nodes, tb, lo, d, pv),
        forall|p: (int, int), q: (int, int)|
            #[trigger] nodes.contains_key(p) && #[trigger] nodes.contains_key(q) && nodes[p] == nodes[q] ==> p
                == q,
        forall|p: (int, int)| #[trigger] nodes.contains_key(p) ==> 0 <= nodes[p] < left.len() && nodes[p] < right.len(),
        slot_written(table, left, right, nodes, tb, d, pv, x, table2, left2, right2),
    ensures
        slot(table2, left2, right2, nodes, tb, d, pv) == x,
        table2.len() == table.len(),
        left2.len() == left.len(),
        right2.len() == right.len(),
        forall|m: int, v: int|
            slot_exists(table.len() as int, nodes, tb, lo, m, v) && (m, v) != (d, pv) ==> #[trigger] slot(
                table2,
                left2,
                right2,
                nodes,
                tb,
                m,
                v,
            ) == slot(table, left, right, nodes, tb, m, v),
{
    assert forall|m: int, v: int|
        slot_exists(table.len() as int, nodes, tb, lo, m, v) && (m, v) != (d, pv) implies #[trigger] slot(
        table2,
        left2,
        right2,
        nodes,
        tb,
        m,
        v,
    ) == slot(table, left, right, nodes, tb, m, v) by {
        if m != tb && d != tb {
            let k = (m - 1, v / 2);
            let kd = (d - 1, pv / 2);
            if nodes[k] == nodes[kd] {
                assert(k == kd);
                assert(v == 2 * (v / 2) + v % 2);
                assert(pv == 2 * (pv / 2) + pv % 2);
            }
        }
    }
}

/// A new node `n` with empty children, recorded for a prefix that had
/// none, leaves the existing slots as they were.
proof fn lemma_alloc_frame(
    table: Seq<u16>,
    left: Seq<u16>,
    right: Seq<u16>,
    nodes: Map<(int, int), int>,
    tb: int,
    lo: int,
    key: (int, int),
    n: int,
)
    requires
        !nodes.contains_key(key),
        key.0 >= tb,
        forall|p: (int, int)| #[trigger] nodes.contains_key(p) ==> 0 <= nodes[p] < n,
        0 <= n < left.len(),
        n < right.len(),
    ensures
        forall|m: int, v: int|
            slot_exists(table.len() as int, nodes, tb, lo, m, v) ==> #[trigger] slot(
                table,
                left.update(n, 0u16),
                right.update(n, 0u16),
                nodes.insert(key, n),
                tb,
                m,
                v,
            ) == slot(table, left, right, nodes, tb, m, v),
        forall|v: int|
            v / 2 == key.1 ==> #[trigger] slot(
                table,
                left.update(n, 0u16),
                right.update(n, 0u16),
                nodes.insert(key, n),
                tb,
                key.0 + 1,
                v,
            ) == 0,
{
}

/// Facts about the lengths that the trie proofs use.
spec fn lens_ok(lens: Seq<u8>, tb: int) -> bool {
    &&& 1 <= lens.len() <= 510
    &&& forall|i: int| 0 <= i < lens.len() ==> lens[i] <= 16
    &&& 1 <= tb <= 12
}

/// At a proper prefix of the code being added, the slot holds either the
/// recorded node of that prefix or nothing.
proof fn lemma_walk_slot(
    table: Seq<u16>,
    left: Seq<u16>,
    right: Seq<u16>,
    nodes: Map<(int, int), int>,
    lens: Seq<u8>,
    tb: int,
    lo: int,
    s: int,
    next: int,
    d: int,
)
    requires
        trie_inv(table, left, right, nodes, lens, tb, lo, s, s + 1, next),
        lens_ok(lens, tb),
        0 <= s < lens.len(),
        tb <= d < lens[s],
        slot_exists(table.len() as int, nodes, tb, lo, d, prefix_of(lens, s, d)),
    ensures
        ({
            let v = slot(table, left, right, nodes, tb, d, prefix_of(lens, s, d));
            &&& v >= lens.len() ==> nodes.contains_key((d, prefix_of(lens, s, d))) && v == nodes[(
                d,
                prefix_of(lens, s, d),
            )]
            &&& v < lens.len() ==> v == 0 && !nodes.contains_key((d, prefix_of(lens, s, d)))
        }),
{
    reveal(trie_inv);
    let pv = prefix_of(lens, s, d);
    if nodes.contains_key((d, pv)) {
        assert(slot(table, left, right, nodes, tb, d, pv) == nodes[(d, pv)]);
    } else {
        assert forall|t: int| 0 <= t < s && lens[t] > tb && lens[t] == d implies #[trigger] prefix_of(
            lens,
            t,
            d,
        ) != pv by {
            lemma_no_code_prefix(lens, t, s);
        }
        assert(!claimed(lens, tb, s, d, pv));
    }
}

/// Adding a node `next` for the next prefix of `s`'s code keeps the trie
/// invariant.
proof fn lemma_alloc_preserves(
    table: Seq<u16>,
    left: Seq<u16>,
    right: Seq<u16>,
    nodes: Map<(int, int), int>,
    lens: Seq<u8>,
    tb: int,
    lo: int,
    s: int,
    next: int,
    d: int,
    table1: Seq<u16>,
    left1: Seq<u16>,
    right1: Seq<u16>,
)
    requires
        trie_inv(table, left, right, nodes, lens, tb, lo, s, s + 1, next),
        lens_ok(lens, tb),
        0 <= lo,
        0 <= s < lens.len(),
        tb <= d < lens[s],
        forall|m: int| tb <= m < d ==> #[trigger] nodes.contains_key((m, prefix_of(lens, s, m))),
        slot_exists(table.len() as int, nodes, tb, lo, d, prefix_of(lens, s, d)),
        !nodes.contains_key((d, prefix_of(lens, s, d))),
        lens.len() <= next < 2 * lens.len() - 1,
        2 * lens.len() - 1 <= left.len(),
        2 * lens.len() - 1 <= right.len(),
        slot_written(table, left, right, nodes, tb, d, prefix_of(lens, s, d), next as u16, table1, left1, right1),
    ensures
        trie_inv(
            table1,
            left1.update(next, 0u16),
            right1.update(next, 0u16),
            nodes.insert((d, prefix_of(lens, s, d)), next),
            lens,
            tb,
            lo,
            s,
            s + 1,
            next + 1,
        ),
{
    reveal(trie_inv);
    let pv = prefix_of(lens, s, d);
    let key = (d, pv);
    let n = next;
    lemma_write_frame(table, left, right, nodes, tb, lo, d, pv, n as u16, table1, left1, right1);
    lemma_alloc_frame(table1, left1, right1, nodes, tb, lo, key, n);
    let t2 = table1;
    let l2 = left1.update(n, 0u16);
    let r2 = right1.update(n, 0u16);
    let n2 = nodes.insert(key, n);
    let nsym = lens.len() as int;
    // slots that existed before keep their contents, but for the new node's
    assert forall|m: int, v: int|
        slot_exists(table.len() as int, nodes, tb, lo, m, v) && (m, v) != key implies #[trigger] slot(
        t2,
        l2,
        r2,
        n2,
        tb,
        m,
        v,
    ) == slot(table, left, right, nodes, tb, m, v) by {
        assert(slot(t2, l2, r2, n2, tb, m, v) == slot(table1, left1, right1, nodes, tb, m, v));
    }
    assert(slot(t2, l2, r2, n2, tb, d, pv) == n) by {
        assert(slot(t2, l2, r2, n2, tb, d, pv) == slot(table1, left1, right1, nodes, tb, d, pv));
    }
    // new slots are the new node's children, which are empty
    assert forall|m: int, v: int|
        slot_exists(t2.len() as int, n2, tb, lo, m, v) && !slot_exists(table.len() as int, nodes, tb, lo, m, v)
            implies m == d + 1 && v / 2 == pv && #[trigger] slot(t2, l2, r2, n2, tb, m, v) == 0 by {
        assert(slot(t2, l2, r2, n2, tb, d + 1, v) == 0);
    }
    // node placement
    assert forall|p: (int, int)| #[trigger] n2.contains_key(p) implies {
        &&& tb <= p.0 < 16
        &&& nsym <= n2[p] < 2 * nsym - 1
        &&& (p.0 == tb ==> 0 <= p.1 < t2.len())
        &&& (p.0 > tb ==> n2.contains_key((p.0 - 1, p.1 / 2)))
        &&& slot(t2, l2, r2, n2, tb, p.0, p.1) == n2[p]
    } by {
        if p != key {
            assert(nodes.contains_key(p));
            assert(slot_exists(table.len() as int, nodes, tb, lo, p.0, p.1));
        }
    }
    assert(nodes_placed(t2, l2, r2, n2, tb, nsym));
    // codes already in keep their paths and leaves
    assert forall|t: int| 0 <= t < s && lens[t] > tb implies #[trigger] code_in_trie(
        t2,
        l2,
        r2,
        n2,
        lens,
        tb,
        t,
    ) by {
        assert(code_in_trie(table, left, right, nodes, lens, tb, t));
        let lt = lens[t] as int;
        let f = prefix_of(lens, t, lt);
        lemma_prefix_step(lens, t, lt - 1);
        assert(nodes.contains_key((lt - 1, prefix_of(lens, t, lt - 1))));
        assert(slot_exists(table.len() as int, nodes, tb, lo, lt, f));
        if lt == d && f == pv {
            lemma_no_code_prefix(lens, t, s);
        }
        assert forall|m: int| tb <= m < lt implies #[trigger] n2.contains_key((m, prefix_of(lens, t, m))) by {
            assert(nodes.contains_key((m, prefix_of(lens, t, m))));
        }
    }
    // recorded node ids
    assert forall|m: int, v: int|
        slot_exists(t2.len() as int, n2, tb, lo, m, v) && #[trigger] slot(t2, l2, r2, n2, tb, m, v) >= nsym
            implies n2.contains_key((m, v)) by {
        if slot_exists(table.len() as int, nodes, tb, lo, m, v) && (m, v) != key {
            assert(nodes.contains_key((m, v)));
        }
    }
    // empty slots
    assert forall|m: int, v: int|
        slot_exists(t2.len() as int, n2, tb, lo, m, v) && !n2.contains_key((m, v)) && !claimed(
            lens,
            tb,
            s,
            m,
            v,
        ) implies #[trigger] slot(t2, l2, r2, n2, tb, m, v) == 0 by {
        if slot_exists(table.len() as int, nodes, tb, lo, m, v) {
            assert(slot(table, left, right, nodes, tb, m, v) == 0);
        }
    }
    // every recorded prefix leads to a code
    assert forall|p: (int, int)| #[trigger] n2.contains_key(p) implies exists|t: int|
        0 <= t < s + 1 && lens[t] > p.0 && #[trigger] prefix_of(lens, t, p.0) == p.1 by {
        if p == key {
            assert(prefix_of(lens, s, d) == pv);
        }
    }
    assert forall|p: (int, int)| #[trigger] n2.contains_key(p) implies slot_exists(t2.len() as int, n2, tb, lo, p.0, p.1) by {
        if p != key {
            assert(slot_exists(table.len() as int, nodes, tb, lo, p.0, p.1));
        }
    }
    assert forall|p: (int, int), q: (int, int)|
        #[trigger] n2.contains_key(p) && #[trigger] n2.contains_key(q) && n2[p] == n2[q] implies p == q by {
        if p != key && q != key {
            assert(nodes.contains_key(p) && nodes.contains_key(q));
        }
    }
    // ids stay consecutive
    assert(n2.dom() == nodes.dom().insert(key));
    assert(n2.dom().len() == nodes.dom().len() + 1);
    assert forall|j: int| nsym <= j < n + 1 implies #[trigger] id_used(n2, j) by {
        if j == n {
            assert(n2.contains_key(key) && n2[key] == j);
        } else {
            assert(id_used(nodes, j));
            let p = choose|p: (int, int)| nodes.contains_key(p) && nodes[p] == j;
            assert(n2.contains_key(p) && n2[p] == j);
        }
    }
}

/// A complete code leaves room for one more node while some prefix of the
/// code being added has none.
proof fn lemma_alloc_room(
    table: Seq<u16>,
    left: Seq<u16>,
    right: Seq<u16>,
    nodes: Map<(int, int), int>,
    lens: Seq<u8>,
    tb: int,
    lo: int,
    s: int,
    next: int,
    d: int,
)
    requires
        trie_inv(table, left, right, nodes, lens, tb, lo, s, s + 1, next),
        valid_lengths(lens),
        0 <= tb,
        0 <= s < lens.len(),
        tb <= d < lens[s],
        !nodes.contains_key((d, prefix_of(lens, s, d))),
    ensures
        lens.len() <= next < 2 * lens.len() - 1,
{
    reveal(trie_inv);
    let key = (d, prefix_of(lens, s, d));
    let keys = nodes.dom().insert(key);
    assert forall|p: (int, int)| #[trigger] keys.contains(p) implies 0 <= p.0 && exists|t: int|
        0 <= t < lens.len() && lens[t] > p.0 && #[trigger] prefix_of(lens, t, p.0) == p.1 by {
        if p == key {
            assert(prefix_of(lens, s, d) == p.1);
        } else {
            assert(nodes.contains_key(p));
            let t = choose|t: int| 0 <= t < s + 1 && lens[t] > p.0 && #[trigger] prefix_of(lens, t, p.0) == p.1;
        }
    }
    lemma_node_count(lens, keys);
}

/// Storing `s` where its code's path ends completes the code in the trie.
proof fn lemma_leaf_preserves(
    table: Seq<u16>,
    left: Seq<u16>,
    right: Seq<u16>,
    nodes: Map<(int, int), int>,
    lens: Seq<u8>,
    tb: int,
    lo: int,
    s: int,
    next: int,
    table1: Seq<u16>,
    left1: Seq<u16>,
    right1: Seq<u16>,
)
    requires
        trie_inv(table, left, right, nodes, lens, tb, lo, s, s + 1, next),
        lens_ok(lens, tb),
        0 <= lo,
        0 <= s < lens.len(),
        tb < lens[s],
        forall|m: int| tb <= m < lens[s] ==> #[trigger] nodes.contains_key((m, prefix_of(lens, s, m))),
        slot_exists(table.len() as int, nodes, tb, lo, lens[s] as int, prefix_of(lens, s, lens[s] as int)),
        2 * lens.len() - 1 <= left.len(),
        2 * lens.len() - 1 <= right.len(),
        slot_written(
            table,
            left,
            right,
            nodes,
            tb,
            lens[s] as int,
            prefix_of(lens, s, lens[s] as int),
            s as u16,
            table1,
            left1,
            right1,
        ),
    ensures
        trie_inv(table1, left1, right1, nodes, lens, tb, lo, s + 1, s + 1, next),
{
    reveal(trie_inv);
    let l = lens[s] as int;
    let pv = prefix_of(lens, s, l);
    let key = (l, pv);
    let nsym = lens.len() as int;
    if nodes.contains_key(key) {
        let t = choose|t: int| 0 <= t < s + 1 && lens[t] > l && #[trigger] prefix_of(lens, t, l) == pv;
        lemma_no_code_prefix(lens, s, t);
    }
    lemma_write_frame(table, left, right, nodes, tb, lo, l, pv, s as u16, table1, left1, right1);
    assert forall|p: (int, int)| #[trigger] nodes.contains_key(p) implies {
        &&& tb <= p.0 < 16
        &&& nsym <= nodes[p] < 2 * nsym - 1
        &&& (p.0 == tb ==> 0 <= p.1 < table1.len())
        &&& (p.0 > tb ==> nodes.contains_key((p.0 - 1, p.1 / 2)))
        &&& slot(table1, left1, right1, nodes, tb, p.0, p.1) == nodes[p]
    } by {
        assert(slot_exists(table.len() as int, nodes, tb, lo, p.0, p.1));
    }
    assert(nodes_placed(table1, left1, right1, nodes, tb, nsym));
    assert forall|t: int| 0 <= t < s + 1 && lens[t] > tb implies #[trigger] code_in_trie(
        table1,
        left1,
        right1,
        nodes,
        lens,
        tb,
        t,
    ) by {
        if t < s {
            assert(code_in_trie(table, left, right, nodes, lens, tb, t));
            let lt = lens[t] as int;
            let f = prefix_of(lens, t, lt);
            lemma_prefix_step(lens, t, lt - 1);
            assert(nodes.contains_key((lt - 1, prefix_of(lens, t, lt - 1))));
            assert(slot_exists(table.len() as int, nodes, tb, lo, lt, f));
            if lt == l && f == pv {
                lemma_no_code_prefix(lens, t, s);
            }
        }
    }
    assert forall|m: int, v: int|
        slot_exists(table1.len() as int, nodes, tb, lo, m, v) && #[trigger] slot(
            table1,
            left1,
            right1,
            nodes,
            tb,
            m,
            v,
        ) >= nsym implies nodes.contains_key((m, v)) by {
        if (m, v) != key {
            assert(slot(table1, left1, right1, nodes, tb, m, v) == slot(table, left, right, nodes, tb, m, v));
        }
    }
    assert forall|m: int, v: int|
        slot_exists(table1.len() as int, nodes, tb, lo, m, v) && !nodes.contains_key((m, v)) && !claimed(
            lens,
            tb,
            s + 1,
            m,
            v,
        ) implies #[trigger] slot(table1, left1, right1, nodes, tb, m, v) == 0 by {
        if (m, v) == key {
            assert(claimed(lens, tb, s + 1, m, v)) by {
                assert(prefix_of(lens, s, l) == pv);
            }
        } else {
            assert(slot(table1, left1, right1, nodes, tb, m, v) == slot(table, left, right, nodes, tb, m, v));
            if claimed(lens, tb, s, m, v) {
                let t = choose|t: int|
                    0 <= t < s && lens[t] > tb && lens[t] == m && #[trigger] prefix_of(lens, t, m) == v;
                assert(claimed(lens, tb, s + 1, m, v));
            }
        }
    }
}

/// Writing fixed-table entries before `lo` leaves the trie alone.
proof fn lemma_inv_table_write(
    table: Seq<u16>,
    left: Seq<u16>,
    right: Seq<u16>,
    nodes: Map<(int, int), int>,
    lens: Seq<u8>,
    tb: int,
    lo: int,
    done: int,
    wit: int,
    next: int,
    i: int,
    x: u16,
)
    requires
        trie_inv(table, left, right, nodes, lens, tb, lo, done, wit, next),
        0 <= i < lo,
        0 <= tb,
        done <= lens.len(),
        i < table.len(),
        forall|j: int| 0 <= j < lens.len() ==> lens[j] <= 16,
    ensures
        trie_inv(table.update(i, x), left, right, nodes, lens, tb, lo, done, wit, next),
{
    reveal(trie_inv);
    let t2 = table.update(i, x);
    assert forall|m: int, v: int|
        slot_exists(table.len() as int, nodes, tb, lo, m, v) implies #[trigger] slot(t2, left, right, nodes, tb, m, v)
        == slot(table, left, right, nodes, tb, m, v) by {}
    assert forall|p: (int, int)| #[trigger] nodes.contains_key(p) implies slot(t2, left, right, nodes, tb, p.0, p.1)
        == slot(table, left, right, nodes, tb, p.0, p.1) by {
        assert(slot_exists(table.len() as int, nodes, tb, lo, p.0, p.1));
    }
    assert forall|t: int| 0 <= t < done && lens[t] > tb implies #[trigger] code_in_trie(
        t2,
        left,
        right,
        nodes,
        lens,
        tb,
        t,
    ) by {
        assert(code_in_trie(table, left, right, nodes, lens, tb, t));
        let lt = lens[t] as int;
        lemma_prefix_step(lens, t, lt - 1);
        assert(nodes.contains_key((lt - 1, prefix_of(lens, t, lt - 1))));
        assert(slot_exists(table.len() as int, nodes, tb, lo, lt, prefix_of(lens, t, lt)));
    }
}

/// A symbol that is not longer than the table index adds nothing to the
/// trie.
proof fn lemma_inv_skip(
    table: Seq<u16>,
    left: Seq<u16>,
    right: Seq<u16>,
    nodes: Map<(int, int), int>,
    lens: Seq<u8>,
    tb: int,
    lo: int,
    s: int,
    next: int,
)
    requires
        trie_inv(table, left, right, nodes, lens, tb, lo, s, s, next),
        0 <= s < lens.len(),
        lens[s] <= tb,
    ensures
        trie_inv(table, left, right, nodes, lens, tb, lo, s + 1, s + 1, next),
{
    reveal(trie_inv);
    assert forall|m: int, v: int| #[trigger] claimed(lens, tb, s + 1, m, v) implies claimed(lens, tb, s, m, v) by {
        let t = choose|t: int| 0 <= t < s + 1 && lens[t] > tb && lens[t] == m && #[trigger] prefix_of(lens, t, m) == v;
    }
    assert forall|m: int, v: int|
        slot_exists(table.len() as int, nodes, tb, lo, m, v) && !nodes.contains_key((m, v)) && !claimed(
            lens,
            tb,
            s + 1,
            m,
            v,
        ) implies #[trigger] slot(table, left, right, nodes, tb, m, v) == 0 by {
        if claimed(lens, tb, s, m, v) {
            let t = choose|t: int| 0 <= t < s && lens[t] > tb && lens[t] == m && #[trigger] prefix_of(lens, t, m) == v;
            assert(claimed(lens, tb, s + 1, m, v));
        }
    }
    assert forall|p: (int, int)| #[trigger] nodes.contains_key(p) implies exists|t: int|
        0 <= t < s + 1 && lens[t] > p.0 && #[trigger] prefix_of(lens, t, p.0) == p.1 by {
        let t = choose|t: int| 0 <= t < s && lens[t] > p.0 && #[trigger] prefix_of(lens, t, p.0) == p.1;
    }
}

/// An empty trie over a table whose entries from `lo` on are 0.
proof fn lemma_inv_init(table: Seq<u16>, left: Seq<u16>, right: Seq<u16>, lens: Seq<u8>, tb: int, lo: int)
    requires
        lens.len() >= 1,
        forall|i: int| lo <= i < table.len() ==> table[i] == 0,
    ensures
        trie_inv(table, left, right, Map::empty(), lens, tb, lo, 0, 0, lens.len() as int),
{
    reveal(trie_inv);
}

/// Short codes' ranges of fixed-table indices end before `lo`, the first
/// index that a longer code starts at.
proof fn lemma_short_before_lo(lens: Seq<u8>, tb: nat, t: int, i: int, lo: int)
    requires
        0 <= t < lens.len(),
        0 < lens[t] <= tb <= 15,
        lo * pow2((16 - tb) as nat) == kraft_below(lens, tb as int + 1),
        in_code_range(lens, tb, t, i),
    ensures
        i < lo,
{
    let l = lens[t] as int;
    lemma_code_fits(lens, t);
    let ps = pow2((16 - l) as nat);
    let n = lens.len() as int;
    lemma_count_below_step(lens, t, n);
    let cn = count_below(lens, l, n);
    let cs = count_below(lens, l, t);
    assert(kraft_below(lens, l + 1) == kraft_below(lens, l) + cn * ps);
    assert(cn * ps >= (cs + 1) * ps) by (nonlinear_arith)
        requires cn >= cs + 1, ps >= 0;
    assert((cs + 1) * ps == cs * ps + ps) by (nonlinear_arith);
    lemma_kraft_monotone(lens, l + 1, tb as int + 1);
    lemma_pow2_pos((16 - tb) as nat);
    let d = pow2((16 - tb) as nat);
    assert(i * d < lo * d);
    assert(i < lo) by (nonlinear_arith)
        requires i * d < lo * d, d > 0;
}

/// A longer code's leading bits index the table at or after `lo`, and
/// inside it.
proof fn lemma_long_root(lens: Seq<u8>, tb: nat, s: int, lo: int)
    requires
        0 <= s < lens.len(),
        tb < lens[s] <= 16,
        1 <= tb <= 15,
        lo * pow2((16 - tb) as nat) == kraft_below(lens, tb as int + 1),
        kraft_below(lens, 17) == pow2(16),
    ensures
        lo <= prefix_of(lens, s, tb as int) < pow2(tb),
{
    let l = lens[s] as int;
    let d = pow2((16 - tb) as nat) as int;
    let c = code16(lens, s) as int;
    lemma_pow2_pos((16 - tb) as nat);
    lemma_kraft_monotone(lens, tb as int + 1, l);
    lemma_code_fits(lens, s);
    lemma_pow2_pos((16 - l) as nat);
    lemma_pow2_adds(tb, (16 - tb) as nat);
    vstd::arithmetic::div_mod::lemma_div_is_ordered(lo * d, c, d);
    vstd::arithmetic::div_mod::lemma_div_multiples_vanish(lo, d);
    assert((lo * d) / d == lo) by (nonlinear_arith)
        requires (d * lo) / d == lo;
    assert(c / d < pow2(tb)) by (nonlinear_arith)
        requires c < pow2(tb) * d, d > 0;
}

/// The first `m` bits of a code that matches at `pos` are the first `m`
/// bits of the input there.
proof fn lemma_matched_prefix(lens: Seq<u8>, t: int, data: Seq<u8>, pos: int, m: int)
    requires
        code_matches(lens, t, data, pos),
        0 <= m <= lens[t],
    ensures
        prefix_of(lens, t, m) == bits_be(data, pos, m as nat),
{
    let l = lens[t] as nat;
    let dd = (l - m) as nat;
    lemma_bits_be_split(data, pos, m as nat, dd);
    lemma_bits_be_bound(data, pos + m, dd);
    lemma_pow2_adds(dd, (16 - l) as nat);
    lemma_pow2_pos((16 - l) as nat);
    lemma_pow2_pos(dd);
    let bm = bits_be(data, pos, m as nat) as int;
    let r = bits_be(data, pos + m, dd) as int;
    let pl = pow2((16 - l) as nat) as int;
    let pd = pow2(dd) as int;
    let pm = pow2((16 - m) as nat) as int;
    assert(pd * pl == pm);
    assert((bm * pd + r) * pl == bm * pm + r * pl) by (nonlinear_arith)
        requires pd * pl == pm;
    assert(r * pl < pm) by (nonlinear_arith)
        requires 0 <= r < pd, pd * pl == pm, pl > 0;
    assert(0 <= r * pl) by (nonlinear_arith)
        requires 0 <= r, pl > 0;
    vstd::arithmetic::div_mod::lemma_fundamental_div_mod_converse(
        code16(lens, t) as int,
        pm,
        bm,
        r * pl,
    );
}

/// A matching short code's symbol is in the fixed table at the input's
/// leading `tb` bits.
proof fn lemma_matched_short(lens: Seq<u8>, tb: nat, t: int, data: Seq<u8>, pos: int)
    requires
        code_matches(lens, t, data, pos),
        lens[t] <= tb <= 16,
    ensures
        in_code_range(lens, tb, t, bits_be(data, pos, tb) as int),
{
    let l = lens[t] as nat;
    let dd = (tb - l) as nat;
    lemma_bits_be_split(data, pos, l, dd);
    lemma_bits_be_bound(data, pos + l, dd);
    lemma_pow2_adds(dd, (16 - tb) as nat);
    lemma_pow2_adds(l, dd);
    lemma_pow2_pos((16 - tb) as nat);
    lemma_pow2_pos(dd);
    let bl = bits_be(data, pos, l) as int;
    let r = bits_be(data, pos + l, dd) as int;
    let d = pow2((16 - tb) as nat) as int;
    let pd = pow2(dd) as int;
    let pl = pow2((16 - l) as nat) as int;
    assert(pd * d == pl);
    assert((bl * pd + r) * d == bl * pl + r * d) by (nonlinear_arith)
        requires pd * d == pl;
    assert(r * d < pl) by (nonlinear_arith)
        requires 0 <= r < pd, pd * d == pl, d > 0;
    assert(0 <= r * d) by (nonlinear_arith)
        requires 0 <= r, d > 0;
}

/// The bit after a matching code's first `m` bits is its next prefix's
/// last bit.
proof fn lemma_matched_bit(lens: Seq<u8>, t: int, data: Seq<u8>, pos: int, m: int)
    requires
        code_matches(lens, t, data, pos),
        0 <= m < lens[t],
    ensures
        bit_at(data, pos + m) == prefix_of(lens, t, m + 1) % 2,
        prefix_of(lens, t, m + 1) / 2 == prefix_of(lens, t, m),
{
    lemma_matched_prefix(lens, t, data, pos, m);
    lemma_matched_prefix(lens, t, data, pos, m + 1);
    crate::bit_reader::lemma_bit_at_le_one(data, pos + m);
    assert(bits_be(data, pos, (m + 1) as nat) == bits_be(data, pos, m as nat) * 2 + bit_at(data, pos + m));
    lemma_prefix_step(lens, t, m);
}

/// The decode structures of an alphabet of `lens.len()` symbols only use
/// node entries from `lens.len()` on: writes below that leave them whole.
pub proof fn lemma_hold_frame(
    table: Seq<u16>,
    left: Seq<u16>,
    right: Seq<u16>,
    left2: Seq<u16>,
    right2: Seq<u16>,
    lens: Seq<u8>,
    tb: nat,
)
    requires
        tables_hold_code(table, left, right, lens, tb),
        2 * lens.len() - 1 <= left.len(),
        2 * lens.len() - 1 <= right.len(),
        left2.len() == left.len(),
        right2.len() == right.len(),
        forall|j: int| lens.len() <= j < left.len() ==> left2[j] == left[j],
        forall|j: int| lens.len() <= j < right.len() ==> right2[j] == right[j],
    ensures
        tables_hold_code(table, left2, right2, lens, tb),
{
    let nodes = choose|nodes: Map<(int, int), int>| trie_of(table, left, right, nodes, lens, tb as int);
    let tbi = tb as int;
    assert forall|p: (int, int), b: int| nodes.contains_key(p) && 0 <= b <= 1 implies #[trigger] slot(
        table,
        left2,
        right2,
        nodes,
        tbi,
        p.0 + 1,
        2 * p.1 + b,
    ) == slot(table, left, right, nodes, tbi, p.0 + 1, 2 * p.1 + b) by {
        assert((2 * p.1 + b) / 2 == p.1);
    }
    assert forall|p: (int, int)| #[trigger] nodes.contains_key(p) implies slot(table, left2, right2, nodes, tbi, p.0, p.1)
        == slot(table, left, right, nodes, tbi, p.0, p.1) by {
        if p.0 > tbi {
            assert(nodes.contains_key((p.0 - 1, p.1 / 2)));
        }
    }
    assert(nodes_placed(table, left2, right2, nodes, tbi, lens.len() as int));
    assert forall|t: int| 0 <= t < lens.len() && lens[t] > tbi implies #[trigger] code_in_trie(
        table,
        left2,
        right2,
        nodes,
        lens,
        tbi,
        t,
    ) by {
        assert(code_in_trie(table, left, right, nodes, lens, tbi, t));
        let lt = lens[t] as int;
        assert(nodes.contains_key((lt - 1, prefix_of(lens, t, lt - 1))));
        lemma_prefix_step(lens, t, lt - 1);
    }
    assert forall|p: (int, int), b: int|
        nodes.contains_key(p) && 0 <= b <= 1 && #[trigger] slot(table, left2, right2, nodes, tbi, p.0 + 1, 2 * p.1 + b)
            >= lens.len() implies nodes.contains_key((p.0 + 1, 2 * p.1 + b)) by {
        assert((2 * p.1 + b) / 2 == p.1);
    }
    assert(trie_of(table, left2, right2, nodes, lens, tbi));
}

/// The finished trie invariant, with the short codes in place, gives the
/// decode structures.
proof fn lemma_inv_final(
    table: Seq<u16>,
    left: Seq<u16>,
    right: Seq<u16>,
    nodes: Map<(int, int), int>,
    lens: Seq<u8>,
    tb: int,
    lo: int,
    next: int,
)
    requires
        trie_inv(table, left, right, nodes, lens, tb, lo, lens.len() as int, lens.len() as int, next),
        valid_lengths(lens),
        1 <= tb <= 12,
        table.len() == pow2(tb as nat),
        0 <= lo,
        lo * pow2((16 - tb) as nat) == kraft_below(lens, tb + 1),
        forall|t: int, i: int|
            0 <= t < lens.len() && 0 < lens[t] <= tb && 0 <= i < table.len() && #[trigger] in_code_range(
                lens,
                tb as nat,
                t,
                i,
            ) ==> table[i] == t,
    ensures
        trie_of(table, left, right, nodes, lens, tb),
{
    reveal(trie_inv);
    let nsym = lens.len() as int;
    let d = pow2((16 - tb) as nat) as int;
    lemma_pow2_pos((16 - tb) as nat);
    lemma_pow2_adds(tb as nat, (16 - tb) as nat);
    lemma2_to64();
    lemma_kraft_monotone(lens, tb + 1, 17);
    assert forall|i: int| 0 <= i < table.len() && #[trigger] table[i] >= nsym implies nodes.contains_key((tb, i)) by {
        if i >= lo {
            assert(slot_exists(table.len() as int, nodes, tb, lo, tb, i));
            assert(slot(table, left, right, nodes, tb, tb, i) == table[i]);
        } else {
            let w = i * d;
            assert(w < lo * d) by (nonlinear_arith)
                requires 0 <= i < lo, d > 0, w == i * d;
            assert(0 <= w) by (nonlinear_arith)
                requires 0 <= i, d > 0, w == i * d;
            let t = lemma_code_covers(lens, w, 1);
            if lens[t] > tb {
                lemma_kraft_monotone(lens, tb + 1, lens[t] as int);
            }
            assert(in_code_range(lens, tb as nat, t, i));
        }
    }
    assert forall|p: (int, int), b: int|
        nodes.contains_key(p) && 0 <= b <= 1 && #[trigger] slot(table, left, right, nodes, tb, p.0 + 1, 2 * p.1 + b)
            >= nsym implies nodes.contains_key((p.0 + 1, 2 * p.1 + b)) by {
        assert((2 * p.1 + b) / 2 == p.1);
        assert(slot_exists(table.len() as int, nodes, tb, lo, p.0 + 1, 2 * p.1 + b));
    }
}

/// The `r`-th symbol of length `len`, in symbol order, below `k`.
proof fn lemma_nth_of_length(lens: Seq<u8>, len: int, k: int, r: int) -> (t: int)
    requires
        0 <= k <= lens.len(),
        0 <= r < count_below(lens, len, k),
    ensures
        0 <= t < k,
        lens[t] == len,
        count_below(lens, len, t) == r,
    decreases k,
{
    if r < count_below(lens, len, k - 1) {
        lemma_nth_of_length(lens, len, k - 1, r)
    } else {
        k - 1
    }
}

/// A complete code covers the whole 16-bit code space: some symbol's
/// range holds `w`.
proof fn lemma_code_covers(lens: Seq<u8>, w: int, len: int) -> (t: int)
    requires
        valid_lengths(lens),
        1 <= len <= 16,
        kraft_below(lens, len) <= w < pow2(16),
    ensures
        0 <= t < lens.len(),
        0 < lens[t] <= 16,
        code16(lens, t) <= w < code16(lens, t) + pow2((16 - lens[t]) as nat),
    decreases 17 - len,
{
    let n = lens.len() as int;
    let k = kraft_below(lens, len) as int;
    let p = pow2((16 - len) as nat) as int;
    let c = count_below(lens, len, n) as int;
    assert(kraft_below(lens, len + 1) == k + c * p);
    if w < kraft_below(lens, len + 1) {
        lemma_pow2_pos((16 - len) as nat);
        let r = (w - k) / p;
        assert(r * p <= w - k < r * p + p) by (nonlinear_arith)
            requires p > 0, w - k >= 0, r == (w - k) / p;
        assert(r >= 0) by (nonlinear_arith)
            requires r == (w - k) / p, w - k >= 0, p > 0;
        assert(r < c) by (nonlinear_arith)
            requires r * p <= w - k, w - k < c * p, p > 0;
        let t = lemma_nth_of_length(lens, len, n, r);
        t
    } else {
        if len == 16 {
            assert(false);
        }
        lemma_code_covers(lens, w, len + 1)
    }
}

/// Two multiples of `k` less than `k` apart are equal.
proof fn lemma_aligned_eq(a: int, b: int, k: int)
    requires
        k > 0,
        a % k == 0,
        b % k == 0,
        a <= b < a + k,
    ensures
        a == b,
{
    let qa = a / k;
    let qb = b / k;
    assert(a == qa * k && b == qb * k) by (nonlinear_arith)
        requires k > 0, a % k == 0, b % k == 0, qa == a / k, qb == b / k;
    assert(qa == qb) by (nonlinear_arith)
        requires a == qa * k, b == qb * k, a <= b < a + k, k > 0;
}

/// Where the right half of prefix `p`'s range starts in the code space.
spec fn right_start(p: (int, int)) -> int {
    (2 * p.1 + 1) * pow2((15 - p.0) as nat)
}

/// Distinct prefixes have distinct right-half starts.
proof fn lemma_right_start_injective(p: (int, int), q: (int, int))
    requires
        0 <= p.0 < 16,
        0 <= q.0 < 16,
        p.1 >= 0,
        q.1 >= 0,
        right_start(p) == right_start(q),
    ensures
        p == q,
{
    if p.0 > q.0 {
        lemma_right_start_injective_ordered(q, p);
    } else if p.0 < q.0 {
        lemma_right_start_injective_ordered(p, q);
    } else {
        let h = pow2((15 - p.0) as nat) as int;
        lemma_pow2_pos((15 - p.0) as nat);
        assert(p.1 == q.1) by (nonlinear_arith)
            requires (2 * p.1 + 1) * h == (2 * q.1 + 1) * h, h > 0;
    }
}

proof fn lemma_right_start_injective_ordered(p: (int, int), q: (int, int))
    requires
        0 <= p.0 < q.0 < 16,
        p.1 >= 0,
        q.1 >= 0,
        right_start(p) == right_start(q),
    ensures
        p.0 == q.0,
{
    let hq = pow2((15 - q.0) as nat) as int;
    let e = (q.0 - p.0 - 1) as nat;
    let g = pow2(e) as int;
    let k1 = (14 - p.0) as nat;
    let k0 = (15 - p.0) as nat;
    assert(k1 == e + (15 - q.0) as nat);
    lemma_pow2_adds(e, (15 - q.0) as nat);
    assert(pow2(k1) == g * hq);
    vstd::arithmetic::power2::lemma_pow2_unfold(k0);
    assert((k0 - 1) as nat == k1);
    lemma_pow2_pos((15 - q.0) as nat);
    let hp = pow2(k0) as int;
    assert(hp == 2 * (g * hq));
    let a = 2 * p.1 + 1;
    let b = 2 * q.1 + 1;
    assert(a * hp == b * hq);
    assert(a * (2 * g) == b) by (nonlinear_arith)
        requires a * hp == b * hq, hp == 2 * (g * hq), hq > 0;
    let z = a * g;
    assert(2 * z == b) by (nonlinear_arith)
        requires a * (2 * g) == b, z == a * g;
}

/// The right half of a proper prefix of a code starts exactly at some
/// symbol's code.
proof fn lemma_right_start_code(lens: Seq<u8>, p: (int, int), t: int) -> (u: int)
    requires
        valid_lengths(lens),
        0 <= t < lens.len(),
        0 <= p.0 < lens[t],
        prefix_of(lens, t, p.0) == p.1,
    ensures
        0 <= u < lens.len(),
        0 < lens[u],
        code16(lens, u) == right_start(p),
        right_start(p) > 0,
        p.1 >= 0,
{
    let m = p.0;
    let v = p.1;
    let w = pow2((16 - m) as nat) as int;
    let h = pow2((15 - m) as nat) as int;
    let ct = code16(lens, t) as int;
    lemma2_to64();
    lemma_pow2_pos((15 - m) as nat);
    vstd::arithmetic::power2::lemma_pow2_unfold((16 - m) as nat);
    assert(w == 2 * h);
    lemma_code_fits(lens, t);
    lemma_pow2_pos((16 - lens[t]) as nat);
    lemma_pow2_adds(m as nat, (16 - m) as nat);
    let top = pow2(m as nat) as int;
    assert(top * w == 65536);
    assert(v * w <= ct < v * w + w) by (nonlinear_arith)
        requires v == ct / w, w > 0, ct >= 0;
    assert(v >= 0) by (nonlinear_arith)
        requires v == ct / w, w > 0, ct >= 0;
    assert(v + 1 <= top) by (nonlinear_arith)
        requires v * w <= ct, ct < 65536, top * w == 65536, w > 0;
    let x = (2 * v + 1) * h;
    assert(x == v * w + h) by (nonlinear_arith)
        requires x == (2 * v + 1) * h, w == 2 * h;
    assert(x + h == (v + 1) * w) by (nonlinear_arith)
        requires x == v * w + h, w == 2 * h;
    assert((v + 1) * w <= top * w) by (nonlinear_arith)
        requires v + 1 <= top, w > 0;
    assert(x > 0) by (nonlinear_arith)
        requires x == (2 * v + 1) * h, v >= 0, h > 0;
    let u = lemma_code_covers(lens, x, 1);
    let l = lens[u] as int;
    let cu = code16(lens, u) as int;
    let wu = pow2((16 - l) as nat) as int;
    lemma_code_aligned(lens, u);
    lemma_pow2_pos((16 - l) as nat);
    if l <= m {
        // u's range would hold all of p's, and with it t's code
        let g = pow2((m - l) as nat) as int;
        lemma_pow2_adds((m - l) as nat, (16 - m) as nat);
        assert(wu == g * w);
        let a = cu / wu;
        assert(cu == a * wu) by (nonlinear_arith)
            requires cu % wu == 0, wu > 0, a == cu / wu;
        assert(cu == (a * g) * w) by (nonlinear_arith)
            requires cu == a * wu, wu == g * w;
        assert(a * g <= v) by (nonlinear_arith)
            requires cu == (a * g) * w, cu <= x, x == v * w + h, w == 2 * h, h > 0;
        assert(cu <= ct) by (nonlinear_arith)
            requires cu == (a * g) * w, a * g <= v, v * w <= ct, w > 0;
        assert(cu + wu == (a * g + g) * w) by (nonlinear_arith)
            requires cu == (a * g) * w, wu == g * w;
        assert(a * g + g >= v + 1) by (nonlinear_arith)
            requires cu + wu == (a * g + g) * w, x < cu + wu, x == v * w + h, w == 2 * h, h > 0;
        assert(ct < cu + wu) by (nonlinear_arith)
            requires cu + wu == (a * g + g) * w, a * g + g >= v + 1, ct < v * w + w, w > 0;
        assert(ct * pow2(0) == ct);
        assert(in_code_range(lens, 16, u, ct));
        lemma_code_ranges_disjoint(lens, 16, u, t, ct);
        assert(in_code_range(lens, 16, t, ct));
    }
    // u is longer than m bits, so its block divides p's half-blocks
    let g2 = pow2((l - m - 1) as nat) as int;
    lemma_pow2_adds((l - m - 1) as nat, (16 - l) as nat);
    assert(h == g2 * wu);
    assert(x % wu == 0) by {
        assert(x == ((2 * v + 1) * g2) * wu) by (nonlinear_arith)
            requires x == (2 * v + 1) * h, h == g2 * wu;
        vstd::arithmetic::div_mod::lemma_mod_multiples_basic((2 * v + 1) * g2, wu);
    }
    lemma_aligned_eq(cu, x, wu);
    u
}

/// A complete code's trie has at most one node fewer than the alphabet has
/// symbols: each node's right half starts at a distinct symbol's code, and
/// none starts at 0, where some symbol's code does.
proof fn lemma_node_count(lens: Seq<u8>, keys: Set<(int, int)>)
    requires
        valid_lengths(lens),
        keys.finite(),
        forall|p: (int, int)|
            #[trigger] keys.contains(p) ==> 0 <= p.0 && exists|t: int|
                0 <= t < lens.len() && lens[t] > p.0 && #[trigger] prefix_of(lens, t, p.0) == p.1,
    ensures
        keys.len() <= lens.len() - 1,
{
    let n = lens.len() as int;
    lemma2_to64();
    let t0 = lemma_code_covers(lens, 0, 1);
    let f = |p: (int, int)| choose|u: int| 0 <= u < n && 0 < lens[u] && code16(lens, u) == right_start(p);
    assert forall|p: (int, int)| #[trigger] keys.contains(p) implies {
        let u = f(p);
        &&& 0 <= u < n
        &&& 0 < lens[u]
        &&& code16(lens, u) == right_start(p)
        &&& right_start(p) > 0
        &&& 0 <= p.0 < 16
        &&& p.1 >= 0
    } by {
        let t = choose|t: int| 0 <= t < lens.len() && lens[t] > p.0 && #[trigger] prefix_of(lens, t, p.0) == p.1;
        let u = lemma_right_start_code(lens, p, t);
    }
    assert(vstd::relations::injective_on(f, keys)) by {
        assert forall|p: (int, int), q: (int, int)|
            keys.contains(p) && keys.contains(q) && #[trigger] f(p) == #[trigger] f(q) implies p == q by {
            lemma_right_start_injective(p, q);
        }
    }
    let y = keys.map(f);
    vstd::set_lib::lemma_map_size(keys, y, f);
    let range = vstd::set_lib::set_int_range(0, n).remove(t0);
    vstd::set_lib::lemma_int_range(0, n);
    assert(y.subset_of(range)) by {
        assert forall|u: int| #[trigger] y.contains(u) implies range.contains(u) by {
            let p = choose|p: (int, int)| keys.contains(p) && f(p) == u;
        }
    }
    vstd::set_lib::lemma_len_subset(y, range);
}

/// Where a walk through the trie stands after at most `k` steps that start
/// at value `id` and read `bits` from index `i` on (a set bit goes right):
/// it stops at the first value below `nsym`, a symbol.
pub open spec fn follow(left: Seq<u16>, right: Seq<u16>, nsym: int, id: int, bits: Seq<bool>, i: int, k: nat) -> int
    decreases k,
{
    if k == 0 || id < nsym {
        id
    } else {
        let next = if bits[i] {
            right[id] as int
        } else {
            left[id] as int
        };
        follow(left, right, nsym, next, bits, i + 1, (k - 1) as nat)
    }
}

/// Every walk through decode structures that hold a code ends at a symbol
/// within (longest length - `tb`) steps, whatever bits it reads: every
/// fixed-table entry is a symbol or a node, every node's children are too,
/// and nodes lie less deep than the longest code.
pub proof fn lemma_walk_reaches_leaf(
    table: Seq<u16>,
    left: Seq<u16>,
    right: Seq<u16>,
    lens: Seq<u8>,
    tb: nat,
    longest: nat,
    i0: int,
    bits: Seq<bool>,
)
    requires
        tables_hold_code(table, left, right, lens, tb),
        forall|t: int| 0 <= t < lens.len() ==> lens[t] <= longest,
        tb <= longest,
        0 <= i0 < table.len(),
    ensures
        follow(left, right, lens.len() as int, table[i0] as int, bits, 0, (longest - tb) as nat) < lens.len(),
{
    let nodes = choose|nodes: Map<(int, int), int>| trie_of(table, left, right, nodes, lens, tb as int);
    let id = table[i0] as int;
    if id >= lens.len() {
        assert(nodes.contains_key((tb as int, i0)));
        assert(slot(table, left, right, nodes, tb as int, tb as int, i0) == table[i0]);
    }
    lemma_follow_from(table, left, right, nodes, lens, tb as int, longest, (tb as int, i0), id, bits, 0, (longest - tb) as nat);
}

proof fn lemma_follow_from(
    table: Seq<u16>,
    left: Seq<u16>,
    right: Seq<u16>,
    nodes: Map<(int, int), int>,
    lens: Seq<u8>,
    tb: int,
    longest: nat,
    key: (int, int),
    id: int,
    bits: Seq<bool>,
    i: int,
    k: nat,
)
    requires
        trie_of(table, left, right, nodes, lens, tb),
        forall|t: int| 0 <= t < lens.len() ==> lens[t] <= longest,
        id >= lens.len() ==> nodes.contains_key(key) && nodes[key] == id && key.0 + k >= longest,
    ensures
        follow(left, right, lens.len() as int, id, bits, i, k) < lens.len(),
    decreases k,
{
    let nsym = lens.len() as int;
    if id >= nsym {
        let t = choose|t: int| 0 <= t < nsym && lens[t] > key.0 && #[trigger] prefix_of(lens, t, key.0) == key.1;
        assert(k > 0);
        let b: int = if bits[i] {
            1
        } else {
            0
        };
        let child = (key.0 + 1, 2 * key.1 + b);
        assert(child.1 / 2 == key.1);
        let next = slot(table, left, right, nodes, tb, child.0, child.1);
        assert(nodes_placed(table, left, right, nodes, tb, nsym));
        assert(next == if bits[i] {
            right[id] as int
        } else {
            left[id] as int
        });
        if next >= nsym {
            assert(nodes.contains_key(child));
            assert(slot(table, left, right, nodes, tb, child.0, child.1) == nodes[child]);
        }
        lemma_follow_from(table, left, right, nodes, lens, tb, longest, child, next, bits, i + 1, (k - 1) as nat);
    }
}

/// `2^k` for the small exponents that code lengths need.
pub fn pow2_u64(k: usize) -> (r: u64)
    requires
        k <= 32,
    ensures
        r == pow2(k as nat),
        r <= 0x1_0000_0000,
        k <= 16 ==> r <= 65536,
{
    proof {
        lemma2_to64();
        if k < 16 {
            lemma_pow2_strictly_increases(k as nat, 16);
        }
        if k < 32 {
            lemma_pow2_strictly_increases(k as nat, 32);
        }
        lemma_u64_shl_is_mul(1u64, k as u64);
    }
    1u64 << k as u64
}

/// Builds the decode structures for the canonical code of
/// `bit_lengths[..num_symbols]`: `codes` receives each used symbol's code
/// (left-aligned in 16 bits); `table`, indexed by the leading `table_bits`
/// bits of the input, receives the symbol of each code that short, and for
/// longer codes the root of a trie in `left` / `right` whose internal nodes
/// are numbered consecutively from `num_symbols`, all below
/// `2 * num_symbols - 1`; no other entry of `left` / `right` is touched.
///
/// Fails with `MalformedSrcData` exactly when a length exceeds 16 or the
/// codes do not fill the code space exactly. On success the structures
/// hold the code (`tables_hold_code`): every fixed-table entry inside a
/// short code's range holds that code's symbol, and every longer code's
/// bits lead through the trie to its symbol.
#[verifier::loop_isolation(false)]
pub fn build_huffman_table(
    num_symbols: usize,
    bit_lengths: &[u8],
    table_bits: usize,
    table: &mut [u16],
    left: &mut [u16],
    right: &mut [u16],
    codes: &mut [u32],
) -> (r: Result<(), DecompressError>)
    requires
        1 <= num_symbols <= 510,
        num_symbols <= bit_lengths@.len(),
        num_symbols <= old(codes)@.len(),
        1 <= table_bits <= 12,
        old(table)@.len() == pow2(table_bits as nat),
        2 * num_symbols - 1 <= old(left)@.len(),
        2 * num_symbols - 1 <= old(right)@.len(),
    ensures
        final(table)@.len() == old(table)@.len(),
        final(left)@.len() == old(left)@.len(),
        final(right)@.len() == old(right)@.len(),
        final(codes)@.len() == old(codes)@.len(),
        r is Ok <==> valid_lengths(bit_lengths@.subrange(0, num_symbols as int)),
        r is Err ==> r == Err::<(), DecompressError>(DecompressError::MalformedSrcData),
        r is Err ==> final(table)@ == old(table)@ && final(left)@ == old(left)@ && final(right)@ == old(right)@,
        r is Ok ==> forall|s: int|
            0 <= s < num_symbols && bit_lengths@[s] > 0 ==> final(codes)@[s] == code16(
                bit_lengths@.subrange(0, num_symbols as int),
                s,
            ),
        forall|j: int|
            0 <= j < old(left)@.len() && !(num_symbols <= j < 2 * num_symbols - 1) ==> final(left)@[j] == old(
                left,
            )@[j],
        forall|j: int|
            0 <= j < old(right)@.len() && !(num_symbols <= j < 2 * num_symbols - 1) ==> final(right)@[j] == old(
                right,
            )@[j],
        r is Ok ==> tables_hold_code(
            final(table)@,
            final(left)@,
            final(right)@,
            bit_lengths@.subrange(0, num_symbols as int),
            table_bits as nat,
        ),
{
    let ghost lens = bit_lengths@.subrange(0, num_symbols as int);
    // how many symbols have each length
    let mut count: [u64; 17] = [0u64; 17];
    let mut i: usize = 0;
    while i < num_symbols
        invariant
            i <= num_symbols <= bit_lengths@.len(),
            num_symbols <= NODE_CAP,
            lens == bit_lengths@.subrange(0, num_symbols as int),
            forall|j: int| 0 <= j < i ==> lens[j] <= 16,
            forall|l: int| 0 <= l < 17 ==> count@[l] == count_below(lens, l, i as int),
        decreases num_symbols - i,
    {
        let l = bit_lengths[i];
        assert(lens[i as int] == l);
        if l > 16 {
            return Err(DecompressError::MalformedSrcData);
        }
        proof {
            lemma_count_below_le(lens, l as int, i as int);
        }
        count[l as usize] = count[l as usize] + 1;
        i = i + 1;
    }
    // start[l]: where the codes of length l begin in the 16-bit code space
    let mut start: [u64; 18] = [0u64; 18];
    let mut l: usize = 1;
    while l <= 16
        invariant
            1 <= l <= 17,
            num_symbols <= NODE_CAP,
            lens.len() == num_symbols,
            forall|j: int| 0 <= j < 17 ==> count@[j] == count_below(lens, j, num_symbols as int),
            forall|j: int| 1 <= j <= l ==> start@[j] == kraft_below(lens, j),
            forall|j: int| 1 <= j <= l ==> start@[j] <= (j - 1) * 33423360,
        decreases 17 - l,
    {
        let w = pow2_u64(16 - l);
        proof {
            lemma_count_below_le(lens, l as int, num_symbols as int);
            lemma_pow2_strictly_increases((16 - l) as nat, 16);
            lemma2_to64();
            assert(count@[l as int] * w <= 1019 * 32768) by (nonlinear_arith)
                requires count@[l as int] <= 1019, w <= 32768;
        }
        assert(kraft_below(lens, l as int + 1) == kraft_below(lens, l as int) + count_below(
            lens,
            l as int,
            lens.len() as int,
        ) * pow2((16 - l) as nat));
        start[l + 1] = start[l] + count[l] * w;
        l = l + 1;
    }
    proof {
        lemma2_to64();
    }
    if start[17] != 65536 {
        return Err(DecompressError::MalformedSrcData);
    }
    assert(valid_lengths(lens));
    let ext = 16 - table_bits;
    // clear the entries that lead into the trie
    proof {
        lemma_kraft_monotone(lens, table_bits as int + 1, 17);
    }
    let first_long = start[table_bits + 1];
    assert(first_long >> ext as u64 <= 65536) by (bit_vector)
        requires first_long <= 65536;
    proof {
        vstd::bits::lemma_u64_shr_is_div(first_long, ext as u64);
        lemma_kraft_aligned(lens, table_bits as int + 1);
        lemma_pow2_pos((16 - table_bits) as nat);
    }
    let mut z: usize = (first_long >> ext as u64) as usize;
    let ghost lo: int = z as int;
    proof {
        let d = pow2((16 - table_bits) as nat);
        let k = kraft_below(lens, table_bits as int + 1);
        assert(lo * d == k) by (nonlinear_arith)
            requires k % d == 0, d > 0, lo == k / d;
    }
    while z < table.len()
        invariant
            lo <= z,
            table@.len() == old(table)@.len(),
            forall|i: int| lo <= i < z ==> table@[i] == 0,
        decreases table@.len() - z,
    {
        table[z] = 0;
        z = z + 1;
    }
    proof {
        lemma_inv_init(table@, left@, right@, lens, table_bits as int, lo);
    }
    let ghost mut nodes: Map<(int, int), int> = Map::empty();
    let mut next = start;
    assert forall|j: int| 1 <= j <= 16 implies next@[j] == kraft_below(lens, j) + count_below(
        lens,
        j,
        0,
    ) * pow2((16 - j) as nat) by {
        assert(count_below(lens, j, 0) == 0);
    }
    let mut next_node: usize = num_symbols;
    let mut s: usize = 0;
    while s < num_symbols
        invariant
            s <= num_symbols <= bit_lengths@.len(),
            num_symbols <= old(codes)@.len(),
            num_symbols <= next_node <= 2 * num_symbols - 1,
            1 <= table_bits <= 12,
            ext == 16 - table_bits,
            lens == bit_lengths@.subrange(0, num_symbols as int),
            valid_lengths(lens),
            forall|j: int|
                1 <= j <= 16 ==> next@[j] == kraft_below(lens, j) + count_below(lens, j, s as int)
                    * pow2((16 - j) as nat),
            forall|t: int| 0 <= t < s && lens[t] > 0 ==> codes@[t] == code16(lens, t),
            codes@.len() == old(codes)@.len(),
            table@.len() == old(table)@.len(),
            table@.len() == pow2(table_bits as nat),
            left@.len() == old(left)@.len(),
            right@.len() == old(right)@.len(),
            forall|t: int, i: int|
                0 <= t < s && 0 < lens[t] <= table_bits && 0 <= i < table@.len()
                    && #[trigger] in_code_range(lens, table_bits as nat, t, i) ==> table@[i] == t,
            0 <= lo,
            lo * pow2((16 - table_bits) as nat) == kraft_below(lens, table_bits as int + 1),
            trie_inv(table@, left@, right@, nodes, lens, table_bits as int, lo, s as int, s as int, next_node as int),
            forall|j: int|
                0 <= j < left@.len() && !(num_symbols <= j < 2 * num_symbols - 1) ==> left@[j] == old(left)@[j],
            forall|j: int|
                0 <= j < right@.len() && !(num_symbols <= j < 2 * num_symbols - 1) ==> right@[j] == old(right)@[j],
            lens.len() == num_symbols,
        decreases num_symbols - s,
    {
        let len = bit_lengths[s] as usize;
        assert(len == lens[s as int]);
        if len > 0 {
            let code = next[len];
            let width = pow2_u64(16 - len);
            proof {
                lemma_code_fits(lens, s as int);
                lemma2_to64();
            }
            assert(code == code16(lens, s as int));
            codes[s] = code as u32;
            if len <= table_bits {
                // every entry whose leading bits are this code
                assert(code >> ext as u64 <= 65536) by (bit_vector)
                    requires code <= 65536;
                proof {
                    vstd::bits::lemma_u64_shr_is_div(code, ext as u64);
                    lemma_code_range_fits(lens, table_bits as nat, s as int);
                    lemma2_to64();
                }
                let lo_s = (code >> ext as u64) as usize;
                let run = pow2_u64(table_bits - len) as usize;
                assert(lo_s == code16(lens, s as int) / pow2((16 - table_bits) as nat));
                proof {
                    if table_bits < 16 && run > 0 {
                        lemma_code_range(lens, table_bits as nat, s as int, (lo_s + run - 1) as int);
                        lemma_short_before_lo(lens, table_bits as nat, s as int, (lo_s + run - 1) as int, lo);
                    }
                    lemma_pow2_pos((table_bits - len) as nat);
                }
                let mut k: usize = 0;
                while k < run
                    invariant
                        lo_s + run <= table@.len(),
                        k <= run,
                        run == pow2((table_bits - len) as nat),
                        lo_s == code16(lens, s as int) / pow2((16 - table_bits) as nat),
                        s < num_symbols <= NODE_CAP,
                        0 < len <= table_bits,
                        len == lens[s as int],
                        table@.len() == old(table)@.len(),
                        forall|i: int| lo_s <= i < lo_s + k ==> table@[i] == s,
                        trie_inv(table@, left@, right@, nodes, lens, table_bits as int, lo, s as int, s as int, next_node as int),
                        lo_s + run <= lo,
                        forall|t: int, i: int|
                            0 <= t < s && 0 < lens[t] <= table_bits && 0 <= i < table@.len()
                                && #[trigger] in_code_range(lens, table_bits as nat, t, i) ==> table@[i] == t,
                    decreases run - k,
                {
                    proof {
                        lemma_code_range(lens, table_bits as nat, s as int, (lo_s + k) as int);
                        assert forall|t: int|
                            0 <= t < s && 0 < lens[t] <= table_bits implies !#[trigger] in_code_range(
                            lens,
                            table_bits as nat,
                            t,
                            (lo_s + k) as int,
                        ) by {
                            lemma_code_ranges_disjoint(lens, table_bits as nat, s as int, t, (lo_s + k) as int);
                        }
                        lemma_inv_table_write(
                            table@,
                            left@,
                            right@,
                            nodes,
                            lens,
                            table_bits as int,
                            lo,
                            s as int,
                            s as int,
                            next_node as int,
                            (lo_s + k) as int,
                            s as u16,
                        );
                    }
                    table[lo_s + k] = s as u16;
                    k = k + 1;
                }
                assert forall|i: int|
                    0 <= i < table@.len() && #[trigger] in_code_range(lens, table_bits as nat, s as int, i)
                        implies table@[i] == s by {
                    lemma_code_range(lens, table_bits as nat, s as int, i);
                }
                proof {
                    lemma_inv_skip(table@, left@, right@, nodes, lens, table_bits as int, lo, s as int, next_node as int);
                }
            } else {
                assert(code >> ext as u64 <= 65536) by (bit_vector)
                    requires code <= 65536;
                proof {
                    vstd::bits::lemma_u64_shr_is_div(code, ext as u64);
                    lemma_long_root(lens, table_bits as nat, s as int, lo);
                    lemma2_to64();
                }
                let root = (code >> ext as u64) as usize;
                assert forall|t: int|
                    0 <= t < s && 0 < lens[t] <= table_bits implies !#[trigger] in_code_range(
                    lens,
                    table_bits as nat,
                    t,
                    root as int,
                ) by {
                    lemma_root_past_short_codes(lens, table_bits as nat, t, s as int);
                }
                let ghost old_next = next_node;
                let Ghost(nodes2) = self::insert_long_code(
                    s,
                    code,
                    len,
                    root,
                    num_symbols,
                    table_bits,
                    table,
                    left,
                    right,
                    &mut next_node,
                    Ghost(lens),
                    Ghost(lo),
                    Ghost(nodes),
                );
                proof {
                    nodes = nodes2;
                }
            }
            proof {
                let ps = pow2((16 - len) as nat);
                let cb = count_below(lens, len as int, s as int);
                assert((cb + 1) * ps == cb * ps + ps) by (nonlinear_arith);
            }
            next[len] = code + width;
        } else {
            proof {
                lemma_inv_skip(table@, left@, right@, nodes, lens, table_bits as int, lo, s as int, next_node as int);
            }
        }
        s = s + 1;
    }
    proof {
        lemma_inv_final(table@, left@, right@, nodes, lens, table_bits as int, lo, next_node as int);
    }
    Ok(())
}

/// Walks the trie from `table[root]` along the bits of `code` past the
/// first `table_bits`, adding the nodes that are missing (numbered from
/// `next_node` on), and stores `symbol` where the walk ends. `nodes`
/// records the trie's nodes by prefix; the records after the insertion are
/// returned.
#[verifier::loop_isolation(false)]
#[verifier::rlimit(40)]
fn insert_long_code(
    symbol: usize,
    code: u64,
    len: usize,
    root: usize,
    num_symbols: usize,
    table_bits: usize,
    table: &mut [u16],
    left: &mut [u16],
    right: &mut [u16],
    next_node: &mut usize,
    Ghost(lens): Ghost<Seq<u8>>,
    Ghost(lo): Ghost<int>,
    Ghost(nodes): Ghost<Map<(int, int), int>>,
) -> (r: Ghost<Map<(int, int), int>>)
    requires
        lens_ok(lens, table_bits as int),
        valid_lengths(lens),
        lens.len() == num_symbols,
        symbol < num_symbols,
        lens[symbol as int] == len,
        table_bits < len <= 16,
        code == code16(lens, symbol as int),
        code < 65536,
        root == prefix_of(lens, symbol as int, table_bits as int),
        0 <= lo <= root < old(table)@.len(),
        trie_inv(old(table)@, old(left)@, old(right)@, nodes, lens, table_bits as int, lo, symbol as int, symbol as int, *old(next_node) as int),
        num_symbols <= *old(next_node) <= 2 * num_symbols - 1,
        2 * num_symbols - 1 <= old(left)@.len(),
        2 * num_symbols - 1 <= old(right)@.len(),
    ensures
        final(table)@.len() == old(table)@.len(),
        final(left)@.len() == old(left)@.len(),
        final(right)@.len() == old(right)@.len(),
        *old(next_node) <= *final(next_node) <= 2 * num_symbols - 1,
        forall|i: int| 0 <= i < final(table)@.len() && i != root ==> final(table)@[i] == old(table)@[i],
        forall|j: int|
            0 <= j < old(left)@.len() && !(num_symbols <= j < 2 * num_symbols - 1) ==> final(left)@[j] == old(
                left,
            )@[j],
        forall|j: int|
            0 <= j < old(right)@.len() && !(num_symbols <= j < 2 * num_symbols - 1) ==> final(right)@[j] == old(
                right,
            )@[j],
        trie_inv(final(table)@, final(left)@, final(right)@, r@, lens, table_bits as int, lo, symbol + 1, symbol + 1, *final(next_node) as int),
{
    let ghost tb = table_bits as int;
    let ghost sy = symbol as int;
    let ghost mut nodes = nodes;
    proof {
        reveal(trie_inv);
        assert forall|p: (int, int)| #[trigger] nodes.contains_key(p) implies exists|t: int|
            0 <= t < sy + 1 && lens[t] > p.0 && #[trigger] prefix_of(lens, t, p.0) == p.1 by {
            let t = choose|t: int| 0 <= t < sy && lens[t] > p.0 && #[trigger] prefix_of(lens, t, p.0) == p.1;
        }
        assert(trie_inv(table@, left@, right@, nodes, lens, tb, lo, sy, sy + 1, *next_node as int));
    }
    // the slot being looked at: 0 = table entry, 1 = left child, 2 = right child
    let mut kind: u8 = 0;
    let mut idx: usize = root;
    let mut depth: usize = table_bits;
    let ghost first = *next_node;
    while depth < len
        invariant
            table_bits <= depth <= len <= 16,
            kind <= 2,
            kind == 0 <==> depth == table_bits,
            kind == 0 ==> idx == root,
            kind != 0 ==> nodes.contains_key((depth - 1, prefix_of(lens, sy, depth - 1)))
                && idx == nodes[(depth - 1, prefix_of(lens, sy, depth - 1))],
            kind == 2 <==> (kind != 0 && prefix_of(lens, sy, depth as int) % 2 == 1),
            forall|m: int| tb <= m < depth ==> #[trigger] nodes.contains_key((m, prefix_of(lens, sy, m))),
            slot_exists(table@.len() as int, nodes, tb, lo, depth as int, prefix_of(lens, sy, depth as int)),
            trie_inv(table@, left@, right@, nodes, lens, tb, lo, sy, sy + 1, *next_node as int),
            forall|i: int| 0 <= i < table@.len() && i != root ==> table@[i] == old(table)@[i],
            forall|j: int|
                0 <= j < left@.len() && !(num_symbols <= j < 2 * num_symbols - 1) ==> left@[j] == old(left)@[j],
            forall|j: int|
                0 <= j < right@.len() && !(num_symbols <= j < 2 * num_symbols - 1) ==> right@[j] == old(right)@[j],
            kind != 0 ==> num_symbols <= idx < *next_node,
            first <= *next_node <= 2 * num_symbols - 1,
            num_symbols <= first,
            table@.len() == old(table)@.len(),
            left@.len() == old(left)@.len(),
            right@.len() == old(right)@.len(),
        decreases len - depth,
    {
        let ghost pv = prefix_of(lens, sy, depth as int);
        proof {
            lemma_prefix_step(lens, sy, depth - 1);
            if kind != 0 {
                assert(pv / 2 == prefix_of(lens, sy, depth - 1));
            }
            lemma_walk_slot(table@, left@, right@, nodes, lens, tb, lo, sy, *next_node as int, depth as int);
        }
        let mut cur: usize = if kind == 0 {
            table[idx] as usize
        } else if kind == 1 {
            left[idx] as usize
        } else {
            right[idx] as usize
        };
        assert(cur == slot(table@, left@, right@, nodes, tb, depth as int, pv));
        if cur == 0 {
            proof {
                lemma_alloc_room(table@, left@, right@, nodes, lens, tb, lo, sy, *next_node as int, depth as int);
            }
            let n = *next_node;
            let ghost t0 = table@;
            let ghost l0 = left@;
            let ghost r0 = right@;
            if kind == 0 {
                table[idx] = n as u16;
            } else if kind == 1 {
                left[idx] = n as u16;
            } else {
                right[idx] = n as u16;
            }
            let ghost t1 = table@;
            let ghost l1 = left@;
            let ghost r1 = right@;
            assert(slot_written(t0, l0, r0, nodes, tb, depth as int, pv, n as u16, t1, l1, r1));
            left[n] = 0;
            right[n] = 0;
            *next_node = n + 1;
            proof {
                lemma_alloc_preserves(t0, l0, r0, nodes, lens, tb, lo, sy, n as int, depth as int, t1, l1, r1);
                nodes = nodes.insert((depth as int, pv), n as int);
            }
            cur = n;
        }
        proof {
            reveal(trie_inv);
        }
        assert(nodes.contains_key((depth as int, pv)) && cur == nodes[(depth as int, pv)]);
        assert(num_symbols <= cur < *next_node);
        let bit = (code >> (15 - depth) as u64) & 1;
        proof {
            vstd::bits::lemma_u64_shr_is_div(code, (15 - depth) as u64);
            let c = code >> (15 - depth) as u64;
            assert(c & 1 == c % 2) by (bit_vector);
            lemma_prefix_step(lens, sy, depth as int);
        }
        kind = if bit == 1 {
            2
        } else {
            1
        };
        idx = cur;
        depth = depth + 1;
    }
    let ghost t0 = table@;
    let ghost l0 = left@;
    let ghost r0 = right@;
    if kind == 0 {
        table[idx] = symbol as u16;
    } else if kind == 1 {
        left[idx] = symbol as u16;
    } else {
        right[idx] = symbol as u16;
    }
    proof {
        lemma_prefix_step(lens, sy, depth - 1);
        assert(slot_written(t0, l0, r0, nodes, tb, depth as int, prefix_of(lens, sy, depth as int), symbol as u16, table@, left@, right@));
        lemma_leaf_preserves(t0, l0, r0, nodes, lens, tb, lo, sy, *next_node as int, table@, left@, right@);
    }
    Ghost(nodes)
}

/// Whether symbol `t`'s code is the next bits of the input.
fn code_is_next(reader: &BitReader, t: usize, bit_lengths: &[u8], codes: &[u32], num_symbols: usize) -> (r: bool)
    requires
        reader.wf(),
        t < num_symbols <= bit_lengths@.len(),
        num_symbols <= codes@.len(),
        bit_lengths@[t as int] > 0 ==> codes@[t as int] == code16(
            bit_lengths@.subrange(0, num_symbols as int),
            t as int,
        ),
    ensures
        r == code_matches(bit_lengths@.subrange(0, num_symbols as int), t as int, reader.data(), reader.pos()),
{
    let l = bit_lengths[t] as usize;
    if l == 0 || l > 16 {
        return false;
    }
    match reader.peek_bits(l) {
        None => false,
        Some(v) => {
            let w = pow2_u64(16 - l);
            proof {
                lemma_bits_be_bound(reader.data(), reader.pos(), l as nat);
                lemma_pow2_adds(l as nat, (16 - l) as nat);
                lemma2_to64();
                assert(v * w < 65536) by (nonlinear_arith)
                    requires v < pow2(l as nat), w == pow2((16 - l) as nat), pow2(l as nat) * w == 65536;
            }
            v as u64 * w == codes[t] as u64
        },
    }
}

/// What a table describes, as a `HuffCode`.
pub open spec fn table_code(single: Option<u16>, bit_lengths: Seq<u8>, num_symbols: nat) -> HuffCode {
    match single {
        Some(c) => HuffCode::Single(c as nat),
        None => HuffCode::Lengths(bit_lengths.subrange(0, num_symbols as int)),
    }
}

/// Decodes one symbol and moves the reader past its code. `single` holds
/// the symbol of a one-symbol table; otherwise the table, the trie and
/// `codes` are those that `build_huffman_table` made for
/// `bit_lengths[..num_symbols]`. The fixed table, indexed by the next
/// `table_bits` bits, and then the trie give the only symbol whose code can
/// start here; it is taken when its code is indeed the next bits.
#[verifier::loop_isolation(false)]
pub fn decode_symbol(
    reader: &mut BitReader,
    table: &[u16],
    left: &[u16],
    right: &[u16],
    bit_lengths: &[u8],
    codes: &[u32],
    num_symbols: usize,
    table_bits: usize,
    single: Option<u16>,
) -> (r: Option<usize>)
    requires
        old(reader).wf(),
        1 <= table_bits <= 12,
        num_symbols <= bit_lengths@.len(),
        num_symbols <= codes@.len(),
        single is None ==> {
            &&& table@.len() == pow2(table_bits as nat)
            &&& 2 * num_symbols - 1 <= left@.len()
            &&& 2 * num_symbols - 1 <= right@.len()
            &&& tables_hold_code(table@, left@, right@, bit_lengths@.subrange(0, num_symbols as int), table_bits as nat)
            &&& forall|s: int|
                0 <= s < num_symbols && bit_lengths@[s] > 0 ==> codes@[s] == code16(
                    bit_lengths@.subrange(0, num_symbols as int),
                    s,
                )
        },
    ensures
        final(reader).wf(),
        final(reader).data() == old(reader).data(),
        match decode_spec(
            table_code(single, bit_lengths@, num_symbols as nat),
            table_bits as nat,
            old(reader).data(),
            old(reader).pos(),
        ) {
            None => r is None,
            Some((t, p)) => r == Some(t as usize) && final(reader).pos() == p,
        },
{
    let ghost lens = bit_lengths@.subrange(0, num_symbols as int);
    let ghost data = reader.data();
    let ghost pos = reader.pos();
    let ghost tb = table_bits as int;
    if !reader.has_bits(table_bits) {
        return None;
    }
    if let Some(c) = single {
        return Some(c as usize);
    }
    let idx = match reader.peek_bits(table_bits) {
        Some(v) => v as usize,
        None => return None,
    };
    proof {
        lemma_bits_be_bound(data, pos, table_bits as nat);
    }
    let ghost nodes = choose|nodes: Map<(int, int), int>| trie_of(table@, left@, right@, nodes, lens, tb);
    let mut cand = table[idx] as usize;
    let mut depth: usize = table_bits;
    // the node that `cand` is, when it is one
    let ghost mut key: (int, int) = (tb, idx as int);
    assert(cand >= num_symbols ==> nodes.contains_key(key) && cand == nodes[key]) by {
        if cand >= num_symbols {
            assert(table@[idx as int] >= lens.len());
            assert(slot(table@, left@, right@, nodes, tb, tb, idx as int) == table@[idx as int]);
        }
    }
    proof {
        assert forall|t: int| #[trigger] code_matches(lens, t, data, pos) implies {
            &&& lens[t] <= tb ==> cand == t
            &&& lens[t] > tb ==> cand == slot(table@, left@, right@, nodes, tb, tb, prefix_of(lens, t, tb))
        } by {
            if lens[t] <= tb {
                lemma_matched_short(lens, table_bits as nat, t, data, pos);
            } else {
                lemma_matched_prefix(lens, t, data, pos, tb);
            }
        }
    }
    while cand >= num_symbols && depth < 16 && reader.has_bits(depth + 1)
        invariant
            reader.wf(),
            reader.data() == data,
            reader.pos() == pos,
            table_bits <= depth <= 16,
            cand >= num_symbols ==> nodes.contains_key(key) && cand == nodes[key] && key.0 == depth,
            forall|t: int| #[trigger] code_matches(lens, t, data, pos) ==> {
                &&& lens[t] <= tb ==> cand == t
                &&& lens[t] > tb ==> depth <= lens[t] && cand == slot(
                    table@,
                    left@,
                    right@,
                    nodes,
                    tb,
                    depth as int,
                    prefix_of(lens, t, depth as int),
                )
            },
        decreases 16 - depth,
    {
        let b = reader.bit_after(depth);
        let ghost child = (key.0 + 1, 2 * key.1 + b as int);
        proof {
            assert(child.1 / 2 == key.1);
            if b == 1 {
                assert(slot(table@, left@, right@, nodes, tb, child.0, child.1) == right@[cand as int]);
            } else {
                assert(slot(table@, left@, right@, nodes, tb, child.0, child.1) == left@[cand as int]);
            }
        }
        proof {
            assert forall|t: int| #[trigger] code_matches(lens, t, data, pos) implies {
                &&& lens[t] > tb
                &&& depth < lens[t]
                &&& cand == nodes[(depth as int, prefix_of(lens, t, depth as int))]
                &&& b == prefix_of(lens, t, depth + 1) % 2
                &&& prefix_of(lens, t, depth + 1) / 2 == prefix_of(lens, t, depth as int)
            } by {
                assert(code_in_trie(table@, left@, right@, nodes, lens, tb, t));
                if depth as int == lens[t] as int {
                    assert(cand == t);
                }
                let key = (depth as int, prefix_of(lens, t, depth as int));
                assert(nodes.contains_key(key));
                lemma_matched_bit(lens, t, data, pos, depth as int);
            }
        }
        cand = if b == 1 {
            right[cand] as usize
        } else {
            left[cand] as usize
        };
        depth = depth + 1;
        proof {
            key = child;
        }
    }
    proof {
        assert forall|t: int| #[trigger] code_matches(lens, t, data, pos) implies cand == t by {
            if lens[t] > tb {
                assert(code_in_trie(table@, left@, right@, nodes, lens, tb, t));
                if depth < lens[t] {
                    let key = (depth as int, prefix_of(lens, t, depth as int));
                    assert(nodes.contains_key(key));
                }
            }
        }
    }
    if cand < num_symbols && code_is_next(reader, cand, bit_lengths, codes, num_symbols) {
        proof {
            lemma_codeword_decodes(lens, table_bits as nat, cand as int, data, pos);
        }
        reader.skip_bits(bit_lengths[cand] as usize);
        return Some(cand);
    }
    None
}

/// A decoded symbol is one of the alphabet's.
pub proof fn lemma_decode_range(code: HuffCode, tb: nat, s: Seq<u8>, pos: int, nsym: nat)
    requires
        code matches HuffCode::Single(c) ==> c < nsym,
        code matches HuffCode::Lengths(l) ==> l.len() == nsym,
    ensures
        decode_spec(code, tb, s, pos) matches Some((t, _)) ==> t < nsym,
{
}

} // verus!
