//! A cursor over a byte slice read as one sequence of bits, most significant
//! bit of each byte first.
use vstd::arithmetic::power2::{lemma2_to64, lemma_pow2_pos, lemma_pow2_unfold, pow2};
use vstd::prelude::*;

verus! {

/// The bit at index `i` of `s`: bit `7 - i % 8` of byte `i / 8`.
pub open spec fn bit_at(s: Seq<u8>, i: int) -> nat {
    ((s[i / 8] >> ((7 - i % 8) as u8)) & 1u8) as nat
}

/// The `n` bits of `s` starting at bit index `p`, read as an unsigned integer
/// whose most significant bit comes first.
pub open spec fn bits_be(s: Seq<u8>, p: int, n: nat) -> nat
    decreases n,
{
    if n == 0 {
        0
    } else {
        bits_be(s, p, (n - 1) as nat) * 2 + bit_at(s, p + n - 1)
    }
}

/// Number of bits in `s`.
pub open spec fn total_bits(s: Seq<u8>) -> int {
    8 * s.len() as int
}

pub proof fn lemma_bit_at_le_one(s: Seq<u8>, i: int)
    ensures
        bit_at(s, i) <= 1,
{
    let b = s[i / 8];
    let k = (7 - i % 8) as u8;
    assert((b >> k) & 1u8 <= 1u8) by (bit_vector);
}

pub proof fn lemma_bits_be_bound(s: Seq<u8>, p: int, n: nat)
    ensures
        bits_be(s, p, n) < pow2(n),
    decreases n,
{
    if n == 0 {
        lemma2_to64();
    } else {
        lemma_bits_be_bound(s, p, (n - 1) as nat);
        lemma_bit_at_le_one(s, p + n - 1);
        lemma_pow2_unfold(n);
    }
}

/// Reading `n + d` bits is reading `n` bits, then `d` more.
pub proof fn lemma_bits_be_split(s: Seq<u8>, p: int, n: nat, d: nat)
    ensures
        bits_be(s, p, n + d) == bits_be(s, p, n) * pow2(d) + bits_be(s, p + n, d),
    decreases d,
{
    if d == 0 {
        lemma2_to64();
    } else {
        lemma_bits_be_split(s, p, n, (d - 1) as nat);
        assert(bits_be(s, p, n + d) == bits_be(s, p, (n + d - 1) as nat) * 2 + bit_at(s, p + n + d - 1));
        assert(bits_be(s, p + n, d) == bits_be(s, p + n, (d - 1) as nat) * 2 + bit_at(s, p + n + d - 1));
        lemma_pow2_unfold(d);
        let a = bits_be(s, p, n);
        let b = bits_be(s, p + n, (d - 1) as nat);
        let q = pow2((d - 1) as nat);
        assert((a * q + b) * 2 == a * (2 * q) + b * 2) by (nonlinear_arith);
    }
}

/// Bits that lie past the end of a shorter prefix do not depend on it.
pub proof fn lemma_bits_be_prefix(s: Seq<u8>, p: int, n: nat, d: nat)
    ensures
        bits_be(s, p, n + d) / pow2(d) == bits_be(s, p, n),
{
    lemma_bits_be_split(s, p, n, d);
    lemma_bits_be_bound(s, p + n, d);
    lemma_pow2_pos(d);
    vstd::arithmetic::div_mod::lemma_fundamental_div_mod_converse(
        bits_be(s, p, n + d) as int,
        pow2(d) as int,
        bits_be(s, p, n) as int,
        bits_be(s, p + n, d) as int,
    );
}

pub proof fn lemma_index_split(byte: int, p: int)
    requires
        byte >= 0,
        p >= 0,
    ensures
        (8 * byte + p) / 8 == byte + p / 8,
        (8 * byte + p) % 8 == p % 8,
{
    assert((8 * byte + p) / 8 == byte + p / 8) by (nonlinear_arith)
        requires byte >= 0, p >= 0;
    assert((8 * byte + p) % 8 == p % 8) by (nonlinear_arith)
        requires byte >= 0, p >= 0;
}

/// Cursor over the bits of a byte slice. It only moves forward.
pub struct BitReader<'a> {
    bytes: &'a [u8],
    byte: usize,
    bit: usize,
}

impl<'a> BitReader<'a> {
    pub closed spec fn data(&self) -> Seq<u8> {
        self.bytes@
    }

    /// Index of the next bit to be read.
    pub closed spec fn pos(&self) -> int {
        8 * self.byte + self.bit
    }

    pub closed spec fn wf(&self) -> bool {
        &&& self.bit < 8
        &&& self.byte <= self.bytes@.len()
        &&& self.byte == self.bytes@.len() ==> self.bit == 0
    }

    pub proof fn lemma_pos_bound(&self)
        requires
            self.wf(),
        ensures
            0 <= self.pos() <= total_bits(self.data()),
    {
    }

    pub fn new(bytes: &'a [u8]) -> (r: Self)
        ensures
            r.wf(),
            r.data() == bytes@,
            r.pos() == 0,
    {
        BitReader { bytes, byte: 0, bit: 0 }
    }

    /// Whether `n` more bits can be read.
    pub fn has_bits(&self, n: usize) -> (r: bool)
        requires
            self.wf(),
            n <= 64,
        ensures
            r == (self.pos() + n <= total_bits(self.data())),
    {
        let need = (self.bit + n + 7) / 8;
        let rem = self.bytes.len() - self.byte;
        proof {
            let b = self.byte as int;
            let len = self.bytes@.len() as int;
            let k = self.bit + n;
            assert((k + 7) / 8 <= len - b <==> k <= 8 * (len - b)) by (nonlinear_arith)
                requires k >= 0, len - b >= 0;
        }
        rem >= need
    }

    /// The bit `offset` places after the cursor.
    pub fn bit_after(&self, offset: usize) -> (r: u8)
        requires
            self.wf(),
            offset < 64,
            self.pos() + offset < total_bits(self.data()),
        ensures
            r as nat == bit_at(self.data(), self.pos() + offset),
            r <= 1,
    {
        let p = self.bit + offset;
        let len = self.bytes.len();
        proof {
            lemma_index_split(self.byte as int, p as int);
            assert(self.byte + p / 8 < self.bytes@.len()) by (nonlinear_arith)
                requires 8 * self.byte + p < 8 * self.bytes@.len(), p >= 0;
        }
        let b = self.bytes[self.byte + p / 8];
        let k = (7 - p % 8) as u8;
        let r = (b >> k) & 1u8;
        assert(r <= 1) by (bit_vector)
            requires r == (b >> k) & 1u8;
        r
    }

    /// The next `n` bits as an integer, most significant first, without
    /// moving the cursor; `None` when fewer than `n` bits remain.
    pub fn peek_bits(&self, n: usize) -> (r: Option<u32>)
        requires
            self.wf(),
            n <= 32,
        ensures
            r == (if self.pos() + n <= total_bits(self.data()) {
                Some(bits_be(self.data(), self.pos(), n as nat) as u32)
            } else {
                None::<u32>
            }),
            r matches Some(v) ==> v == bits_be(self.data(), self.pos(), n as nat),
    {
        if !self.has_bits(n) {
            return None;
        }
        let mut acc: u64 = 0;
        let mut i: usize = 0;
        while i < n
            invariant
                self.wf(),
                n <= 32,
                i <= n,
                self.pos() + n <= total_bits(self.data()),
                acc == bits_be(self.data(), self.pos(), i as nat),
            decreases n - i,
        {
            let b = self.bit_after(i);
            proof {
                lemma_bits_be_bound(self.data(), self.pos(), i as nat);
                vstd::arithmetic::power2::lemma_pow2_strictly_increases(i as nat, 32);
                lemma2_to64();
            }
            acc = acc * 2 + b as u64;
            i = i + 1;
        }
        proof {
            lemma_bits_be_bound(self.data(), self.pos(), n as nat);
            if n < 32 {
                vstd::arithmetic::power2::lemma_pow2_strictly_increases(n as nat, 32);
            }
            lemma2_to64();
        }
        Some(acc as u32)
    }

    /// Moves the cursor `n` bits forward.
    pub fn skip_bits(&mut self, n: usize)
        requires
            old(self).wf(),
            n <= 64,
            old(self).pos() + n <= total_bits(old(self).data()),
        ensures
            final(self).wf(),
            final(self).data() == old(self).data(),
            final(self).pos() == old(self).pos() + n,
    {
        let p = self.bit + n;
        let len = self.bytes.len();
        proof {
            assert(8 * (self.byte + p / 8) + p % 8 == 8 * self.byte + p) by (nonlinear_arith)
                requires p >= 0;
            assert(self.byte + p / 8 <= self.bytes@.len()) by (nonlinear_arith)
                requires 8 * self.byte + p <= 8 * self.bytes@.len(), p >= 0;
            assert(self.byte + p / 8 == self.bytes@.len() ==> p % 8 == 0) by (nonlinear_arith)
                requires 8 * self.byte + p <= 8 * self.bytes@.len(), p >= 0;
        }
        self.byte = self.byte + p / 8;
        self.bit = p % 8;
    }

    /// The next `n` bits as an integer, most significant first, and the
    /// cursor past them; `None`, with the cursor unmoved, when fewer than `n`
    /// bits remain.
    pub fn pop_bits(&mut self, n: usize) -> (r: Option<u32>)
        requires
            old(self).wf(),
            n <= 32,
        ensures
            final(self).wf(),
            final(self).data() == old(self).data(),
            old(self).pos() + n <= total_bits(old(self).data()) ==> {
                &&& r == Some(bits_be(old(self).data(), old(self).pos(), n as nat) as u32)
                &&& final(self).pos() == old(self).pos() + n
            },
            old(self).pos() + n > total_bits(old(self).data()) ==> {
                &&& r is None
                &&& final(self).pos() == old(self).pos()
            },
            r matches Some(v) ==> v == bits_be(old(self).data(), old(self).pos(), n as nat),
    {
        let r = self.peek_bits(n);
        if r.is_some() {
            self.skip_bits(n);
        }
        r
    }
}

} // verus!
