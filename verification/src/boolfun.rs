//! The Boolean-function universe: truth tables of arity `n` packed into a
//! 64-bit word, with the canonical order (arity, then packed bits as
//! unsigned).

use vstd::prelude::*;
use core::cmp::Ordering;
use vstd::arithmetic::power2::{pow2, lemma2_to64, lemma2_to64_rest, lemma_pow2_strictly_increases};

verus! {

/// A Boolean function of `n` inputs: the truth-table outputs packed into
/// `bits`, least significant bit first (bit 0 is input pattern 0…0).
#[derive(Clone, Copy, Debug, Eq, PartialEq, Hash, Structural)]
pub struct BoolFun {
    pub n: u8,
    pub bits: u64,
}

/// The number of set bits in a non-negative integer.
pub open spec fn popcount(x: nat) -> nat
    decreases x,
{
    if x == 0 {
        0
    } else {
        (x % 2 + popcount(x / 2)) as nat
    }
}

/// A value below 2^k has at most k set bits.
pub proof fn lemma_popcount_bound(x: nat, k: nat)
    requires
        x < pow2(k),
    ensures
        popcount(x) <= k,
    decreases k,
{
    if k == 0 {
        assert(pow2(0) == 1) by {
            lemma2_to64();
        }
    } else if x > 0 {
        assert(pow2(k) == 2 * pow2((k - 1) as nat)) by {
            vstd::arithmetic::power2::lemma_pow2_unfold(k);
        }
        lemma_popcount_bound(x / 2, (k - 1) as nat);
    }
}

/// Counts the set bits of a 64-bit word.
pub fn popcount64(x: u64) -> (r: u32)
    ensures
        r == popcount(x as nat),
        r <= 64,
{
    proof {
        lemma2_to64_rest();
        lemma_popcount_bound(x as nat, 64);
    }
    let mut v = x;
    let mut c: u32 = 0;
    while v != 0
        invariant
            c + popcount(v as nat) == popcount(x as nat),
            popcount(x as nat) <= 64,
        decreases v,
    {
        c = c + (v % 2) as u32;
        v = v / 2;
    }
    c
}

impl BoolFun {
    /// Arities up to 6 keep the whole table in one 64-bit word.
    pub open spec fn wf(self) -> bool {
        self.n <= 6
    }

    /// Number of rows in the truth table: 2^n.
    pub open spec fn spec_rows(self) -> nat {
        pow2(self.n as nat)
    }

    /// Mask of the live output bits: the low 2^n bits.
    pub open spec fn spec_mask(self) -> u64 {
        (pow2(self.spec_rows()) - 1) as u64
    }

    /// Hamming weight of the truth table: the number of rows that map to 1.
    pub open spec fn spec_weight(self) -> nat {
        popcount((self.bits & self.spec_mask()) as nat)
    }

    /// Number of rows in the truth table, 2^n.
    pub fn rows(&self) -> (r: u32)
        requires
            self.wf(),
        ensures
            r == self.spec_rows(),
            1 <= r <= 64,
    {
        proof {
            lemma2_to64();
        }
        let mut r: u32 = 1;
        let mut i: u8 = 0;
        while i < self.n
            invariant
                i <= self.n,
                self.n <= 6,
                r == pow2(i as nat),
                r <= 64,
            decreases self.n - i,
        {
            proof {
                vstd::arithmetic::power2::lemma_pow2_unfold((i + 1) as nat);
                lemma2_to64();
                if i + 1 < 6 {
                    lemma_pow2_strictly_increases((i + 1) as nat, 6);
                }
            }
            r = r * 2;
            i = i + 1;
        }
        r
    }

    /// Mask of valid output bits (the low 2^n bits).
    pub fn mask(&self) -> (r: u64)
        requires
            self.wf(),
        ensures
            r == self.spec_mask(),
    {
        let rows = self.rows();
        proof {
            lemma2_to64();
            lemma2_to64_rest();
        }
        if rows == 64 {
            u64::MAX
        } else {
            let mut m: u64 = 1;
            let mut i: u32 = 0;
            while i < rows
                invariant
                    i <= rows,
                    rows <= 63,
                    m == pow2(i as nat),
                    m <= 0x8000_0000_0000_0000,
                decreases rows - i,
            {
                proof {
                    vstd::arithmetic::power2::lemma_pow2_unfold((i + 1) as nat);
                    lemma2_to64_rest();
                    if i + 1 < 63 {
                        lemma_pow2_strictly_increases((i + 1) as nat, 63);
                    }
                }
                m = m * 2;
                i = i + 1;
            }
            m - 1
        }
    }

    /// Canonical bytes for hashing: 9 bytes, the arity then the table
    /// big-endian.
    pub fn canonical_bytes(&self) -> (r: Vec<u8>)
        ensures
            r@ == bf_bytes(*self),
            r@.len() == 9,
    {
        let mut out: Vec<u8> = Vec::new();
        out.push(self.n);
        push_be64(&mut out, self.bits);
        proof {
            assert(out@ =~= bf_bytes(*self));
        }
        out
    }

    /// Hamming weight: the number of 1 outputs in the truth table.
    pub fn weight(&self) -> (r: u32)
        requires
            self.wf(),
        ensures
            r == self.spec_weight(),
    {
        popcount64(self.bits & self.mask())
    }

    /// Hamming distance between two functions of the same arity; the
    /// sentinel `u32::MAX` when the arities differ (incomparable).
    pub fn hamming(&self, other: &Self) -> (r: u32)
        requires
            self.wf(),
        ensures
            r == spec_hamming(*self, *other),
    {
        if self.n != other.n {
            return u32::MAX;
        }
        popcount64((self.bits ^ other.bits) & self.mask())
    }
}

/// Hamming distance, with `u32::MAX` as the incomparable sentinel.
pub open spec fn spec_hamming(a: BoolFun, b: BoolFun) -> u32 {
    if a.n != b.n {
        u32::MAX
    } else {
        popcount(((a.bits ^ b.bits) & a.spec_mask()) as nat) as u32
    }
}

/// Distinct truth tables of the same arity differ in a live bit, so their
/// distance is positive; a function is at distance zero from itself.
pub proof fn lemma_hamming_zero(a: BoolFun, b: BoolFun)
    requires
        a.wf(),
        b.wf(),
        a.n == b.n,
        a.bits & a.spec_mask() == a.bits,
        b.bits & b.spec_mask() == b.bits,
    ensures
        spec_hamming(a, b) == 0 <==> a == b,
{
    if a == b {
        let x = a.bits;
        let m = a.spec_mask();
        assert((x ^ x) & m == 0) by (bit_vector);
    }
    if spec_hamming(a, b) == 0 {
        let m = a.spec_mask();
        let x = a.bits;
        let y = b.bits;
        lemma2_to64_rest();
        lemma_popcount_bound(((x ^ y) & m) as nat, 64);
        lemma_popcount_zero(((x ^ y) & m) as nat);
        assert(x == y) by (bit_vector)
            requires
                (x ^ y) & m == 0,
                x & m == x,
                y & m == y,
        ;
    }
}

proof fn lemma_popcount_zero(x: nat)
    ensures
        popcount(x) == 0 <==> x == 0,
    decreases x,
{
    if x > 0 && x % 2 == 0 {
        lemma_popcount_zero(x / 2);
    }
}

/// The 8 big-endian bytes of a 64-bit value.
pub open spec fn be64(v: int) -> Seq<u8> {
    seq![
        (v / 0x100_0000_0000_0000 % 0x100) as u8,
        (v / 0x1_0000_0000_0000 % 0x100) as u8,
        (v / 0x100_0000_0000 % 0x100) as u8,
        (v / 0x1_0000_0000 % 0x100) as u8,
        (v / 0x100_0000 % 0x100) as u8,
        (v / 0x1_0000 % 0x100) as u8,
        (v / 0x100 % 0x100) as u8,
        (v % 0x100) as u8,
    ]
}

/// Canonical 9-byte encoding: arity byte, then the packed table big-endian.
pub open spec fn bf_bytes(f: BoolFun) -> Seq<u8> {
    seq![f.n] + be64(f.bits as int)
}

/// Appends the 8 big-endian bytes of a 64-bit value.
pub fn push_be64(out: &mut Vec<u8>, v: u64)
    ensures
        final(out)@ == old(out)@ + be64(v as int),
{
    out.push((v / 0x100_0000_0000_0000) as u8);
    out.push((v / 0x1_0000_0000_0000 % 0x100) as u8);
    out.push((v / 0x100_0000_0000 % 0x100) as u8);
    out.push((v / 0x1_0000_0000 % 0x100) as u8);
    out.push((v / 0x100_0000 % 0x100) as u8);
    out.push((v / 0x1_0000 % 0x100) as u8);
    out.push((v / 0x100 % 0x100) as u8);
    out.push((v % 0x100) as u8);
    proof {
        assert(final(out)@ =~= old(out)@ + be64(v as int));
    }
}

/// The canonical order: arity ascending, then packed bits as unsigned.
pub open spec fn spec_bf_cmp(a: BoolFun, b: BoolFun) -> Ordering {
    let o1 = crate::qe::ord_of_int(a.n as int, b.n as int);
    if o1 != Ordering::Equal {
        o1
    } else {
        crate::qe::ord_of_int(a.bits as int, b.bits as int)
    }
}

pub open spec fn bf_lt(a: BoolFun, b: BoolFun) -> bool {
    spec_bf_cmp(a, b) == Ordering::Less
}

pub open spec fn bf_le_of(a: BoolFun, b: BoolFun) -> bool {
    bf_lt(a, b) || a == b
}

/// The canonical order as a relation.
pub open spec fn bf_le() -> spec_fn(BoolFun, BoolFun) -> bool {
    |a: BoolFun, b: BoolFun| bf_le_of(a, b)
}

/// The canonical Boolean-function order is a total order.
pub proof fn lemma_bf_le_total_ordering()
    ensures
        vstd::relations::total_ordering(bf_le()),
{
}

/// Strictness facts for the canonical Boolean-function order.
pub proof fn lemma_bf_lt_strict(x: BoolFun, y: BoolFun, z: BoolFun)
    ensures
        !bf_lt(x, x),
        bf_lt(x, y) && bf_lt(y, z) ==> bf_lt(x, z),
        x != y ==> (bf_lt(x, y) <==> !bf_lt(y, x)),
{
}

/// Canonical comparison: arity ascending, then bits ascending.
pub fn canonical_cmp(a: &BoolFun, b: &BoolFun) -> (r: Ordering)
    ensures
        r == spec_bf_cmp(*a, *b),
{
    if a.n != b.n {
        return if a.n < b.n {
            Ordering::Less
        } else {
            Ordering::Greater
        };
    }
    if a.bits < b.bits {
        Ordering::Less
    } else if a.bits == b.bits {
        Ordering::Equal
    } else {
        Ordering::Greater
    }
}

/// Builds the Boolean-function universe of arity `n`: all `2^(2^n)` truth
/// tables, in canonical order (which equals the unsigned order on the packed
/// bits).
///
/// A single 64-bit word could pack tables up to arity 6, but the universe
/// itself cannot be materialized that far: arity 6 means `2^64` tables (past
/// the address space, and past what one word can count), and arity 5 means
/// `2^32` tables at many gigabytes. The builder therefore stops at arity 4,
/// the largest arity a run can actually hold; the executor refuses larger
/// arities as schema errors.
pub fn build_boolfun(n: u8) -> (r: Vec<BoolFun>)
    requires
        n <= 4,
    ensures
        r@.len() == pow2(pow2(n as nat)),
        forall|i: int| 0 <= i < r@.len() ==> r@[i] == (BoolFun { n, bits: i as u64 }),
{
    proof {
        lemma2_to64();
    }
    let rows: u32 = {
        let f = BoolFun { n, bits: 0 };
        f.rows()
    };
    proof {
        lemma2_to64();
        if (n as nat) < 4 {
            lemma_pow2_strictly_increases(n as nat, 4);
        }
        assert(rows <= 16);
    }
    let total: u64 = {
        let mut m: u64 = 1;
        let mut i: u32 = 0;
        while i < rows
            invariant
                i <= rows,
                rows <= 16,
                m == pow2(i as nat),
                m <= 0x1_0000,
            decreases rows - i,
        {
            proof {
                vstd::arithmetic::power2::lemma_pow2_unfold((i + 1) as nat);
                lemma2_to64();
                if i + 1 < 16 {
                    lemma_pow2_strictly_increases((i + 1) as nat, 16);
                }
            }
            m = m * 2;
            i = i + 1;
        }
        m
    };
    let mut v: Vec<BoolFun> = Vec::new();
    let mut bits: u64 = 0;
    while bits < total
        invariant
            bits <= total,
            total <= 0x1_0000,
            v@.len() == bits,
            forall|i: int| 0 <= i < v@.len() ==> v@[i] == (BoolFun { n, bits: i as u64 }),
        decreases total - bits,
    {
        v.push(BoolFun { n, bits });
        bits = bits + 1;
    }
    v
}

/// Only `0` and `1` characters.
pub open spec fn is_bits_str(s: Seq<char>) -> bool {
    forall|k: int| 0 <= k < s.len() ==> s[k] == '0' || s[k] == '1'
}

/// The value of a binary string read left-to-right, most significant bit
/// first.
pub open spec fn bin_val(s: Seq<char>) -> int
    decreases s.len(),
{
    if s.len() == 0 {
        0
    } else {
        bin_val(s.drop_last()) * 2 + (if s[s.len() - 1] == '1' {
            1int
        } else {
            0int
        })
    }
}

pub proof fn lemma_bin_val_bound(s: Seq<char>)
    ensures
        0 <= bin_val(s) < pow2(s.len()),
    decreases s.len(),
{
    if s.len() == 0 {
        lemma2_to64();
    } else {
        lemma_bin_val_bound(s.drop_last());
        vstd::arithmetic::power2::lemma_pow2_unfold(s.len());
    }
}

/// The arity for which a binary string of length `l` is a full truth table:
/// `l` must be a power of two no greater than 64.
pub open spec fn log2_len(l: int) -> Option<int> {
    if l == 1 {
        Some(0int)
    } else if l == 2 {
        Some(1int)
    } else if l == 4 {
        Some(2int)
    } else if l == 8 {
        Some(3int)
    } else if l == 16 {
        Some(4int)
    } else if l == 32 {
        Some(5int)
    } else if l == 64 {
        Some(6int)
    } else {
        None
    }
}

/// What `parse_elem` accepts, after whitespace trimming:
/// `0xHHHH` (hex, arity 4, low 16 bits kept), `u16:D` (decimal, arity 4),
/// or `bin:B` (a full truth table, arity inferred from the length).
pub open spec fn spec_parse_elem(s: Seq<char>) -> Option<BoolFun> {
    let t = crate::strnum::trim_of(s);
    if t.len() >= 2 && t[0] == '0' && (t[1] == 'x' || t[1] == 'X') {
        let h = crate::strnum::trim_of(t.subrange(2, t.len() as int));
        match crate::strnum::spec_parse_u64_radix(h, 16) {
            Some(v) => Some(BoolFun { n: 4, bits: v & 0xffff }),
            None => None,
        }
    } else if t.len() >= 4 && t[0] == 'u' && t[1] == '1' && t[2] == '6' && t[3] == ':' {
        let d = crate::strnum::trim_of(t.subrange(4, t.len() as int));
        match crate::strnum::spec_parse_u64(d) {
            Some(v) => Some(BoolFun { n: 4, bits: v & 0xffff }),
            None => None,
        }
    } else if t.len() >= 4 && t[0] == 'b' && t[1] == 'i' && t[2] == 'n' && t[3] == ':' {
        let b = crate::strnum::trim_of(t.subrange(4, t.len() as int));
        if b.len() == 0 || !is_bits_str(b) {
            None
        } else {
            match log2_len(b.len() as int) {
                None => None,
                Some(n) => Some(BoolFun { n: n as u8, bits: bin_val(b) as u64 }),
            }
        }
    } else {
        None
    }
}

/// Parses an element: `"0xHHHH"` (arity 4), `"u16:D"` (arity 4), or
/// `"bin:0101…"` whose length is a power of two, read most significant bit
/// first.
pub fn parse_elem(s: &str) -> (r: Option<BoolFun>)
    ensures
        r == spec_parse_elem(s@),
        r is Some ==> r->Some_0.wf(),
{
    let t = crate::strnum::trim(s);
    let n = t.unicode_len();
    if n >= 2 && t.get_char(0) == '0' && (t.get_char(1) == 'x' || t.get_char(1) == 'X') {
        let rest = t.substring_char(2, n);
        proof {
            assert(rest@ == t@.subrange(2, n as int));
        }
        let h = crate::strnum::trim(rest);
        match crate::strnum::parse_u64_radix(h, 16) {
            Some(v) => Some(BoolFun { n: 4, bits: v & 0xffff }),
            None => None,
        }
    } else if n >= 4 && t.get_char(0) == 'u' && t.get_char(1) == '1' && t.get_char(2) == '6'
        && t.get_char(3) == ':' {
        let rest = t.substring_char(4, n);
        proof {
            assert(rest@ == t@.subrange(4, n as int));
        }
        let d = crate::strnum::trim(rest);
        match crate::strnum::parse_u64_str(d) {
            Some(v) => Some(BoolFun { n: 4, bits: v & 0xffff }),
            None => None,
        }
    } else if n >= 4 && t.get_char(0) == 'b' && t.get_char(1) == 'i' && t.get_char(2) == 'n'
        && t.get_char(3) == ':' {
        let rest = t.substring_char(4, n);
        proof {
            assert(rest@ == t@.subrange(4, n as int));
        }
        let b = crate::strnum::trim(rest);
        let m = b.unicode_len();
        let arity: u8 = if m == 1 {
            0
        } else if m == 2 {
            1
        } else if m == 4 {
            2
        } else if m == 8 {
            3
        } else if m == 16 {
            4
        } else if m == 32 {
            5
        } else if m == 64 {
            6
        } else {
            return None;
        };
        let mut bits: u64 = 0;
        let mut i: usize = 0;
        proof {
            lemma2_to64();
            lemma2_to64_rest();
        }
        while i < m
            invariant
                i <= m,
                m == b@.len(),
                1 <= m <= 64,
                t@ == crate::strnum::trim_of(s@),
                n == t@.len(),
                n >= 4 && t@[0] == 'b' && t@[1] == 'i' && t@[2] == 'n' && t@[3] == ':',
                b@ == crate::strnum::trim_of(t@.subrange(4, n as int)),
                forall|k: int| 0 <= k < i ==> b@[k] == '0' || b@[k] == '1',
                bits == bin_val(b@.take(i as int)),
                bits < pow2(i as nat),
            decreases m - i,
        {
            let c = b.get_char(i);
            if c != '0' && c != '1' {
                proof {
                    assert(!is_bits_str(b@)) by {
                        assert(b@[i as int] != '0' && b@[i as int] != '1');
                    }
                }
                return None;
            }
            proof {
                assert(b@.take(i + 1).drop_last() =~= b@.take(i as int));
                assert(b@.take(i + 1)[i as int] == b@[i as int]);
                vstd::arithmetic::power2::lemma_pow2_unfold((i + 1) as nat);
                lemma_pow2_le64((i + 1) as nat);
            }
            bits = bits * 2 + (if c == '1' {
                1
            } else {
                0
            });
            i = i + 1;
        }
        proof {
            assert(b@.take(m as int) =~= b@);
            lemma_bin_val_bound(b@);
        }
        Some(BoolFun { n: arity, bits })
    } else {
        None
    }
}

proof fn lemma_pow2_le64(k: nat)
    requires
        1 <= k <= 64,
    ensures
        pow2(k) <= 0x1_0000_0000_0000_0000,
{
    lemma2_to64_rest();
    if k < 64 {
        lemma_pow2_strictly_increases(k, 64);
    }
}

} // verus!
