//! The rational universe: reduced fractions in a bounded box, with the
//! canonical total order that governs sorting, Merkle leaf layout and
//! witness tie-breaks.

use vstd::prelude::*;
use core::cmp::Ordering;

verus! {

/// A rational number. Universe elements are always stored in lowest terms
/// with a positive denominator.
#[derive(Clone, Copy, Debug, Eq, PartialEq, Hash, Structural)]
pub struct Frac {
    pub num: i32,
    pub den: i32,
}

/// `d` divides `x` over the integers.
pub open spec fn divides(d: int, x: int) -> bool {
    exists|k: int| x == #[trigger] (d * k)
}

/// `n` and `d` have no common divisor greater than one.
pub open spec fn coprime(n: int, d: int) -> bool {
    forall|c: int| 2 <= c ==> !(divides(c, n) && divides(c, d))
}

pub open spec fn spec_abs(x: int) -> int {
    if x < 0 {
        -x
    } else {
        x
    }
}

impl Frac {
    /// Machine-level well-formedness: positive denominator and a numerator
    /// whose absolute value fits in `i32`.
    pub open spec fn wf(self) -> bool {
        1 <= self.den && -0x7fff_ffff <= self.num
    }

    /// The fraction is in lowest terms.
    pub open spec fn reduced(self) -> bool {
        coprime(spec_abs(self.num as int), self.den as int)
    }

    /// Membership in the rational universe: reduced, denominator in [1, 200],
    /// numerator in [-200, 200].
    pub open spec fn in_universe(self) -> bool {
        &&& 1 <= self.den <= 200
        &&& -200 <= self.num <= 200
        &&& self.reduced()
    }
}

pub open spec fn ord_of_int(x: int, y: int) -> Ordering {
    if x < y {
        Ordering::Less
    } else if x == y {
        Ordering::Equal
    } else {
        Ordering::Greater
    }
}

/// Exact numeric comparison of two fractions by cross-multiplication.
pub open spec fn spec_cmp_value(a: Frac, b: Frac) -> Ordering {
    ord_of_int(a.num * b.den, b.num * a.den)
}

/// The canonical total order: numeric value, then |numerator| ascending,
/// then denominator ascending, then signed numerator ascending.
pub open spec fn spec_canonical_cmp(a: Frac, b: Frac) -> Ordering {
    let o1 = spec_cmp_value(a, b);
    if o1 != Ordering::Equal {
        o1
    } else {
        let o2 = ord_of_int(spec_abs(a.num as int), spec_abs(b.num as int));
        if o2 != Ordering::Equal {
            o2
        } else {
            let o3 = ord_of_int(a.den as int, b.den as int);
            if o3 != Ordering::Equal {
                o3
            } else {
                ord_of_int(a.num as int, b.num as int)
            }
        }
    }
}

pub open spec fn canonical_lt(a: Frac, b: Frac) -> bool {
    spec_canonical_cmp(a, b) == Ordering::Less
}

/// Non-strict canonical order, extended to a total order over all `Frac`
/// values: well-formed fractions come first in canonical order, the rest
/// in field-lexicographic order.
pub open spec fn canonical_le(a: Frac, b: Frac) -> bool {
    if a.wf() && b.wf() {
        canonical_lt(a, b) || a == b
    } else if a.wf() {
        true
    } else if b.wf() {
        false
    } else {
        a.num < b.num || (a.num == b.num && a.den <= b.den)
    }
}

/// The canonical order as a binary relation, for use with `sorted_by`.
pub open spec fn frac_le() -> spec_fn(Frac, Frac) -> bool {
    |a: Frac, b: Frac| canonical_le(a, b)
}

proof fn lemma_canonical_cmp_equal(a: Frac, b: Frac)
    ensures
        spec_canonical_cmp(a, b) == Ordering::Equal <==> a == b,
{
}

proof fn lemma_cmp_value_flip(a: Frac, b: Frac)
    ensures
        spec_cmp_value(a, b) == Ordering::Less <==> spec_cmp_value(b, a) == Ordering::Greater,
        spec_cmp_value(a, b) == Ordering::Equal <==> spec_cmp_value(b, a) == Ordering::Equal,
{
}

/// Transitivity of the exact value comparison, for positive denominators.
proof fn lemma_cmp_value_le_trans(a: Frac, b: Frac, c: Frac)
    requires
        a.wf(),
        b.wf(),
        c.wf(),
        spec_cmp_value(a, b) != Ordering::Greater,
        spec_cmp_value(b, c) != Ordering::Greater,
    ensures
        spec_cmp_value(a, c) != Ordering::Greater,
        spec_cmp_value(a, b) == Ordering::Less || spec_cmp_value(b, c) == Ordering::Less
            ==> spec_cmp_value(a, c) == Ordering::Less,
{
    let (a1, d1) = (a.num as int, a.den as int);
    let (a2, d2) = (b.num as int, b.den as int);
    let (a3, d3) = (c.num as int, c.den as int);
    assert(a1 * d2 <= a2 * d1 && a2 * d3 <= a3 * d2 && d1 >= 1 && d2 >= 1 && d3 >= 1
        ==> a1 * d3 <= a3 * d1) by (nonlinear_arith);
    assert(a1 * d2 < a2 * d1 && a2 * d3 <= a3 * d2 && d1 >= 1 && d2 >= 1 && d3 >= 1
        ==> a1 * d3 < a3 * d1) by (nonlinear_arith);
    assert(a1 * d2 <= a2 * d1 && a2 * d3 < a3 * d2 && d1 >= 1 && d2 >= 1 && d3 >= 1
        ==> a1 * d3 < a3 * d1) by (nonlinear_arith);
}

/// The canonical order (as extended over all values) is a total order, as
/// `vstd`'s sorting lemmas require.
pub proof fn lemma_frac_le_total_ordering()
    ensures
        vstd::relations::total_ordering(frac_le()),
{
    let r = frac_le();
    assert forall|a: Frac| #[trigger] r(a, a) by {
        lemma_canonical_cmp_equal(a, a);
    }
    assert forall|a: Frac, b: Frac| #![trigger r(a, b), r(b, a)] r(a, b) && r(b, a) implies a
        == b by {
        if a.wf() && b.wf() {
            lemma_cmp_value_flip(a, b);
            lemma_canonical_cmp_equal(a, b);
        }
    }
    assert forall|a: Frac, b: Frac, c: Frac| #![trigger r(a, b), r(b, c)] r(a, b) && r(b, c)
        implies r(a, c) by {
        if a.wf() && b.wf() && c.wf() {
            lemma_canonical_le_trans(a, b, c);
        }
    }
    assert forall|a: Frac, b: Frac| #![trigger r(a, b), r(b, a)] r(a, b) || r(b, a) by {
        if a.wf() && b.wf() {
            lemma_cmp_value_flip(a, b);
            lemma_canonical_cmp_equal(a, b);
        }
    }
}

proof fn lemma_canonical_le_trans(a: Frac, b: Frac, c: Frac)
    requires
        a.wf(),
        b.wf(),
        c.wf(),
        canonical_le(a, b),
        canonical_le(b, c),
    ensures
        canonical_le(a, c),
{
    if a == b || b == c {
    } else {
        lemma_cmp_value_le_trans(a, b, c);
        lemma_cmp_value_flip(a, b);
        lemma_cmp_value_flip(b, c);
        lemma_cmp_value_flip(a, c);
    }
}

/// Strict canonical order is transitive and irreflexive on well-formed
/// fractions; two distinct well-formed fractions are always strictly ordered
/// one way or the other.
pub proof fn lemma_canonical_lt_strict(a: Frac, b: Frac, c: Frac)
    requires
        a.wf(),
        b.wf(),
        c.wf(),
    ensures
        !canonical_lt(a, a),
        canonical_lt(a, b) && canonical_lt(b, c) ==> canonical_lt(a, c),
        a != b ==> (canonical_lt(a, b) <==> !canonical_lt(b, a)),
{
    lemma_canonical_cmp_equal(a, a);
    lemma_canonical_cmp_equal(a, b);
    lemma_cmp_value_flip(a, b);
    if canonical_lt(a, b) && canonical_lt(b, c) {
        lemma_canonical_le_trans(a, b, c);
        lemma_canonical_cmp_equal(a, c);
        if !canonical_lt(a, c) {
            assert(a == c);
            lemma_canonical_le_trans(b, c, a);
            lemma_canonical_cmp_equal(a, b);
            lemma_cmp_value_flip(b, a);
        }
    }
}

impl Frac {
    /// Compare by exact numeric value via cross-multiplication in 64 bits.
    pub fn cmp_value(&self, other: &Frac) -> (r: Ordering)
        ensures
            r == spec_cmp_value(*self, *other),
    {
        let a = self.num as i64;
        let b = self.den as i64;
        let c = other.num as i64;
        let d = other.den as i64;
        proof {
            assert(-0x8000_0000 <= a <= 0x7fff_ffff && -0x8000_0000 <= d <= 0x7fff_ffff
                ==> -0x4000_0000_0000_0000 <= a * d <= 0x4000_0000_0000_0000) by (nonlinear_arith);
            assert(-0x8000_0000 <= c <= 0x7fff_ffff && -0x8000_0000 <= b <= 0x7fff_ffff
                ==> -0x4000_0000_0000_0000 <= c * b <= 0x4000_0000_0000_0000) by (nonlinear_arith);
        }
        let x = a * d;
        let y = c * b;
        if x < y {
            Ordering::Less
        } else if x == y {
            Ordering::Equal
        } else {
            Ordering::Greater
        }
    }

    /// Absolute value of the numerator.
    pub fn abs_num(&self) -> (r: i32)
        requires
            self.num != i32::MIN,
        ensures
            r == spec_abs(self.num as int),
    {
        if self.num < 0 {
            -self.num
        } else {
            self.num
        }
    }
}

/// The canonical total order used everywhere (sets, Merkle leaves, witness
/// tie-breaks): numeric value, then |numerator|, then denominator, then
/// signed numerator.
pub fn canonical_cmp(a: &Frac, b: &Frac) -> (r: Ordering)
    requires
        a.wf(),
        b.wf(),
    ensures
        r == spec_canonical_cmp(*a, *b),
{
    let o1 = a.cmp_value(b);
    if !matches!(o1, Ordering::Equal) {
        return o1;
    }
    let an = a.abs_num();
    let bn = b.abs_num();
    if an != bn {
        return if an < bn {
            Ordering::Less
        } else {
            Ordering::Greater
        };
    }
    if a.den != b.den {
        return if a.den < b.den {
            Ordering::Less
        } else {
            Ordering::Greater
        };
    }
    if a.num < b.num {
        Ordering::Less
    } else if a.num == b.num {
        Ordering::Equal
    } else {
        Ordering::Greater
    }
}

/// Non-strict canonical comparison of two well-formed fractions.
pub fn frac_le_exec(a: &Frac, b: &Frac) -> (r: bool)
    requires
        a.wf(),
        b.wf(),
    ensures
        r == canonical_le(*a, *b),
{
    proof {
        lemma_canonical_cmp_equal(*a, *b);
    }
    !matches!(canonical_cmp(a, b), Ordering::Greater)
}

/// Euclid's greatest common divisor on non-negative integers;
/// `spec_gcd(0, 0)` is 0.
pub open spec fn spec_gcd(a: int, b: int) -> int
    decreases b,
{
    if b <= 0 {
        a
    } else {
        spec_gcd(b, a % b)
    }
}

proof fn lemma_divides_sub_mul(c: int, x: int, y: int, k: int)
    requires
        divides(c, x),
        divides(c, y),
    ensures
        divides(c, x - y * k),
{
    let k1 = choose|k1: int| x == #[trigger] (c * k1);
    let k2 = choose|k2: int| y == #[trigger] (c * k2);
    assert(x - y * k == c * (k1 - k2 * k)) by (nonlinear_arith)
        requires
            x == c * k1,
            y == c * k2,
    ;
}

/// The gcd divides both arguments, is positive when one is, and every
/// common divisor divides it.
pub proof fn lemma_gcd_props(a: int, b: int)
    requires
        a >= 0,
        b >= 0,
        a > 0 || b > 0,
    ensures
        spec_gcd(a, b) >= 1,
        divides(spec_gcd(a, b), a),
        divides(spec_gcd(a, b), b),
        forall|c: int| 1 <= c && divides(c, a) && divides(c, b) ==> divides(c, spec_gcd(a, b)),
    decreases b,
{
    let g = spec_gcd(a, b);
    if b == 0 {
        assert(a == a * 1);
        assert(0int == a * 0);
    } else {
        vstd::arithmetic::div_mod::lemma_fundamental_div_mod(a, b);
        assert(0 <= a % b < b) by {
            vstd::arithmetic::div_mod::lemma_mod_bound(a, b);
        }
        lemma_gcd_props(b, a % b);
        // g divides b and a % b; a == b * (a / b) + a % b, so g divides a.
        assert(divides(g, a)) by {
            let k1 = choose|k1: int| b == #[trigger] (g * k1);
            let k2 = choose|k2: int| a % b == #[trigger] (g * k2);
            assert(a == g * (k1 * (a / b) + k2)) by (nonlinear_arith)
                requires
                    b == g * k1,
                    a % b == g * k2,
                    a == b * (a / b) + a % b,
            ;
        }
        assert forall|c: int| 1 <= c && divides(c, a) && divides(c, b) implies divides(c, g) by {
            lemma_divides_sub_mul(c, a, b, a / b);
            assert(a - b * (a / b) == a % b);
        }
    }
}

/// A positive divisor of a positive number is no larger than it.
proof fn lemma_divides_le(c: int, x: int)
    requires
        c >= 1,
        x >= 1,
        divides(c, x),
    ensures
        c <= x,
{
    let k = choose|k: int| x == #[trigger] (c * k);
    assert(k >= 1 && c * k >= c) by (nonlinear_arith)
        requires
            x == c * k,
            c >= 1,
            x >= 1,
    ;
}

/// Quotients by the gcd are coprime.
proof fn lemma_gcd_quotients_coprime(na: int, da: int)
    requires
        na >= 0,
        da >= 1,
    ensures
        coprime(na / spec_gcd(na, da), da / spec_gcd(na, da)),
{
    let g = spec_gcd(na, da);
    lemma_gcd_props(na, da);
    let nq = na / g;
    let dq = da / g;
    assert forall|c: int| 2 <= c implies !(divides(c, nq) && divides(c, dq)) by {
        if divides(c, nq) && divides(c, dq) {
            let k1 = choose|k1: int| nq == #[trigger] (c * k1);
            let k2 = choose|k2: int| dq == #[trigger] (c * k2);
            let kn = choose|kn: int| na == #[trigger] (g * kn);
            let kd = choose|kd: int| da == #[trigger] (g * kd);
            assert(nq == kn && dq == kd) by (nonlinear_arith)
                requires
                    na == g * kn,
                    da == g * kd,
                    g >= 1,
                    nq == na / g,
                    dq == da / g,
            ;
            assert(na == (g * c) * k1 && da == (g * c) * k2) by (nonlinear_arith)
                requires
                    na == g * nq,
                    da == g * dq,
                    nq == c * k1,
                    dq == c * k2,
            ;
            assert(divides(g * c, na));
            assert(divides(g * c, da));
            assert(g * c >= 2 * g >= 1) by (nonlinear_arith)
                requires
                    g >= 1,
                    c >= 2,
            ;
            assert(divides(g * c, g));
            lemma_divides_le(g * c, g);
            assert(false) by (nonlinear_arith)
                requires
                    g * c <= g,
                    g >= 1,
                    c >= 2,
            ;
        }
    }
}

/// Reduction to lowest terms with a positive denominator, as a mathematical
/// function.
pub open spec fn spec_reduce(num: int, den: int) -> Frac {
    let n = if den < 0 {
        -num
    } else {
        num
    };
    let d = if den < 0 {
        -den
    } else {
        den
    };
    let g = spec_gcd(spec_abs(n), d);
    Frac { num: (n / g) as i32, den: (d / g) as i32 }
}

/// Euclid's algorithm on machine words.
pub(crate) fn gcd_u32(a0: u32, b0: u32) -> (g: u32)
    ensures
        g == spec_gcd(a0 as int, b0 as int),
    decreases b0,
{
    if b0 == 0 {
        a0
    } else {
        gcd_u32(b0, a0 % b0)
    }
}

impl Frac {
    /// Builds the reduced fraction `num/den` with a positive denominator.
    ///
    /// The result is in lowest terms and keeps the exact value:
    /// `r.num * den == num * r.den`. An input already in lowest terms with a
    /// positive denominator comes back unchanged.
    pub fn new_reduced(num: i32, den: i32) -> (r: Frac)
        requires
            den != 0,
            num != i32::MIN,
            den != i32::MIN,
        ensures
            r == spec_reduce(num as int, den as int),
            r.wf(),
            r.reduced(),
            (r.num as int) * (den as int) == (num as int) * (r.den as int),
            spec_abs(r.num as int) <= spec_abs(num as int),
            1 <= r.den as int <= spec_abs(den as int),
            den > 0 && (Frac { num, den }).reduced() ==> r == (Frac { num, den }),
    {
        let n: i32 = if den < 0 {
            -num
        } else {
            num
        };
        let d: i32 = if den < 0 {
            -den
        } else {
            den
        };
        let na: u32 = if n < 0 {
            (-(n as i64)) as u32
        } else {
            n as u32
        };
        let da: u32 = d as u32;
        let g: u32 = gcd_u32(na, da);
        proof {
            lemma_gcd_props(na as int, da as int);
        }
        let nq: u32 = na / g;
        let dq: u32 = da / g;
        proof {
            let gi = g as int;
            let kn = choose|k: int| na as int == #[trigger] (gi * k);
            let kd = choose|k: int| da as int == #[trigger] (gi * k);
            assert(nq as int == kn && dq as int == kd && kd >= 1 && kn >= 0 && kn <= na as int
                && kd <= da as int) by (nonlinear_arith)
                requires
                    na as int == gi * kn,
                    da as int == gi * kd,
                    gi >= 1,
                    nq as int == na as int / gi,
                    dq as int == da as int / gi,
                    na >= 0,
                    da >= 1,
            ;
            lemma_gcd_quotients_coprime(na as int, da as int);
            // value preservation: nq * da == na * dq
            assert(nq as int * (da as int) == na as int * (dq as int)) by (nonlinear_arith)
                requires
                    na as int == gi * (nq as int),
                    da as int == gi * (dq as int),
            ;
        }
        let r = if n < 0 {
            Frac { num: -(nq as i32), den: dq as i32 }
        } else {
            Frac { num: nq as i32, den: dq as i32 }
        };
        proof {
            let ni = n as int;
            let di = d as int;
            let gi = spec_gcd(spec_abs(ni), di) as int;
            assert(g as int == gi);
            if n < 0 {
                assert(ni / gi == -(na as int / gi)) by (nonlinear_arith)
                    requires
                        ni == -(na as int),
                        divides(gi, na as int),
                        gi >= 1,
                        na as int >= 0,
                {
                    let k = choose|k: int| na as int == #[trigger] (gi * k);
                    assert(na as int == gi * k);
                    vstd::arithmetic::div_mod::lemma_div_multiples_vanish(k, gi);
                    vstd::arithmetic::div_mod::lemma_div_multiples_vanish(-k, gi);
                    assert(ni == gi * (-k));
                }
            }
            // the sign flip of the numerator carries through the product
            assert(r.num as int * (di) == ni * (r.den as int)) by (nonlinear_arith)
                requires
                    nq as int * (da as int) == na as int * (dq as int),
                    r.den as int == dq as int,
                    di == da as int,
                    (n < 0 ==> r.num as int == -(nq as int) && ni == -(na as int)),
                    (n >= 0 ==> r.num as int == nq as int && ni == na as int),
            ;
            // the sign-normalized input keeps the cross-multiplied value
            assert(r.num as int * (den as int) == num as int * (r.den as int)) by (
            nonlinear_arith)
                requires
                    r.num as int * (di) == ni * (r.den as int),
                    (den < 0 ==> ni == -(num as int) && di == -(den as int)),
                    (den >= 0 ==> ni == num as int && di == den as int),
            ;
            if den > 0 && (Frac { num, den }).reduced() {
                assert(spec_gcd(spec_abs(num as int), den as int) >= 2 ==> false) by {
                    lemma_gcd_props(spec_abs(num as int), den as int);
                }
                vstd::arithmetic::div_mod::lemma_div_basics(ni);
                vstd::arithmetic::div_mod::lemma_div_basics(di);
            }
        }
        r
    }
}

/// Big-endian bytes of a 32-bit two's-complement value.
pub open spec fn be32(v: int) -> Seq<u8> {
    seq![
        (v / 0x100_0000 % 0x100) as u8,
        (v / 0x1_0000 % 0x100) as u8,
        (v / 0x100 % 0x100) as u8,
        (v % 0x100) as u8,
    ]
}

/// The two's-complement 32-bit image of a signed value.
pub open spec fn to_u32_2c(x: int) -> int {
    if x >= 0 {
        x
    } else {
        x + 0x1_0000_0000
    }
}

/// Canonical 8-byte encoding of a fraction: numerator then denominator,
/// each big-endian 32-bit signed.
pub open spec fn frac_bytes(f: Frac) -> Seq<u8> {
    be32(to_u32_2c(f.num as int)) + be32(to_u32_2c(f.den as int))
}

/// Appends the 4 big-endian bytes of a 32-bit signed value.
pub fn push_be32(out: &mut Vec<u8>, x: i32)
    ensures
        final(out)@ == old(out)@ + be32(to_u32_2c(x as int)),
{
    let u: u32 = if x >= 0 {
        x as u32
    } else {
        0xffff_ffffu32 - ((-((x as i64) + 1)) as u32)
    };
    proof {
        assert(u as int == to_u32_2c(x as int));
    }
    let b0: u8 = (u / 0x100_0000) as u8;
    let b1: u8 = (u / 0x1_0000 % 0x100) as u8;
    let b2: u8 = (u / 0x100 % 0x100) as u8;
    let b3: u8 = (u % 0x100) as u8;
    out.push(b0);
    out.push(b1);
    out.push(b2);
    out.push(b3);
    proof {
        assert(final(out)@ =~= old(out)@ + be32(u as int));
    }
}

impl Frac {
    /// Canonical bytes for hashing and Merkle leaves: 8 bytes, numerator and
    /// denominator big-endian.
    pub fn canonical_bytes(&self) -> (r: Vec<u8>)
        ensures
            r@ == frac_bytes(*self),
            r@.len() == 8,
    {
        let mut out: Vec<u8> = Vec::new();
        push_be32(&mut out, self.num);
        push_be32(&mut out, self.den);
        proof {
            assert(out@ =~= frac_bytes(*self));
        }
        out
    }
}

/// First position of `c` in `s`.
pub open spec fn first_at(s: Seq<char>, c: char) -> Option<int>
    decreases s.len(),
{
    if s.len() == 0 {
        None
    } else if s[0] == c {
        Some(0)
    } else {
        match first_at(s.drop_first(), c) {
            Some(i) => Some(i + 1),
            None => None,
        }
    }
}

pub proof fn lemma_first_at(s: Seq<char>, c: char)
    ensures
        match first_at(s, c) {
            Some(i) => 0 <= i < s.len() && s[i] == c && forall|k: int| 0 <= k < i ==> s[k] != c,
            None => forall|k: int| 0 <= k < s.len() ==> s[k] != c,
        },
    decreases s.len(),
{
    if s.len() > 0 && s[0] != c {
        lemma_first_at(s.drop_first(), c);
        match first_at(s.drop_first(), c) {
            Some(i) => {
                assert(s.drop_first()[i] == s[i + 1]);
                assert forall|k: int| 0 <= k < i + 1 implies s[k] != c by {
                    if k > 0 {
                        assert(s.drop_first()[k - 1] == s[k]);
                    }
                }
            },
            None => {
                assert forall|k: int| 0 <= k < s.len() implies s[k] != c by {
                    if k > 0 {
                        assert(s.drop_first()[k - 1] == s[k]);
                    }
                }
            },
        }
    }
}

/// Finds the first occurrence of `c` in `s`.
pub fn find_char(s: &str, c: char) -> (r: Option<usize>)
    ensures
        match r {
            Some(i) => first_at(s@, c) == Some(i as int),
            None => first_at(s@, c) is None,
        },
{
    let n = s.unicode_len();
    let mut i: usize = 0;
    while i < n
        invariant
            0 <= i <= n,
            n == s@.len(),
            forall|k: int| 0 <= k < i ==> s@[k] != c,
        decreases n - i,
    {
        if s.get_char(i) == c {
            proof {
                lemma_first_at(s@, c);
                match first_at(s@, c) {
                    Some(j) => {
                        assert(j == i as int);
                    },
                    None => {
                        assert(false);
                    },
                }
            }
            return Some(i);
        }
        i = i + 1;
    }
    proof {
        lemma_first_at(s@, c);
    }
    None
}

/// What `parse_frac` accepts: exactly one `/` in the trimmed input, a
/// signed 32-bit numerator to its left, a signed non-zero 32-bit denominator
/// to its right; the result in lowest terms.
pub open spec fn spec_parse_frac(s: Seq<char>) -> Option<Frac> {
    let t = crate::strnum::trim_of(s);
    match first_at(t, '/') {
        None => None,
        Some(i) => {
            let left = t.take(i);
            let right = t.subrange(i + 1, t.len() as int);
            if first_at(right, '/') is Some {
                None
            } else {
                match (crate::strnum::spec_parse_i32(left), crate::strnum::spec_parse_i32(
                    right,
                )) {
                    (Some(n), Some(d)) => if d == 0 || n == i32::MIN || d == i32::MIN {
                        None
                    } else {
                        Some(spec_reduce(n as int, d as int))
                    },
                    _ => None,
                }
            }
        },
    }
}

/// Parses `"a/b"` into a reduced fraction.
pub fn parse_frac(s: &str) -> (r: Option<Frac>)
    ensures
        r == spec_parse_frac(s@),
        r is Some ==> r->Some_0.wf() && r->Some_0.reduced(),
{
    let t = crate::strnum::trim(s);
    let n = t.unicode_len();
    let slash = match find_char(t, '/') {
        None => {
            return None;
        },
        Some(i) => i,
    };
    proof {
        lemma_first_at(t@, '/');
    }
    let rest = t.substring_char(slash + 1, n);
    proof {
        assert(rest@ == t@.subrange(slash + 1, n as int));
    }
    if find_char(rest, '/').is_some() {
        return None;
    }
    let num = match crate::strnum::parse_i32_range(t, 0, slash) {
        None => {
            proof {
                assert(t@.subrange(0, slash as int) =~= t@.take(slash as int));
            }
            return None;
        },
        Some(v) => v,
    };
    proof {
        assert(t@.subrange(0, slash as int) =~= t@.take(slash as int));
    }
    let den = match crate::strnum::parse_i32_range(t, slash + 1, n) {
        None => {
            return None;
        },
        Some(v) => v,
    };
    if den == 0 || num == i32::MIN || den == i32::MIN {
        return None;
    }
    Some(Frac::new_reduced(num, den))
}

/// Builds the rational universe: every reduced fraction with denominator in
/// [1, 200] and numerator in [-200, 200], exactly once, in canonical order.
pub fn build_qe() -> (r: Vec<Frac>)
    ensures
        forall|k: int, l: int|
            0 <= k < l < r@.len() ==> canonical_lt(#[trigger] r@[k], #[trigger] r@[l]),
        forall|f: Frac| r@.contains(f) <==> f.in_universe(),
        forall|k: int| 0 <= k < r@.len() ==> (#[trigger] r@[k]).in_universe(),
{
    let mut v: Vec<Frac> = Vec::new();
    let mut den: i32 = 1;
    while den <= 200
        invariant
            1 <= den <= 201,
            forall|k: int| 0 <= k < v@.len() ==> (#[trigger] v@[k]).in_universe(),
            forall|f: Frac| f.in_universe() && f.den < den ==> v@.contains(f),
        decreases 201 - den,
    {
        let mut num: i32 = -200;
        while num <= 200
            invariant
                -200 <= num <= 201,
                1 <= den <= 200,
                forall|k: int| 0 <= k < v@.len() ==> (#[trigger] v@[k]).in_universe(),
                forall|f: Frac| f.in_universe() && f.den < den ==> v@.contains(f),
                forall|f: Frac|
                    f.in_universe() && f.den == den && f.num < num ==> v@.contains(f),
            decreases 201 - num,
        {
            let ghost v0 = v@;
            let f = Frac::new_reduced(num, den);
            v.push(f);
            proof {
                assert(v@ == v0.push(f));
                assert(v@[v@.len() - 1] == f);
                assert(f.in_universe());
                assert forall|g: Frac| v0.contains(g) implies v@.contains(g) by {
                    let k = choose|k: int| 0 <= k < v0.len() && #[trigger] v0[k] == g;
                    assert(v@[k] == g);
                }
                if (Frac { num, den }).in_universe() {
                    assert(f == (Frac { num, den }));
                    assert(v@.contains(f));
                }
            }
            num = num + 1;
        }
        den = den + 1;
    }
    proof {
        assert forall|f: Frac| #[trigger] f.in_universe() implies v@.contains(f) by {
            assert(f.den < den);
        }
    }
    let sorted = crate::sort::sort_fracs(v);
    proof {
        broadcast use vstd::seq_lib::group_to_multiset_ensures;

        assert forall|f: Frac| sorted@.contains(f) <==> v@.contains(f) by {
            assert(sorted@.to_multiset().contains(f) <==> sorted@.contains(f));
            assert(v@.to_multiset().contains(f) <==> v@.contains(f));
        }
        assert forall|k: int| 0 <= k < sorted@.len() implies (
        #[trigger] sorted@[k]).in_universe() by {
            assert(sorted@.contains(sorted@[k]));
        }
    }
    let out = crate::sort::dedup_sorted_fracs(sorted);
    proof {
        assert forall|k: int| 0 <= k < out@.len() implies (#[trigger] out@[k]).in_universe() by {
            assert(out@.contains(out@[k]));
            assert(sorted@.contains(out@[k]));
        }
    }
    out
}

} // verus!
