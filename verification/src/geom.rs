//! The triangle universe: integer-sided triangles with sides stored sorted,
//! under the canonical order (perimeter, then sides lexicographically).

use vstd::prelude::*;
use core::cmp::Ordering;
use crate::qe::{divides, ord_of_int, spec_gcd};

verus! {

/// A triangle with canonically ordered sides a ≤ b ≤ c.
#[derive(Clone, Copy, Debug, Eq, PartialEq, Hash, Structural)]
pub struct Tri {
    pub a: i32,
    pub b: i32,
    pub c: i32,
}

impl Tri {
    /// The triangle invariant: positive sorted sides satisfying the strict
    /// triangle inequality.
    pub open spec fn wf(self) -> bool {
        &&& 1 <= self.a <= self.b <= self.c
        &&& self.a + self.b > self.c
    }

    /// Membership in the bounded triangle universe.
    pub open spec fn in_universe(self, max_side: int) -> bool {
        self.wf() && self.c <= max_side
    }
}

pub open spec fn spec_min3(a: int, b: int, c: int) -> int {
    if a <= b && a <= c {
        a
    } else if b <= c {
        b
    } else {
        c
    }
}

pub open spec fn spec_max3(a: int, b: int, c: int) -> int {
    if a >= b && a >= c {
        a
    } else if b >= c {
        b
    } else {
        c
    }
}

/// The sides sorted ascending.
pub open spec fn spec_sorted3(a: int, b: int, c: int) -> (int, int, int) {
    (spec_min3(a, b, c), a + b + c - spec_min3(a, b, c) - spec_max3(a, b, c), spec_max3(a, b, c))
}

impl Tri {
    /// Builds a triangle from three side lengths in any order; `None` when a
    /// side is non-positive or the strict triangle inequality fails.
    pub fn new(a: i32, b: i32, c: i32) -> (r: Option<Tri>)
        ensures
            ({
                let (x, y, z) = spec_sorted3(a as int, b as int, c as int);
                if a >= 1 && b >= 1 && c >= 1 && x + y > z {
                    r == Some(Tri { a: x as i32, b: y as i32, c: z as i32 })
                } else {
                    r is None
                }
            }),
            r is Some ==> r->Some_0.wf(),
    {
        if a <= 0 || b <= 0 || c <= 0 {
            return None;
        }
        let mut x = a;
        let mut y = b;
        let mut z = c;
        if x > y {
            let t = x;
            x = y;
            y = t;
        }
        if y > z {
            let t = y;
            y = z;
            z = t;
        }
        if x > y {
            let t = x;
            x = y;
            y = t;
        }
        if (x as i64) + (y as i64) <= (z as i64) {
            return None;
        }
        Some(Tri { a: x, b: y, c: z })
    }

    /// Canonical bytes: 12 bytes, the three sides big-endian 32-bit signed.
    pub fn to_bytes(&self) -> (r: Vec<u8>)
        ensures
            r@ == tri_bytes(*self),
            r@.len() == 12,
    {
        let mut out: Vec<u8> = Vec::new();
        crate::qe::push_be32(&mut out, self.a);
        crate::qe::push_be32(&mut out, self.b);
        crate::qe::push_be32(&mut out, self.c);
        proof {
            assert(out@ =~= tri_bytes(*self));
        }
        out
    }

    pub fn perimeter(&self) -> (r: i32)
        requires
            self.wf(),
            self.a + self.b + self.c <= i32::MAX,
        ensures
            r == self.a + self.b + self.c,
    {
        self.a + self.b + self.c
    }

    pub fn is_isosceles(&self) -> (r: bool)
        ensures
            r == (self.a == self.b || self.b == self.c),
    {
        self.a == self.b || self.b == self.c
    }

    pub fn is_equilateral(&self) -> (r: bool)
        ensures
            r == (self.a == self.b && self.b == self.c),
    {
        self.a == self.b && self.b == self.c
    }

    /// The sides have no common divisor greater than one.
    pub open spec fn spec_primitive(self) -> bool {
        spec_gcd(spec_gcd(self.a as int, self.b as int), self.c as int) == 1
    }

    pub fn is_primitive(&self) -> (r: bool)
        requires
            self.wf(),
        ensures
            r == self.spec_primitive(),
    {
        let g = crate::qe::gcd_u32(crate::qe::gcd_u32(self.a as u32, self.b as u32), self.c as u32);
        g == 1
    }

    /// Compares a² + b² with c²: `Greater` is acute, `Equal` right,
    /// `Less` obtuse.
    pub fn angle_type(&self) -> (r: Ordering)
        requires
            self.wf(),
        ensures
            r == ord_of_int(
                self.a as int * self.a as int + self.b as int * self.b as int,
                self.c as int * self.c as int,
            ),
    {
        let a = self.a as i64;
        let b = self.b as i64;
        let c = self.c as i64;
        proof {
            assert(1 <= a <= 0x7fff_ffff ==> 1 <= a * a <= 0x3fff_ffff_0000_0001)
                by (nonlinear_arith);
            assert(1 <= b <= 0x7fff_ffff ==> 1 <= b * b <= 0x3fff_ffff_0000_0001)
                by (nonlinear_arith);
            assert(1 <= c <= 0x7fff_ffff ==> 1 <= c * c <= 0x3fff_ffff_0000_0001)
                by (nonlinear_arith);
        }
        let lhs = a * a + b * b;
        let rhs = c * c;
        if lhs < rhs {
            Ordering::Less
        } else if lhs == rhs {
            Ordering::Equal
        } else {
            Ordering::Greater
        }
    }
}

/// Canonical 12-byte encoding of a triangle.
pub open spec fn tri_bytes(t: Tri) -> Seq<u8> {
    crate::qe::be32(crate::qe::to_u32_2c(t.a as int)) + crate::qe::be32(
        crate::qe::to_u32_2c(t.b as int),
    ) + crate::qe::be32(crate::qe::to_u32_2c(t.c as int))
}

/// The canonical order: perimeter ascending, then sides lexicographically.
pub open spec fn spec_tri_cmp(x: Tri, y: Tri) -> Ordering {
    let o1 = ord_of_int(x.a + x.b + x.c, y.a + y.b + y.c);
    if o1 != Ordering::Equal {
        o1
    } else {
        let o2 = ord_of_int(x.a as int, y.a as int);
        if o2 != Ordering::Equal {
            o2
        } else {
            let o3 = ord_of_int(x.b as int, y.b as int);
            if o3 != Ordering::Equal {
                o3
            } else {
                ord_of_int(x.c as int, y.c as int)
            }
        }
    }
}

pub open spec fn tri_lt(x: Tri, y: Tri) -> bool {
    spec_tri_cmp(x, y) == Ordering::Less
}

pub open spec fn tri_le_of(x: Tri, y: Tri) -> bool {
    tri_lt(x, y) || x == y
}

/// The canonical triangle order as a relation, for `sorted_by`.
pub open spec fn tri_le() -> spec_fn(Tri, Tri) -> bool {
    |x: Tri, y: Tri| tri_le_of(x, y)
}

/// The canonical triangle order is a total order over all `Tri` values.
pub proof fn lemma_tri_le_total_ordering()
    ensures
        vstd::relations::total_ordering(tri_le()),
{
}

/// Strictness facts for the canonical triangle order.
pub proof fn lemma_tri_lt_strict(x: Tri, y: Tri, z: Tri)
    ensures
        !tri_lt(x, x),
        tri_lt(x, y) && tri_lt(y, z) ==> tri_lt(x, z),
        x != y ==> (tri_lt(x, y) <==> !tri_lt(y, x)),
{
}

/// Canonical comparison of two triangles.
pub fn canonical_cmp(x: &Tri, y: &Tri) -> (r: Ordering)
    ensures
        r == spec_tri_cmp(*x, *y),
{
    let px = x.a as i64 + x.b as i64 + x.c as i64;
    let py = y.a as i64 + y.b as i64 + y.c as i64;
    if px != py {
        return if px < py {
            Ordering::Less
        } else {
            Ordering::Greater
        };
    }
    if x.a != y.a {
        return if x.a < y.a {
            Ordering::Less
        } else {
            Ordering::Greater
        };
    }
    if x.b != y.b {
        return if x.b < y.b {
            Ordering::Less
        } else {
            Ordering::Greater
        };
    }
    if x.c < y.c {
        Ordering::Less
    } else if x.c == y.c {
        Ordering::Equal
    } else {
        Ordering::Greater
    }
}

/// Non-strict canonical comparison.
pub fn tri_le_exec(x: &Tri, y: &Tri) -> (r: bool)
    ensures
        r == tri_le_of(*x, *y),
{
    !matches!(canonical_cmp(x, y), Ordering::Greater)
}

/// L1 distance between two triangles' sides.
pub fn tri_distance(x: &Tri, y: &Tri) -> (r: i64)
    ensures
        r == crate::qe::spec_abs(x.a as int - y.a as int) + crate::qe::spec_abs(
            x.b as int - y.b as int,
        ) + crate::qe::spec_abs(x.c as int - y.c as int),
{
    let da = x.a as i64 - y.a as i64;
    let db = x.b as i64 - y.b as i64;
    let dc = x.c as i64 - y.c as i64;
    let da = if da < 0 {
        -da
    } else {
        da
    };
    let db = if db < 0 {
        -db
    } else {
        db
    };
    let dc = if dc < 0 {
        -dc
    } else {
        dc
    };
    da + db + dc
}

/// Builds the bounded triangle universe: all triangles with sides in
/// [1, max_side], exactly once, in canonical order.
pub fn build_ge(max_side: i32) -> (r: Vec<Tri>)
    requires
        max_side < i32::MAX,
    ensures
        forall|k: int, l: int| 0 <= k < l < r@.len() ==> tri_lt(#[trigger] r@[k], #[trigger] r@[l]),
        forall|t: Tri| r@.contains(t) <==> t.in_universe(max_side as int),
        forall|k: int| 0 <= k < r@.len() ==> (#[trigger] r@[k]).in_universe(max_side as int),
{
    if max_side <= 0 {
        let empty: Vec<Tri> = Vec::new();
        return empty;
    }
    let mut v: Vec<Tri> = Vec::new();
    let mut a: i32 = 1;
    while a <= max_side
        invariant
            1 <= a <= max_side + 1,
            1 <= max_side < i32::MAX,
            forall|k: int| 0 <= k < v@.len() ==> (#[trigger] v@[k]).in_universe(max_side as int),
            forall|t: Tri| t.in_universe(max_side as int) && t.a < a ==> v@.contains(t),
        decreases max_side + 1 - a,
    {
        let mut b: i32 = a;
        while b <= max_side
            invariant
                1 <= a <= b <= max_side + 1,
                a <= max_side,
                1 <= max_side < i32::MAX,
                forall|k: int|
                    0 <= k < v@.len() ==> (#[trigger] v@[k]).in_universe(max_side as int),
                forall|t: Tri| t.in_universe(max_side as int) && t.a < a ==> v@.contains(t),
                forall|t: Tri|
                    t.in_universe(max_side as int) && t.a == a && t.b < b ==> v@.contains(t),
            decreases max_side + 1 - b,
        {
            let mut c: i32 = b;
            while c <= max_side
                invariant
                    1 <= a <= b <= c <= max_side + 1,
                    a <= max_side,
                    b <= max_side,
                    1 <= max_side < i32::MAX,
                    forall|k: int|
                        0 <= k < v@.len() ==> (#[trigger] v@[k]).in_universe(max_side as int),
                    forall|t: Tri| t.in_universe(max_side as int) && t.a < a ==> v@.contains(t),
                    forall|t: Tri|
                        t.in_universe(max_side as int) && t.a == a && t.b < b ==> v@.contains(t),
                    forall|t: Tri|
                        t.in_universe(max_side as int) && t.a == a && t.b == b && t.c < c
                            ==> v@.contains(t),
                decreases max_side + 1 - c,
            {
                let ghost v0 = v@;
                if (a as i64) + (b as i64) > (c as i64) {
                    v.push(Tri { a, b, c });
                }
                proof {
                    assert forall|g: Tri| v0.contains(g) implies v@.contains(g) by {
                        let k = choose|k: int| 0 <= k < v0.len() && #[trigger] v0[k] == g;
                        assert(v@[k] == g);
                    }
                    if a + b > c {
                        assert(v@[v@.len() - 1] == (Tri { a, b, c }));
                        assert(v@.contains((Tri { a, b, c })));
                    }
                }
                c = c + 1;
            }
            b = b + 1;
        }
        a = a + 1;
    }
    proof {
        assert forall|t: Tri| #[trigger] t.in_universe(max_side as int) implies v@.contains(
            t,
        ) by {
            assert(t.a < a);
        }
    }
    let sorted = crate::sort::sort_tris(v);
    proof {
        broadcast use vstd::seq_lib::group_to_multiset_ensures;

        assert forall|t: Tri| sorted@.contains(t) <==> v@.contains(t) by {
            assert(sorted@.to_multiset().contains(t) <==> sorted@.contains(t));
            assert(v@.to_multiset().contains(t) <==> v@.contains(t));
        }
        assert forall|k: int| 0 <= k < sorted@.len() implies (#[trigger] sorted@[k]).in_universe(
            max_side as int,
        ) by {
            assert(sorted@.contains(sorted@[k]));
        }
    }
    let out = crate::sort::dedup_sorted_tris(sorted);
    proof {
        assert forall|k: int| 0 <= k < out@.len() implies (#[trigger] out@[k]).in_universe(
            max_side as int,
        ) by {
            assert(out@.contains(out@[k]));
            assert(sorted@.contains(out@[k]));
        }
    }
    out
}

} // verus!
