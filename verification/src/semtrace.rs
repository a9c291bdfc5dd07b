//! The shared operational algebra: predicate signatures, the (mask, value)
//! constraint, and the trace input schema.

use vstd::prelude::*;
use core::cmp::Ordering;
use crate::qe::{Frac, spec_abs, ord_of_int};
use crate::geom::Tri;

verus! {

/// The 7-bit predicate signature of a rational element, by the fixed legend:
/// bit 0 numerator > 0; bit 1 always set (reserved); bit 2 denominator ≤ 6;
/// bit 3 numerator even; bit 4 denominator divisible by 3; bit 5 proper
/// (|num| < den); bit 6 |num| ≤ 5.
pub open spec fn spec_sig7(f: Frac) -> u8 {
    ((if f.num > 0 {
        1int
    } else {
        0int
    }) + 2 + (if f.den <= 6 {
        4int
    } else {
        0int
    }) + (if spec_abs(f.num as int) % 2 == 0 {
        8int
    } else {
        0int
    }) + (if f.den % 3 == 0 {
        16int
    } else {
        0int
    }) + (if spec_abs(f.num as int) < f.den {
        32int
    } else {
        0int
    }) + (if spec_abs(f.num as int) <= 5 {
        64int
    } else {
        0int
    })) as u8
}

/// Computes the rational signature bits.
pub fn sig7(f: &Frac) -> (r: u8)
    requires
        f.wf(),
    ensures
        r == spec_sig7(*f),
{
    let mut bits: u8 = 2;
    let na = f.abs_num();
    if f.num > 0 {
        bits = bits + 1;
    }
    if f.den <= 6 {
        bits = bits + 4;
    }
    if na % 2 == 0 {
        bits = bits + 8;
    }
    if f.den % 3 == 0 {
        bits = bits + 16;
    }
    if na < f.den {
        bits = bits + 32;
    }
    if na <= 5 {
        bits = bits + 64;
    }
    bits
}

/// The 7-bit predicate signature of a triangle, by the fixed legend:
/// bit 0 perimeter ≤ 20; bit 1 isosceles; bit 2 equilateral; bit 3 primitive;
/// bit 4 right; bit 5 acute; bit 6 obtuse.
pub open spec fn spec_sig7_geom(t: Tri) -> u8 {
    let ang = ord_of_int(t.a * t.a + t.b * t.b, t.c * t.c);
    ((if t.a + t.b + t.c <= 20 {
        1int
    } else {
        0int
    }) + (if t.a == t.b || t.b == t.c {
        2int
    } else {
        0int
    }) + (if t.a == t.b && t.b == t.c {
        4int
    } else {
        0int
    }) + (if t.spec_primitive() {
        8int
    } else {
        0int
    }) + (if ang == Ordering::Equal {
        16int
    } else {
        0int
    }) + (if ang == Ordering::Greater {
        32int
    } else {
        0int
    }) + (if ang == Ordering::Less {
        64int
    } else {
        0int
    })) as u8
}

/// Computes the triangle signature bits.
pub fn sig7_geom(t: &Tri) -> (r: u8)
    requires
        t.wf(),
        t.a + t.b + t.c <= i32::MAX,
    ensures
        r == spec_sig7_geom(*t),
{
    let mut bits: u8 = 0;
    if t.perimeter() <= 20 {
        bits = bits + 1;
    }
    if t.is_isosceles() {
        bits = bits + 2;
    }
    if t.is_equilateral() {
        bits = bits + 4;
    }
    if t.is_primitive() {
        bits = bits + 8;
    }
    match t.angle_type() {
        Ordering::Equal => {
            bits = bits + 16;
        },
        Ordering::Greater => {
            bits = bits + 32;
        },
        Ordering::Less => {
            bits = bits + 64;
        },
    }
    bits
}

/// The bit legend of the rational signature, least significant bit first:
/// the wire-pinned name of each predicate.
pub fn bit_legend() -> (r: [&'static str; 7])
    ensures
        r@.len() == 7,
        r@[0]@ == "positive"@,
        r@[1]@ == "rat_int"@,
        r@[2]@ == "den<=6"@,
        r@[3]@ == "num_even"@,
        r@[4]@ == "den_mod3"@,
        r@[5]@ == "proper"@,
        r@[6]@ == "num_abs<=5"@,
{
    ["positive", "rat_int", "den<=6", "num_even", "den_mod3", "proper", "num_abs<=5"]
}

/// The bit legend of the triangle signature, least significant bit first:
/// the wire-pinned name of each predicate.
pub fn bit_legend_geom() -> (r: [&'static str; 7])
    ensures
        r@.len() == 7,
        r@[0]@ == "perim<=20"@,
        r@[1]@ == "isosceles"@,
        r@[2]@ == "equilateral"@,
        r@[3]@ == "primitive"@,
        r@[4]@ == "right"@,
        r@[5]@ == "acute"@,
        r@[6]@ == "obtuse"@,
{
    ["perim<=20", "isosceles", "equilateral", "primitive", "right", "acute", "obtuse"]
}

/// A partial-signature constraint: `value & !mask == 0` is maintained by
/// construction, and a signature `s` matches iff `s & mask == value & mask`.
#[derive(Clone, Copy, Debug, PartialEq, Eq, Structural)]
pub struct Constraint {
    pub mask: u8,
    pub value: u8,
}

/// A signature matches when it agrees with `value` on every masked bit.
pub open spec fn spec_matches(c: Constraint, sig: u8) -> bool {
    sig & c.mask == c.value & c.mask
}

/// The constraint after forcing bit `i` to `b`.
pub open spec fn spec_set_bit(c: Constraint, i: u8, b: u8) -> Constraint {
    Constraint {
        mask: c.mask | (1u8 << i),
        value: if b == 1 {
            c.value | (1u8 << i)
        } else {
            c.value & !(1u8 << i)
        },
    }
}

impl Constraint {
    /// The empty constraint: no bit is masked, everything matches.
    pub fn empty() -> (r: Constraint)
        ensures
            r.mask == 0 && r.value == 0,
    {
        Constraint { mask: 0, value: 0 }
    }

    /// Forces bit `i` of the signature to `b`: the mask only ever widens.
    pub fn set_bit(self, i: u8, b: u8) -> (r: Constraint)
        requires
            i < 8,
        ensures
            r == spec_set_bit(self, i, b),
    {
        let bit: u8 = 1u8 << i;
        let mask = self.mask | bit;
        let value = if b == 1 {
            self.value | bit
        } else {
            self.value & !bit
        };
        Constraint { mask, value }
    }

    /// Whether a signature satisfies the constraint.
    pub fn matches(&self, sig: u8) -> (r: bool)
        ensures
            r == spec_matches(*self, sig),
    {
        (sig & self.mask) == (self.value & self.mask)
    }
}

/// A trace input: versioned header and the declared op list.
#[derive(Clone, Debug)]
pub struct Trace {
    pub semtrace_version: String,
    pub universe: String,
    pub bits: u8,
    pub ops: Vec<Op>,
}

/// The declared op algebra of the trace input schema.
#[derive(Clone, Debug)]
pub enum Op {
    StartElem { elem: String },
    SetBit { i: u8, b: u8 },
    WitnessNearest { target_elem: String, metric: String },
    ReturnSet { max_items: usize, include_witness: bool },
}

/// The deterministic demo trace: ground at 7/200, force denominator ≤ 6,
/// take the nearest witness, and return a sample.
pub fn demo_trace() -> (r: Trace)
    ensures
        r.semtrace_version@ == "0.0.1"@,
        r.universe@ == "QE"@,
        r.bits == 7,
        r.ops@.len() == 4,
        (r.ops@[0] matches Op::StartElem { elem } && elem@ == "7/200"@),
        (r.ops@[1] matches Op::SetBit { i, b } && i == 2 && b == 1),
        (r.ops@[2] matches Op::WitnessNearest { target_elem, metric } && target_elem@ == "7/200"@
            && metric@ == "ABS_DIFF"@),
        (r.ops@[3] matches Op::ReturnSet { max_items, include_witness } && max_items == 20
            && include_witness),
{
    let mut ops: Vec<Op> = Vec::new();
    ops.push(Op::StartElem { elem: String::from_str("7/200") });
    ops.push(
        Op::SetBit { i: 2, b: 1 },
    );
    ops.push(
        Op::WitnessNearest {
            target_elem: String::from_str("7/200"),
            metric: String::from_str("ABS_DIFF"),
        },
    );
    ops.push(Op::ReturnSet { max_items: 20, include_witness: true });
    Trace {
        semtrace_version: String::from_str("0.0.1"),
        universe: String::from_str("QE"),
        bits: 7,
        ops,
    }
}

} // verus!
