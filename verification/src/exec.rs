//! The executor: interprets ops against a live state, emits per-step
//! records, and maintains the chain hash.

use vstd::prelude::*;
use crate::qe::{Frac, spec_abs, canonical_lt, frac_le};
use crate::boolfun::{BoolFun, spec_hamming, bf_lt};
use crate::geom::Tri;
use crate::semtrace::{Constraint, spec_matches, spec_sig7, spec_sig7_geom, sig7, sig7_geom};
use crate::digest::{sha256_of, hex_of, merkle_root_of};
use crate::strnum::{dec_str, dec_str_i32};
use core::cmp::Ordering;

verus! {

/// Converts a string to its UTF-8 bytes (the identity, byte for byte, on
/// ASCII text).
pub fn str_bytes(s: &str) -> (r: Vec<u8>)
    ensures
        r@ == vstd::utf8::encode_utf8(s@),
{
    s.as_bytes_vec()
}

/// Canonical rendering of a rational: `num/den`, both signed decimal.
pub open spec fn spec_frac_str(f: Frac) -> Seq<char> {
    dec_str_i32(f.num as int) + seq!['/'] + dec_str_i32(f.den as int)
}

/// Renders a rational canonically as `"n/d"`.
pub fn frac_to_string(f: &Frac) -> (r: String)
    ensures
        r@ == spec_frac_str(*f),
{
    let mut out = String::new();
    crate::strnum::append_i32(&mut out, f.num);
    proof {
        reveal_strlit("/");
    }
    out.append("/");
    crate::strnum::append_i32(&mut out, f.den);
    proof {
        assert(out@ =~= spec_frac_str(*f));
    }
    out
}

/// The uppercase hexadecimal digit for a nibble value.
pub open spec fn hexu_digit(n: int) -> char {
    if n < 10 {
        crate::digest::hex_digit(n)
    } else if n == 10 {
        'A'
    } else if n == 11 {
        'B'
    } else if n == 12 {
        'C'
    } else if n == 13 {
        'D'
    } else if n == 14 {
        'E'
    } else {
        'F'
    }
}

/// Four uppercase hex digits of a 16-bit value.
pub open spec fn hex4_upper(v: int) -> Seq<char> {
    seq![
        hexu_digit(v / 0x1000 % 16),
        hexu_digit(v / 0x100 % 16),
        hexu_digit(v / 0x10 % 16),
        hexu_digit(v % 16),
    ]
}

/// Appends one uppercase hexadecimal digit.
fn push_hexu_digit(out: &mut String, d: u64)
    requires
        d < 16,
    ensures
        final(out)@ == old(out)@.push(hexu_digit(d as int)),
{
    let ghost c = hexu_digit(d as int);
    if d < 10 {
        crate::strnum::append_u64(out, d);
        proof {
            assert(final(out)@ =~= old(out)@.push(c));
        }
    } else if d == 10 {
        proof {
            reveal_strlit("A");
        }
        out.append("A");
        proof {
            assert(final(out)@ =~= old(out)@.push(c));
        }
    } else if d == 11 {
        proof {
            reveal_strlit("B");
        }
        out.append("B");
        proof {
            assert(final(out)@ =~= old(out)@.push(c));
        }
    } else if d == 12 {
        proof {
            reveal_strlit("C");
        }
        out.append("C");
        proof {
            assert(final(out)@ =~= old(out)@.push(c));
        }
    } else if d == 13 {
        proof {
            reveal_strlit("D");
        }
        out.append("D");
        proof {
            assert(final(out)@ =~= old(out)@.push(c));
        }
    } else if d == 14 {
        proof {
            reveal_strlit("E");
        }
        out.append("E");
        proof {
            assert(final(out)@ =~= old(out)@.push(c));
        }
    } else {
        proof {
            reveal_strlit("F");
        }
        out.append("F");
        proof {
            assert(final(out)@ =~= old(out)@.push(c));
        }
    }
}

/// Canonical rendering of a Boolean function: `0xHHHH` for arity 4, else
/// `u64:D`.
pub open spec fn spec_bf_str(f: BoolFun) -> Seq<char> {
    if f.n == 4 {
        seq!['0', 'x'] + hex4_upper((f.bits & 0xffff) as int)
    } else {
        seq!['u', '6', '4', ':'] + dec_str(f.bits as int)
    }
}

/// Renders a Boolean function canonically.
pub fn boolfun_to_string(f: &BoolFun) -> (r: String)
    ensures
        r@ == spec_bf_str(*f),
{
    let mut out = String::new();
    if f.n == 4 {
        proof {
            reveal_strlit("0x");
        }
        out.append("0x");
        let bits = f.bits;
        let v: u64 = bits & 0xffff;
        proof {
            assert(bits & 0xffff < 0x10000) by (bit_vector);
        }
        push_hexu_digit(&mut out, v / 0x1000 % 16);
        push_hexu_digit(&mut out, v / 0x100 % 16);
        push_hexu_digit(&mut out, v / 0x10 % 16);
        push_hexu_digit(&mut out, v % 16);
        proof {
            assert(out@ =~= spec_bf_str(*f));
        }
    } else {
        proof {
            reveal_strlit("u64:");
        }
        out.append("u64:");
        crate::strnum::append_u64(&mut out, f.bits);
        proof {
            assert(out@ =~= spec_bf_str(*f));
        }
    }
    out
}

/// The exact distance of a candidate from a target, as the pair
/// (|ad − bc|, bd) for target a/b and candidate c/d.
pub open spec fn spec_dist(t: Frac, c: Frac) -> (int, int) {
    (spec_abs(t.num * c.den - t.den * c.num), t.den * c.den)
}

/// Strictly-less comparison of two distance pairs by cross-multiplication.
pub open spec fn spec_dist_lt(x: (int, int), y: (int, int)) -> bool {
    x.0 * y.1 < y.0 * x.1
}

/// Computes the distance pair of a candidate from a target.
pub fn distance_num_den(target: &Frac, cand: &Frac) -> (r: (i64, i64))
    requires
        target.wf(),
        cand.wf(),
    ensures
        r.0 == spec_dist(*target, *cand).0,
        r.1 == spec_dist(*target, *cand).1,
{
    let a = target.num as i64;
    let b = target.den as i64;
    let c = cand.num as i64;
    let d = cand.den as i64;
    proof {
        assert(-0x7fff_ffff <= a <= 0x7fff_ffff && 1 <= d <= 0x7fff_ffff && -0x7fff_ffff <= c
            <= 0x7fff_ffff && 1 <= b <= 0x7fff_ffff ==> -0x3fff_ffff_0000_0001 <= a * d
            <= 0x3fff_ffff_0000_0001 && -0x3fff_ffff_0000_0001 <= b * c <= 0x3fff_ffff_0000_0001
            && 1 <= b * d <= 0x3fff_ffff_0000_0001) by (nonlinear_arith);
    }
    let num = a * d - b * c;
    let num = if num < 0 {
        -num
    } else {
        num
    };
    (num, b * d)
}

/// Compares two distance pairs exactly, widening to 128 bits.
pub fn dist_lt(x: (i64, i64), y: (i64, i64)) -> (r: bool)
    ensures
        r == spec_dist_lt((x.0 as int, x.1 as int), (y.0 as int, y.1 as int)),
{
    proof {
        assert(-0x8000_0000_0000_0000 <= x.0 <= 0x7fff_ffff_ffff_ffff && -0x8000_0000_0000_0000
            <= y.1 <= 0x7fff_ffff_ffff_ffff
            ==> -0x4000_0000_0000_0000_0000_0000_0000_0000 <= (x.0 as int) * (y.1 as int)
            <= 0x4000_0000_0000_0000_0000_0000_0000_0000) by (nonlinear_arith);
        assert(-0x8000_0000_0000_0000 <= y.0 <= 0x7fff_ffff_ffff_ffff && -0x8000_0000_0000_0000
            <= x.1 <= 0x7fff_ffff_ffff_ffff
            ==> -0x4000_0000_0000_0000_0000_0000_0000_0000 <= (y.0 as int) * (x.1 as int)
            <= 0x4000_0000_0000_0000_0000_0000_0000_0000) by (nonlinear_arith);
    }
    (x.0 as i128) * (y.1 as i128) < (y.0 as i128) * (x.1 as i128)
}

/// The witness order for a fixed target: nearer by exact distance first,
/// ties broken by |numerator|, then denominator, then canonical order.
pub open spec fn wit_better(t: Frac, f: Frac, best: Frac) -> bool {
    let d = spec_dist(t, f);
    let bd = spec_dist(t, best);
    spec_dist_lt(d, bd) || (!spec_dist_lt(bd, d) && (spec_abs(f.num as int) < spec_abs(
        best.num as int,
    ) || (spec_abs(f.num as int) == spec_abs(best.num as int) && (f.den < best.den || (f.den
        == best.den && canonical_lt(f, best))))))
}

/// The witness of a candidate list: the first element that no later element
/// strictly betters, i.e. the minimum under the witness order.
pub open spec fn spec_witness_nearest(s: Seq<Frac>, t: Frac) -> Option<Frac>
    decreases s.len(),
{
    if s.len() == 0 {
        None
    } else {
        match spec_witness_nearest(s.drop_last(), t) {
            None => Some(s[s.len() - 1]),
            Some(b) => if wit_better(t, s[s.len() - 1], b) {
                Some(s[s.len() - 1])
            } else {
                Some(b)
            },
        }
    }
}

/// Selects the candidate nearest to the target under the exact metric, with
/// the total tie-break.
pub fn witness_nearest(set: &Vec<Frac>, target: &Frac) -> (r: Option<Frac>)
    requires
        target.wf(),
        forall|k: int| 0 <= k < set@.len() ==> (#[trigger] set@[k]).wf(),
    ensures
        r == spec_witness_nearest(set@, *target),
{
    if set.len() == 0 {
        return None;
    }
    let mut best = set[0];
    let mut i: usize = 1;
    proof {
        let t1 = set@.take(1);
        assert(t1.drop_last() =~= Seq::<Frac>::empty());
        assert(t1[0] == set@[0]);
        assert(spec_witness_nearest(t1.drop_last(), *target) is None);
        assert(spec_witness_nearest(t1, *target) == Some(t1[0]));
    }
    while i < set.len()
        invariant
            1 <= i <= set@.len(),
            target.wf(),
            forall|k: int| 0 <= k < set@.len() ==> (#[trigger] set@[k]).wf(),
            best.wf(),
            Some(best) == spec_witness_nearest(set@.take(i as int), *target),
        decreases set@.len() - i,
    {
        let f = set[i];
        let d = distance_num_den(target, &f);
        let bd = distance_num_den(target, &best);
        let better: bool = if dist_lt(d, bd) {
            true
        } else if dist_lt(bd, d) {
            false
        } else {
            let fa = f.abs_num();
            let ba = best.abs_num();
            if fa != ba {
                fa < ba
            } else if f.den != best.den {
                f.den < best.den
            } else {
                matches!(crate::qe::canonical_cmp(&f, &best), Ordering::Less)
            }
        };
        proof {
            assert(better == wit_better(*target, f, best));
            let t1 = set@.take(i + 1);
            assert(t1.drop_last() =~= set@.take(i as int));
            assert(t1[i as int] == set@[i as int]);
            assert(spec_witness_nearest(t1, *target) == (if wit_better(*target, f, best) {
                Some(f)
            } else {
                Some(best)
            }));
        }
        if better {
            best = f;
        }
        i = i + 1;
    }
    proof {
        assert(set@.take(set@.len() as int) =~= set@);
    }
    Some(best)
}

/// Filters the universe by the constraint, in order.
pub open spec fn spec_filter_qe(u: Seq<Frac>, c: Constraint) -> Seq<Frac> {
    u.filter(|f: Frac| spec_matches(c, spec_sig7(f)))
}

/// Keeps the universe elements whose signature matches the constraint,
/// in canonical order.
pub fn filter_qe(qe: &Vec<Frac>, cst: Constraint) -> (r: Vec<Frac>)
    requires
        forall|k: int| 0 <= k < qe@.len() ==> (#[trigger] qe@[k]).wf(),
    ensures
        r@ == spec_filter_qe(qe@, cst),
{
    let ghost pred = |f: Frac| spec_matches(cst, spec_sig7(f));
    let mut out: Vec<Frac> = Vec::new();
    let mut i: usize = 0;
    proof {
        reveal(Seq::filter);
    }
    while i < qe.len()
        invariant
            i <= qe@.len(),
            forall|k: int| 0 <= k < qe@.len() ==> (#[trigger] qe@[k]).wf(),
            pred == (|f: Frac| spec_matches(cst, spec_sig7(f))),
            out@ == qe@.take(i as int).filter(pred),
        decreases qe@.len() - i,
    {
        let f = qe[i];
        let s = sig7(&f);
        proof {
            reveal(Seq::filter);
            assert(qe@.take(i + 1).drop_last() =~= qe@.take(i as int));
            assert(qe@.take(i + 1).last() == qe@[i as int]);
        }
        if cst.matches(s) {
            out.push(f);
            proof {
                assert(pred(f));
                assert(out@ =~= qe@.take(i + 1).filter(pred));
            }
        } else {
            proof {
                assert(!pred(f));
                assert(out@ =~= qe@.take(i + 1).filter(pred));
            }
        }
        i = i + 1;
    }
    proof {
        assert(qe@.take(qe@.len() as int) =~= qe@);
    }
    out
}

/// The Merkle digest of a rational candidate set, leaves in order.
pub open spec fn spec_digest_fr(s: Seq<Frac>) -> Seq<u8> {
    merkle_root_of(s.map_values(|f: Frac| sha256_of(crate::qe::frac_bytes(f))))
}

/// The Merkle digest of a Boolean-function candidate set, leaves in order.
pub open spec fn spec_digest_bf(s: Seq<BoolFun>) -> Seq<u8> {
    merkle_root_of(s.map_values(|f: BoolFun| sha256_of(crate::boolfun::bf_bytes(f))))
}

/// The Merkle digest of the candidate set: per-element leaf hashes in
/// canonical order.
pub fn canonical_set_digest(set: &Vec<Frac>) -> (r: Vec<u8>)
    ensures
        r@ == spec_digest_fr(set@),
        r@.len() == 32,
{
    let mut leaves: Vec<Vec<u8>> = Vec::new();
    let ghost lm = set@.map_values(|f: Frac| sha256_of(crate::qe::frac_bytes(f)));
    let mut i: usize = 0;
    while i < set.len()
        invariant
            i <= set@.len(),
            lm == set@.map_values(|f: Frac| sha256_of(crate::qe::frac_bytes(f))),
            leaves@.len() == i,
            forall|k: int| 0 <= k < i ==> (#[trigger] leaves@[k])@ == lm[k],
            forall|k: int| 0 <= k < leaves@.len() ==> (#[trigger] leaves@[k])@.len() == 32,
        decreases set@.len() - i,
    {
        let bytes = set[i].canonical_bytes();
        let leaf = crate::digest::sha256_bytes(bytes.as_slice());
        leaves.push(leaf);
        i = i + 1;
    }
    proof {
        crate::digest::lemma_vec_deep_view_is_map(&leaves);
        assert(leaves.deep_view() =~= lm);
    }
    crate::digest::merkle_root(&leaves)
}

/// The Merkle digest of a Boolean-function candidate set.
pub fn canonical_set_digest_boolfun(set: &Vec<BoolFun>) -> (r: Vec<u8>)
    ensures
        r@ == spec_digest_bf(set@),
        r@.len() == 32,
{
    let mut leaves: Vec<Vec<u8>> = Vec::new();
    let ghost lm = set@.map_values(|f: BoolFun| sha256_of(crate::boolfun::bf_bytes(f)));
    let mut i: usize = 0;
    while i < set.len()
        invariant
            i <= set@.len(),
            lm == set@.map_values(|f: BoolFun| sha256_of(crate::boolfun::bf_bytes(f))),
            leaves@.len() == i,
            forall|k: int| 0 <= k < i ==> (#[trigger] leaves@[k])@ == lm[k],
            forall|k: int| 0 <= k < leaves@.len() ==> (#[trigger] leaves@[k])@.len() == 32,
        decreases set@.len() - i,
    {
        let bytes = set[i].canonical_bytes();
        let leaf = crate::digest::sha256_bytes(bytes.as_slice());
        leaves.push(leaf);
        i = i + 1;
    }
    proof {
        crate::digest::lemma_vec_deep_view_is_map(&leaves);
        assert(leaves.deep_view() =~= lm);
    }
    crate::digest::merkle_root(&leaves)
}

/// The Boolean-function witness order for a fixed target: smaller Hamming
/// distance first, ties broken canonically.
pub open spec fn bf_better(t: BoolFun, f: BoolFun, best: BoolFun) -> bool {
    spec_hamming(f, t) < spec_hamming(best, t) || (spec_hamming(f, t) == spec_hamming(best, t)
        && bf_lt(f, best))
}

/// The top-scoring element under (Hamming distance to the target, canonical
/// order): the head of the sorted scored list.
pub open spec fn spec_topk_witness(s: Seq<BoolFun>, t: BoolFun) -> Option<BoolFun>
    decreases s.len(),
{
    if s.len() == 0 {
        None
    } else {
        match spec_topk_witness(s.drop_last(), t) {
            None => Some(s[s.len() - 1]),
            Some(b) => if bf_better(t, s[s.len() - 1], b) {
                Some(s[s.len() - 1])
            } else {
                Some(b)
            },
        }
    }
}

/// Selects the candidate of minimum Hamming distance to the target, ties
/// broken canonically; the first element a full (distance, canonical) sort
/// would produce.
pub fn topk_witness(set: &Vec<BoolFun>, target: &BoolFun) -> (r: Option<BoolFun>)
    requires
        forall|k: int| 0 <= k < set@.len() ==> (#[trigger] set@[k]).wf(),
    ensures
        r == spec_topk_witness(set@, *target),
{
    if set.len() == 0 {
        return None;
    }
    let mut best = set[0];
    let mut i: usize = 1;
    proof {
        let t1 = set@.take(1);
        assert(t1.drop_last() =~= Seq::<BoolFun>::empty());
        assert(t1[0] == set@[0]);
        assert(spec_topk_witness(t1.drop_last(), *target) is None);
        assert(spec_topk_witness(t1, *target) == Some(t1[0]));
    }
    while i < set.len()
        invariant
            1 <= i <= set@.len(),
            forall|k: int| 0 <= k < set@.len() ==> (#[trigger] set@[k]).wf(),
            best.wf(),
            Some(best) == spec_topk_witness(set@.take(i as int), *target),
        decreases set@.len() - i,
    {
        let f = set[i];
        let fd = f.hamming(target);
        let bd = best.hamming(target);
        let better: bool = fd < bd || (fd == bd && matches!(
            crate::boolfun::canonical_cmp(&f, &best),
            Ordering::Less,
        ));
        proof {
            assert(better == bf_better(*target, f, best));
            let t1 = set@.take(i + 1);
            assert(t1.drop_last() =~= set@.take(i as int));
            assert(t1[i as int] == set@[i as int]);
            assert(spec_topk_witness(t1, *target) == (if bf_better(*target, f, best) {
                Some(f)
            } else {
                Some(best)
            }));
        }
        if better {
            best = f;
        }
        i = i + 1;
    }
    proof {
        assert(set@.take(set@.len() as int) =~= set@);
    }
    Some(best)
}

/// Keeps the Boolean functions whose Hamming weight lies in [min, max],
/// in order.
pub open spec fn spec_filter_weight(u: Seq<BoolFun>, min: u32, max: u32) -> Seq<BoolFun> {
    u.filter(|f: BoolFun| min <= f.spec_weight() <= max)
}

/// Filters the Boolean universe by Hamming weight.
pub fn filter_weight(all: &Vec<BoolFun>, min: u32, max: u32) -> (r: Vec<BoolFun>)
    requires
        forall|k: int| 0 <= k < all@.len() ==> (#[trigger] all@[k]).wf(),
    ensures
        r@ == spec_filter_weight(all@, min, max),
{
    let ghost pred = |f: BoolFun| min <= f.spec_weight() <= max;
    let mut out: Vec<BoolFun> = Vec::new();
    let mut i: usize = 0;
    proof {
        reveal(Seq::filter);
    }
    while i < all.len()
        invariant
            i <= all@.len(),
            forall|k: int| 0 <= k < all@.len() ==> (#[trigger] all@[k]).wf(),
            pred == (|f: BoolFun| min <= f.spec_weight() <= max),
            out@ == all@.take(i as int).filter(pred),
        decreases all@.len() - i,
    {
        let f = all[i];
        let w = f.weight();
        proof {
            reveal(Seq::filter);
            assert(all@.take(i + 1).drop_last() =~= all@.take(i as int));
            assert(all@.take(i + 1).last() == all@[i as int]);
        }
        if min <= w && w <= max {
            out.push(f);
            proof {
                assert(pred(f));
                assert(out@ =~= all@.take(i + 1).filter(pred));
            }
        } else {
            proof {
                assert(!pred(f));
                assert(out@ =~= all@.take(i + 1).filter(pred));
            }
        }
        i = i + 1;
    }
    proof {
        assert(all@.take(all@.len() as int) =~= all@);
    }
    out
}

/// A character that may stand unescaped inside a JSON string in a record:
/// printable ASCII, no quote, no backslash.
pub open spec fn json_safe(s: Seq<char>) -> bool {
    forall|k: int| 0 <= k < s.len() ==> ' ' <= #[trigger] s[k] <= '~' && s[k] != '"' && s[k]
        != '\\'
}

/// Checks that every character may stand unescaped inside a JSON string.
pub fn is_json_safe(s: &str) -> (r: bool)
    ensures
        r == json_safe(s@),
{
    let n = s.unicode_len();
    let mut i: usize = 0;
    while i < n
        invariant
            i <= n,
            n == s@.len(),
            forall|k: int| 0 <= k < i ==> ' ' <= #[trigger] s@[k] <= '~' && s@[k] != '"' && s@[k]
                != '\\',
        decreases n - i,
    {
        let c = s.get_char(i);
        if !(c >= ' ' && c <= '~' && c != '"' && c != '\\') {
            proof {
                assert(!json_safe(s@)) by {
                    assert(!(' ' <= s@[i as int] <= '~' && s@[i as int] != '"' && s@[i as int]
                        != '\\'));
                }
            }
            return false;
        }
        i = i + 1;
    }
    true
}

/// String equality by characters.
pub fn str_eq(a: &str, b: &str) -> (r: bool)
    ensures
        r == (a@ == b@),
{
    let n = a.unicode_len();
    if n != b.unicode_len() {
        return false;
    }
    let mut i: usize = 0;
    while i < n
        invariant
            i <= n,
            n == a@.len() == b@.len(),
            forall|k: int| 0 <= k < i ==> a@[k] == b@[k],
        decreases n - i,
    {
        if a.get_char(i) != b.get_char(i) {
            proof {
                assert(a@[i as int] != b@[i as int]);
            }
            return false;
        }
        i = i + 1;
    }
    proof {
        assert(a@ =~= b@);
    }
    true
}

/// Case-insensitive equality of two characters, ASCII letters only.
pub open spec fn char_eq_ci(a: char, b: char) -> bool {
    a == b || ('a' <= a <= 'z' && a as u32 == b as u32 + 32) || ('a' <= b <= 'z' && b as u32
        == a as u32 + 32)
}

/// Case-insensitive string equality over ASCII letters.
pub open spec fn str_eq_ci_spec(a: Seq<char>, b: Seq<char>) -> bool {
    a.len() == b.len() && forall|k: int| 0 <= k < a.len() ==> char_eq_ci(#[trigger] a[k], b[k])
}

/// Compares two strings ignoring ASCII letter case.
pub fn str_eq_ci(a: &str, b: &str) -> (r: bool)
    ensures
        r == str_eq_ci_spec(a@, b@),
{
    let n = a.unicode_len();
    if n != b.unicode_len() {
        return false;
    }
    let mut i: usize = 0;
    while i < n
        invariant
            i <= n,
            n == a@.len() == b@.len(),
            forall|k: int| 0 <= k < i ==> char_eq_ci(#[trigger] a@[k], b@[k]),
        decreases n - i,
    {
        let x = a.get_char(i);
        let y = b.get_char(i);
        let eq = x == y || (x >= 'a' && x <= 'z' && x as u32 == y as u32 + 32) || (y >= 'a' && y
            <= 'z' && y as u32 == x as u32 + 32);
        if !eq {
            proof {
                assert(!char_eq_ci(a@[i as int], b@[i as int]));
            }
            return false;
        }
        i = i + 1;
    }
    true
}

/// `s` starts with `p`.
pub open spec fn starts_with(s: Seq<char>, p: Seq<char>) -> bool {
    s.len() >= p.len() && s.take(p.len() as int) == p
}

/// Checks a literal prefix.
pub fn has_prefix(s: &str, p: &str) -> (r: bool)
    ensures
        r == starts_with(s@, p@),
{
    let n = s.unicode_len();
    let m = p.unicode_len();
    if n < m {
        return false;
    }
    let mut i: usize = 0;
    while i < m
        invariant
            i <= m <= n,
            n == s@.len(),
            m == p@.len(),
            forall|k: int| 0 <= k < i ==> s@[k] == p@[k],
        decreases m - i,
    {
        if s.get_char(i) != p.get_char(i) {
            proof {
                assert(s@.take(m as int)[i as int] != p@[i as int]);
            }
            return false;
        }
        i = i + 1;
    }
    proof {
        assert(s@.take(m as int) =~= p@);
    }
    true
}

/// One parsed op of the line-oriented grammar, in canonical form.
#[derive(Clone, Debug)]
pub enum ParsedOp {
    SelectUniverse { universe: String, n: u8 },
    FilterWeight { min: u32, max: u32 },
    TopK { target_elem: String, k: u64 },
    StartElem { elem: String },
    SetBit { i: u8, b: u8 },
    WitnessNearest { target_elem: String, metric: String },
    ReturnSet { max_items: u64, include_witness: bool },
}

/// The mathematical image of a parsed op.
pub enum OpV {
    SelectUniverse { universe: Seq<char>, n: u8 },
    FilterWeight { min: u32, max: u32 },
    TopK { target_elem: Seq<char>, k: u64 },
    StartElem { elem: Seq<char> },
    SetBit { i: u8, b: u8 },
    WitnessNearest { target_elem: Seq<char>, metric: Seq<char> },
    ReturnSet { max_items: u64, include_witness: bool },
}

impl View for ParsedOp {
    type V = OpV;

    open spec fn view(&self) -> OpV {
        match self {
            ParsedOp::SelectUniverse { universe, n } => OpV::SelectUniverse {
                universe: universe@,
                n: *n,
            },
            ParsedOp::FilterWeight { min, max } => OpV::FilterWeight { min: *min, max: *max },
            ParsedOp::TopK { target_elem, k } => OpV::TopK { target_elem: target_elem@, k: *k },
            ParsedOp::StartElem { elem } => OpV::StartElem { elem: elem@ },
            ParsedOp::SetBit { i, b } => OpV::SetBit { i: *i, b: *b },
            ParsedOp::WitnessNearest { target_elem, metric } => OpV::WitnessNearest {
                target_elem: target_elem@,
                metric: metric@,
            },
            ParsedOp::ReturnSet { max_items, include_witness } => OpV::ReturnSet {
                max_items: *max_items,
                include_witness: *include_witness,
            },
        }
    }
}

impl OpV {
    /// Well-formed ops: bit indices address the 8-bit signature store and
    /// every embedded string can stand unescaped in a JSON record.
    pub open spec fn wf(self) -> bool {
        match self {
            OpV::SelectUniverse { universe, n } => json_safe(universe),
            OpV::FilterWeight { min, max } => true,
            OpV::TopK { target_elem, k } => json_safe(target_elem),
            OpV::StartElem { elem } => json_safe(elem),
            OpV::SetBit { i, b } => i < 8,
            OpV::WitnessNearest { target_elem, metric } => json_safe(target_elem) && json_safe(
                metric,
            ),
            OpV::ReturnSet { max_items, include_witness } => true,
        }
    }
}

/// The errors the executor can surface: a malformed op or argument, or an
/// op that the live universe cannot take.
#[derive(Clone, Copy, Debug, PartialEq, Eq, Structural)]
pub enum ExecError {
    Parse,
    Schema,
}

/// The first position at or after `at` that is not ASCII whitespace.
pub open spec fn ws_end(s: Seq<char>, at: int) -> int
    decreases s.len() - at,
{
    if 0 <= at < s.len() && crate::strnum::is_ws(s[at]) {
        ws_end(s, at + 1)
    } else {
        at
    }
}

/// The first position at or after `at` that is ASCII whitespace.
pub open spec fn tok_end(s: Seq<char>, at: int) -> int
    decreases s.len() - at,
{
    if 0 <= at < s.len() && !crate::strnum::is_ws(s[at]) {
        tok_end(s, at + 1)
    } else {
        at
    }
}

proof fn lemma_ws_end_bounds(s: Seq<char>, at: int)
    requires
        0 <= at <= s.len(),
    ensures
        at <= ws_end(s, at) <= s.len(),
        ws_end(s, at) < s.len() ==> !crate::strnum::is_ws(s[ws_end(s, at)]),
        forall|k: int| at <= k < ws_end(s, at) ==> crate::strnum::is_ws(#[trigger] s[k]),
    decreases s.len() - at,
{
    if at < s.len() && crate::strnum::is_ws(s[at]) {
        lemma_ws_end_bounds(s, at + 1);
    }
}

proof fn lemma_tok_end_bounds(s: Seq<char>, at: int)
    requires
        0 <= at <= s.len(),
    ensures
        at <= tok_end(s, at) <= s.len(),
        tok_end(s, at) < s.len() ==> crate::strnum::is_ws(s[tok_end(s, at)]),
        forall|k: int| at <= k < tok_end(s, at) ==> !crate::strnum::is_ws(#[trigger] s[k]),
        at < s.len() && !crate::strnum::is_ws(s[at]) ==> tok_end(s, at) > at,
    decreases s.len() - at,
{
    if at < s.len() && !crate::strnum::is_ws(s[at]) {
        lemma_tok_end_bounds(s, at + 1);
    }
}

/// `tok_end` lands exactly where the non-whitespace run stops.
proof fn lemma_tok_end_is(s: Seq<char>, at: int, e: int)
    requires
        0 <= at <= e <= s.len(),
        forall|k: int| at <= k < e ==> !crate::strnum::is_ws(#[trigger] s[k]),
        e < s.len() ==> crate::strnum::is_ws(s[e]),
    ensures
        tok_end(s, at) == e,
    decreases e - at,
{
    if at < e {
        lemma_tok_end_is(s, at + 1, e);
    }
}

/// The whitespace-separated tokens of `s[at..]`, in order, empties dropped.
pub open spec fn tokens_from(s: Seq<char>, at: int) -> Seq<Seq<char>>
    decreases s.len() - at,
    via tokens_from_decreases
{
    if !(0 <= at <= s.len()) {
        Seq::empty()
    } else {
        let a = ws_end(s, at);
        if a >= s.len() {
            Seq::empty()
        } else {
            let e = tok_end(s, a);
            seq![s.subrange(a, e)] + tokens_from(s, e)
        }
    }
}

#[via_fn]
proof fn tokens_from_decreases(s: Seq<char>, at: int) {
    if 0 <= at <= s.len() {
        lemma_ws_end_bounds(s, at);
        let a = ws_end(s, at);
        if a < s.len() {
            lemma_tok_end_bounds(s, a);
        }
    }
}

/// The whitespace-separated tokens of a whole line.
pub open spec fn tokens_of(s: Seq<char>) -> Seq<Seq<char>> {
    tokens_from(s, 0)
}

/// Skipping one whitespace character skips no token.
proof fn lemma_tokens_ws_skip(s: Seq<char>, i: int)
    requires
        0 <= i < s.len(),
        crate::strnum::is_ws(s[i]),
    ensures
        tokens_from(s, i) == tokens_from(s, i + 1),
{
    assert(ws_end(s, i) == ws_end(s, i + 1));
}

/// A maximal non-whitespace run starting at `i` is the next token.
proof fn lemma_tokens_take(s: Seq<char>, i: int, j: int)
    requires
        0 <= i < j <= s.len(),
        !crate::strnum::is_ws(s[i]),
        forall|k: int| i <= k < j ==> !crate::strnum::is_ws(#[trigger] s[k]),
        j < s.len() ==> crate::strnum::is_ws(s[j]),
    ensures
        tokens_from(s, i) == seq![s.subrange(i, j)] + tokens_from(s, j),
{
    assert(ws_end(s, i) == i);
    lemma_tok_end_is(s, i, j);
}

/// Splits on ASCII whitespace, dropping empty tokens.
fn split_ws<'a>(s: &'a str) -> (r: Vec<&'a str>)
    ensures
        r@.map_values(|t: &'a str| t@) == tokens_of(s@),
{
    let n = s.unicode_len();
    let mut out: Vec<&'a str> = Vec::new();
    let mut i: usize = 0;
    proof {
        assert(out@.map_values(|t: &'a str| t@) =~= Seq::<Seq<char>>::empty());
    }
    while i < n
        invariant
            i <= n,
            n == s@.len(),
            tokens_of(s@) == out@.map_values(|t: &'a str| t@) + tokens_from(s@, i as int),
        decreases n - i,
    {
        let ghost outv = out@.map_values(|t: &'a str| t@);
        if is_ws_at_exec(s, i) {
            proof {
                lemma_tokens_ws_skip(s@, i as int);
            }
            i = i + 1;
        } else {
            let start = i;
            let mut j = i + 1;
            while j < n && !is_ws_at_exec(s, j)
                invariant
                    start < j <= n,
                    n == s@.len(),
                    forall|k: int| start <= k < j ==> !crate::strnum::is_ws(#[trigger] s@[k]),
                    !crate::strnum::is_ws(s@[start as int]),
                decreases n - j,
            {
                j = j + 1;
            }
            let tok = s.substring_char(start, j);
            proof {
                assert(tok@ == s@.subrange(start as int, j as int));
                lemma_tokens_take(s@, start as int, j as int);
            }
            out.push(tok);
            i = j;
            proof {
                assert(out@.map_values(|t: &'a str| t@) =~= outv.push(tok@));
                assert(outv + (seq![tok@] + tokens_from(s@, i as int)) =~= outv.push(tok@)
                    + tokens_from(s@, i as int));
            }
        }
    }
    proof {
        assert(tokens_from(s@, n as int) =~= Seq::<Seq<char>>::empty());
        assert(out@.map_values(|t: &'a str| t@) + Seq::<Seq<char>>::empty() =~= out@.map_values(
            |t: &'a str| t@,
        ));
    }
    out
}

/// True when the character at `i` is ASCII whitespace.
fn is_ws_at_exec(s: &str, i: usize) -> (r: bool)
    requires
        i < s@.len(),
    ensures
        r == crate::strnum::is_ws(s@[i as int]),
{
    let c = s.get_char(i);
    c == ' ' || c == '\t' || c == '\n' || c == '\r'
}

/// A `key=value` token with an unsigned decimal value.
pub open spec fn spec_parse_kv_u64(tok: Seq<char>, key: Seq<char>) -> Option<u64> {
    if starts_with(tok, key + seq!['=']) {
        crate::strnum::spec_parse_u64(tok.skip(key.len() as int + 1))
    } else {
        None
    }
}

/// Reads the value of a `key=value` token as unsigned decimal.
pub fn parse_kv_u64(tok: &str, key: &str) -> (r: Option<u64>)
    ensures
        r == spec_parse_kv_u64(tok@, key@),
{
    let n = tok.unicode_len();
    let m = key.unicode_len();
    let ghost pfx = key@ + seq!['='];
    if n <= m {
        proof {
            assert(!starts_with(tok@, pfx));
        }
        return None;
    }
    let mut i: usize = 0;
    while i < m
        invariant
            i <= m,
            m + 1 <= n,
            n == tok@.len(),
            m == key@.len(),
            pfx == key@ + seq!['='],
            forall|k: int| 0 <= k < i ==> tok@[k] == key@[k],
        decreases m - i,
    {
        if tok.get_char(i) != key.get_char(i) {
            proof {
                assert(tok@.take(m + 1 as int)[i as int] != pfx[i as int]);
                assert(!starts_with(tok@, pfx));
            }
            return None;
        }
        i = i + 1;
    }
    if tok.get_char(m) != '=' {
        proof {
            assert(tok@.take(m + 1 as int)[m as int] != pfx[m as int]);
            assert(!starts_with(tok@, pfx));
        }
        return None;
    }
    let rest = tok.substring_char(m + 1, n);
    proof {
        assert(tok@.take(m + 1 as int) =~= pfx);
        assert(starts_with(tok@, pfx));
        assert(rest@ =~= tok@.skip(m + 1));
    }
    crate::strnum::parse_u64_str(rest)
}

/// A `key=value` token with a boolean value: `0|1|true|false` in the
/// spellings the grammar accepts.
pub open spec fn spec_parse_kv_bool(tok: Seq<char>, key: Seq<char>) -> Option<bool> {
    if starts_with(tok, key + seq!['=']) {
        let v = tok.skip(key.len() as int + 1);
        if v == "1"@ || v == "true"@ || v == "TRUE"@ || v == "True"@ {
            Some(true)
        } else if v == "0"@ || v == "false"@ || v == "FALSE"@ || v == "False"@ {
            Some(false)
        } else {
            None
        }
    } else {
        None
    }
}

/// Reads the value of a `key=value` token as a boolean.
pub fn parse_kv_bool(tok: &str, key: &str) -> (r: Option<bool>)
    ensures
        r == spec_parse_kv_bool(tok@, key@),
{
    let n = tok.unicode_len();
    let m = key.unicode_len();
    let ghost pfx = key@ + seq!['='];
    if n <= m {
        proof {
            assert(!starts_with(tok@, pfx));
        }
        return None;
    }
    let mut i: usize = 0;
    while i < m
        invariant
            i <= m,
            m + 1 <= n,
            n == tok@.len(),
            m == key@.len(),
            pfx == key@ + seq!['='],
            forall|k: int| 0 <= k < i ==> tok@[k] == key@[k],
        decreases m - i,
    {
        if tok.get_char(i) != key.get_char(i) {
            proof {
                assert(tok@.take(m + 1 as int)[i as int] != pfx[i as int]);
                assert(!starts_with(tok@, pfx));
            }
            return None;
        }
        i = i + 1;
    }
    if tok.get_char(m) != '=' {
        proof {
            assert(tok@.take(m + 1 as int)[m as int] != pfx[m as int]);
            assert(!starts_with(tok@, pfx));
        }
        return None;
    }
    let rest = tok.substring_char(m + 1, n);
    proof {
        assert(tok@.take(m + 1 as int) =~= pfx);
        assert(starts_with(tok@, pfx));
        assert(rest@ =~= tok@.skip(m + 1));
    }
    if str_eq(rest, "1") || str_eq(rest, "true") || str_eq(rest, "TRUE") || str_eq(rest, "True") {
        Some(true)
    } else if str_eq(rest, "0") || str_eq(rest, "false") || str_eq(rest, "FALSE") || str_eq(
        rest,
        "False",
    ) {
        Some(false)
    } else {
        None
    }
}

/// First-match scan for a `key=value` token under either key name,
/// starting at token `j`, as the op grammar reads its arguments.
pub open spec fn scan_kv2(
    toks: Seq<Seq<char>>,
    j: int,
    k1: Seq<char>,
    k2: Seq<char>,
    cur: Option<u64>,
) -> Option<u64>
    decreases toks.len() - j,
{
    if j < 0 || j >= toks.len() {
        cur
    } else {
        let c1 = if cur is Some {
            cur
        } else {
            spec_parse_kv_u64(toks[j], k1)
        };
        let c2 = if c1 is Some {
            c1
        } else {
            spec_parse_kv_u64(toks[j], k2)
        };
        scan_kv2(toks, j + 1, k1, k2, c2)
    }
}

/// The `SELECT_UNIVERSE` argument scan: a `universe=` token claims the
/// name; otherwise an `n=` token claims the arity; otherwise a bare first
/// token without `=` is the name.
pub open spec fn sel_scan(
    toks: Seq<Seq<char>>,
    j: int,
    uni: Option<Seq<char>>,
    n: Option<u64>,
) -> (Option<Seq<char>>, Option<u64>)
    decreases toks.len() - j,
{
    if j < 0 || j >= toks.len() {
        (uni, n)
    } else {
        let t = toks[j];
        if uni is None && starts_with(t, "universe="@) {
            sel_scan(toks, j + 1, Some(t.skip("universe="@.len() as int)), n)
        } else {
            let n2 = if n is None {
                spec_parse_kv_u64(t, "n"@)
            } else {
                n
            };
            if n is None && n2 is Some {
                sel_scan(toks, j + 1, uni, n2)
            } else if uni is None && j == 1 && crate::qe::first_at(t, '=') is None {
                sel_scan(toks, j + 1, Some(t), n2)
            } else {
                sel_scan(toks, j + 1, uni, n2)
            }
        }
    }
}

/// The `TOPK` argument scan: `target=` or `target_elem=` claims the
/// target, `k=` the count; first match wins.
pub open spec fn topk_scan(
    toks: Seq<Seq<char>>,
    j: int,
    tgt: Option<Seq<char>>,
    k: Option<u64>,
) -> (Option<Seq<char>>, Option<u64>)
    decreases toks.len() - j,
{
    if j < 0 || j >= toks.len() {
        (tgt, k)
    } else {
        let t = toks[j];
        let t1 = if tgt is None && starts_with(t, "target="@) {
            Some(t.skip("target="@.len() as int))
        } else {
            tgt
        };
        let t2 = if t1 is None && starts_with(t, "target_elem="@) {
            Some(t.skip("target_elem="@.len() as int))
        } else {
            t1
        };
        let k2 = if k is None {
            spec_parse_kv_u64(t, "k"@)
        } else {
            k
        };
        topk_scan(toks, j + 1, t2, k2)
    }
}

/// The `WITNESS_NEAREST` argument scan: the target as in `TOPK`, plus an
/// optional `metric=`.
pub open spec fn wn_scan(
    toks: Seq<Seq<char>>,
    j: int,
    tgt: Option<Seq<char>>,
    met: Option<Seq<char>>,
) -> (Option<Seq<char>>, Option<Seq<char>>)
    decreases toks.len() - j,
{
    if j < 0 || j >= toks.len() {
        (tgt, met)
    } else {
        let t = toks[j];
        let t1 = if tgt is None && starts_with(t, "target="@) {
            Some(t.skip("target="@.len() as int))
        } else {
            tgt
        };
        let t2 = if t1 is None && starts_with(t, "target_elem="@) {
            Some(t.skip("target_elem="@.len() as int))
        } else {
            t1
        };
        let m2 = if met is None && starts_with(t, "metric="@) {
            Some(t.skip("metric="@.len() as int))
        } else {
            met
        };
        wn_scan(toks, j + 1, t2, m2)
    }
}

/// The `RETURN_SET` argument scan: defaults 20 and false, the last
/// occurrence of each key winning.
pub open spec fn ret_scan(toks: Seq<Seq<char>>, j: int, mi: u64, iw: bool) -> (u64, bool)
    decreases toks.len() - j,
{
    if j < 0 || j >= toks.len() {
        (mi, iw)
    } else {
        let t = toks[j];
        let mi2 = match spec_parse_kv_u64(t, "max_items"@) {
            Some(v) => v,
            None => mi,
        };
        let iw2 = match spec_parse_kv_bool(t, "include_witness"@) {
            Some(v) => v,
            None => iw,
        };
        ret_scan(toks, j + 1, mi2, iw2)
    }
}

/// What the line-oriented op grammar accepts, and the canonical op each
/// accepted line denotes: `None` is a parse error.
#[verifier::opaque]
pub open spec fn spec_parse_op(s: Seq<char>) -> Option<OpV> {
    let t = crate::strnum::trim_of(s);
    if starts_with(t, "LOAD "@) {
        let elem = crate::strnum::trim_of(t.skip("LOAD "@.len() as int));
        if elem.len() == 0 || !json_safe(elem) {
            None
        } else {
            Some(OpV::StartElem { elem })
        }
    } else if starts_with(t, "MASK_BIT"@) || starts_with(t, "SET_BIT"@) {
        let toks = tokens_of(t);
        let bit = scan_kv2(toks, 1, "bit"@, "i"@, None);
        let val = scan_kv2(toks, 1, "val"@, "b"@, None);
        match (bit, val) {
            (Some(i), Some(b)) => if i <= 7 && b <= 255 {
                Some(OpV::SetBit { i: i as u8, b: b as u8 })
            } else {
                None
            },
            _ => None,
        }
    } else if starts_with(t, "SELECT_UNIVERSE"@) {
        let (uni, n) = sel_scan(tokens_of(t), 1, None, None);
        match (uni, n) {
            (Some(u), Some(nv)) => if nv > 255 || !json_safe(u) {
                None
            } else {
                Some(OpV::SelectUniverse { universe: u, n: nv as u8 })
            },
            _ => None,
        }
    } else if starts_with(t, "FILTER_WEIGHT"@) {
        let toks = tokens_of(t);
        let mn = scan_kv2(toks, 1, "min"@, "min"@, None);
        let mx = scan_kv2(toks, 1, "max"@, "max"@, None);
        match (mn, mx) {
            (Some(a), Some(b)) => if a <= 0xffff_ffff && b <= 0xffff_ffff {
                Some(OpV::FilterWeight { min: a as u32, max: b as u32 })
            } else {
                None
            },
            _ => None,
        }
    } else if starts_with(t, "TOPK"@) {
        let (tgt, k) = topk_scan(tokens_of(t), 1, None, None);
        match (tgt, k) {
            (Some(tv), Some(kv)) => if !json_safe(tv) {
                None
            } else {
                Some(OpV::TopK { target_elem: tv, k: kv })
            },
            _ => None,
        }
    } else if starts_with(t, "WITNESS_NEAREST"@) {
        let (tgt, met) = wn_scan(tokens_of(t), 1, None, None);
        match tgt {
            None => None,
            Some(tv) => if !json_safe(tv) {
                None
            } else {
                match met {
                    None => Some(
                        OpV::WitnessNearest { target_elem: tv, metric: "ABS_DIFF"@ },
                    ),
                    Some(mv) => if !json_safe(mv) {
                        None
                    } else {
                        Some(OpV::WitnessNearest { target_elem: tv, metric: mv })
                    },
                }
            },
        }
    } else if starts_with(t, "RETURN_SET"@) {
        let (mi, iw) = ret_scan(tokens_of(t), 1, 20, false);
        Some(OpV::ReturnSet { max_items: mi, include_witness: iw })
    } else {
        None
    }
}

/// Every op the grammar accepts is well-formed.
pub proof fn lemma_spec_parse_op_wf(s: Seq<char>)
    ensures
        spec_parse_op(s) matches Some(o) ==> o.wf(),
{
    reveal(spec_parse_op);
    reveal_strlit("ABS_DIFF");
}

/// The view of an optional borrowed string.
pub open spec fn view_opt_str(o: Option<&str>) -> Option<Seq<char>> {
    match o {
        Some(s) => Some(s@),
        None => None,
    }
}

/// Parses one line-oriented op into its canonical form: exactly the lines
/// the grammar `spec_parse_op` accepts, to exactly the ops it denotes.
/// Accepts the proposer aliases (`MASK_BIT bit=/val=` beside `SET_BIT
/// i=/b=`, `target=` beside `target_elem=`); rejects out-of-range argument
/// values and strings that could not stand in a JSON record.
#[verifier::rlimit(100)]
#[verifier::spinoff_prover]
pub fn parse_op_to_semtrace(op: &str) -> (r: Result<ParsedOp, ExecError>)
    ensures
        (r is Ok) == (spec_parse_op(op@) is Some),
        r matches Ok(p) ==> Some(p@) == spec_parse_op(op@) && p@.wf(),
{
    proof {
        reveal(spec_parse_op);
    }
    let s = crate::strnum::trim(op);
    let ghost tv = s@;
    let n = s.unicode_len();
    if has_prefix(s, "LOAD ") {
        proof {
            reveal_strlit("LOAD ");
        }
        let rest = s.substring_char(5, n);
        proof {
            assert(rest@ =~= tv.skip(5));
        }
        let elem = crate::strnum::trim(rest);
        if elem.unicode_len() == 0 {
            return Err(ExecError::Parse);
        }
        if !is_json_safe(elem) {
            return Err(ExecError::Parse);
        }
        return Ok(ParsedOp::StartElem { elem: String::from_str(elem) });
    }
    if has_prefix(s, "MASK_BIT") || has_prefix(s, "SET_BIT") {
        let toks = split_ws(s);
        let ghost toksv = tokens_of(tv);
        let mut bit: Option<u64> = None;
        let mut val: Option<u64> = None;
        let mut idx: usize = 1;
        while idx < toks.len()
            invariant
                1 <= idx,
                toksv == toks@.map_values(|t: &str| t@),
                scan_kv2(toksv, idx as int, "bit"@, "i"@, bit) == scan_kv2(
                    toksv,
                    1,
                    "bit"@,
                    "i"@,
                    None,
                ),
                scan_kv2(toksv, idx as int, "val"@, "b"@, val) == scan_kv2(
                    toksv,
                    1,
                    "val"@,
                    "b"@,
                    None,
                ),
            decreases toks.len() - idx,
        {
            let t = toks[idx];
            proof {
                assert(toksv[idx as int] == t@);
            }
            let ghost bit0 = bit;
            let ghost val0 = val;
            if bit.is_none() {
                bit = parse_kv_u64(t, "bit");
            }
            if bit.is_none() {
                bit = parse_kv_u64(t, "i");
            }
            if val.is_none() {
                val = parse_kv_u64(t, "val");
            }
            if val.is_none() {
                val = parse_kv_u64(t, "b");
            }
            proof {
                assert(scan_kv2(toksv, idx as int, "bit"@, "i"@, bit0) == scan_kv2(
                    toksv,
                    idx + 1,
                    "bit"@,
                    "i"@,
                    bit,
                ));
                assert(scan_kv2(toksv, idx as int, "val"@, "b"@, val0) == scan_kv2(
                    toksv,
                    idx + 1,
                    "val"@,
                    "b"@,
                    val,
                ));
            }
            idx = idx + 1;
        }
        return match (bit, val) {
            (Some(i), Some(b)) => {
                if i <= 7 && b <= 255 {
                    Ok(ParsedOp::SetBit { i: i as u8, b: b as u8 })
                } else {
                    Err(ExecError::Parse)
                }
            },
            _ => Err(ExecError::Parse),
        };
    }
    if has_prefix(s, "SELECT_UNIVERSE") {
        let toks = split_ws(s);
        let ghost toksv = tokens_of(tv);
        let mut universe: Option<&str> = None;
        let mut nval: Option<u64> = None;
        let mut idx: usize = 1;
        while idx < toks.len()
            invariant
                1 <= idx,
                toksv == toks@.map_values(|t: &str| t@),
                sel_scan(toksv, idx as int, view_opt_str(universe), nval) == sel_scan(
                    toksv,
                    1,
                    None,
                    None,
                ),
            decreases toks.len() - idx,
        {
            let t = toks[idx];
            proof {
                assert(toksv[idx as int] == t@);
                reveal_strlit("universe=");
            }
            let ghost uni0 = view_opt_str(universe);
            let ghost nval0 = nval;
            if universe.is_none() && has_prefix(t, "universe=") {
                let tl = t.unicode_len();
                universe = Some(t.substring_char(9, tl));
                proof {
                    assert(universe->Some_0@ =~= t@.skip(9));
                    assert(sel_scan(toksv, idx as int, uni0, nval0) == sel_scan(
                        toksv,
                        idx + 1,
                        view_opt_str(universe),
                        nval,
                    ));
                }
            } else {
                if nval.is_none() {
                    nval = parse_kv_u64(t, "n");
                    if nval.is_some() {
                        proof {
                            assert(sel_scan(toksv, idx as int, uni0, nval0) == sel_scan(
                                toksv,
                                idx + 1,
                                view_opt_str(universe),
                                nval,
                            ));
                        }
                        idx = idx + 1;
                        continue ;
                    }
                }
                if universe.is_none() && idx == 1 && crate::qe::find_char(t, '=').is_none() {
                    universe = Some(t);
                }
                proof {
                    assert(sel_scan(toksv, idx as int, uni0, nval0) == sel_scan(
                        toksv,
                        idx + 1,
                        view_opt_str(universe),
                        nval,
                    ));
                }
            }
            idx = idx + 1;
        }
        let u = match universe {
            None => {
                return Err(ExecError::Parse);
            },
            Some(u) => u,
        };
        let nv = match nval {
            None => {
                return Err(ExecError::Parse);
            },
            Some(v) => v,
        };
        if nv > 255 {
            return Err(ExecError::Parse);
        }
        if !is_json_safe(u) {
            return Err(ExecError::Parse);
        }
        return Ok(ParsedOp::SelectUniverse { universe: String::from_str(u), n: nv as u8 });
    }
    if has_prefix(s, "FILTER_WEIGHT") {
        let toks = split_ws(s);
        let ghost toksv = tokens_of(tv);
        let mut minv: Option<u64> = None;
        let mut maxv: Option<u64> = None;
        let mut idx: usize = 1;
        while idx < toks.len()
            invariant
                1 <= idx,
                toksv == toks@.map_values(|t: &str| t@),
                scan_kv2(toksv, idx as int, "min"@, "min"@, minv) == scan_kv2(
                    toksv,
                    1,
                    "min"@,
                    "min"@,
                    None,
                ),
                scan_kv2(toksv, idx as int, "max"@, "max"@, maxv) == scan_kv2(
                    toksv,
                    1,
                    "max"@,
                    "max"@,
                    None,
                ),
            decreases toks.len() - idx,
        {
            let t = toks[idx];
            proof {
                assert(toksv[idx as int] == t@);
            }
            let ghost minv0 = minv;
            let ghost maxv0 = maxv;
            if minv.is_none() {
                minv = parse_kv_u64(t, "min");
            }
            if maxv.is_none() {
                maxv = parse_kv_u64(t, "max");
            }
            proof {
                assert(scan_kv2(toksv, idx as int, "min"@, "min"@, minv0) == scan_kv2(
                    toksv,
                    idx + 1,
                    "min"@,
                    "min"@,
                    minv,
                ));
                assert(scan_kv2(toksv, idx as int, "max"@, "max"@, maxv0) == scan_kv2(
                    toksv,
                    idx + 1,
                    "max"@,
                    "max"@,
                    maxv,
                ));
            }
            idx = idx + 1;
        }
        return match (minv, maxv) {
            (Some(mn), Some(mx)) => {
                if mn <= 0xffff_ffff && mx <= 0xffff_ffff {
                    Ok(ParsedOp::FilterWeight { min: mn as u32, max: mx as u32 })
                } else {
                    Err(ExecError::Parse)
                }
            },
            _ => Err(ExecError::Parse),
        };
    }
    if has_prefix(s, "TOPK") {
        let toks = split_ws(s);
        let ghost toksv = tokens_of(tv);
        let mut target: Option<&str> = None;
        let mut kval: Option<u64> = None;
        let mut idx: usize = 1;
        while idx < toks.len()
            invariant
                1 <= idx,
                toksv == toks@.map_values(|t: &str| t@),
                topk_scan(toksv, idx as int, view_opt_str(target), kval) == topk_scan(
                    toksv,
                    1,
                    None,
                    None,
                ),
            decreases toks.len() - idx,
        {
            let t = toks[idx];
            proof {
                assert(toksv[idx as int] == t@);
                reveal_strlit("target=");
                reveal_strlit("target_elem=");
            }
            let ghost tgt0 = view_opt_str(target);
            let ghost k0 = kval;
            if target.is_none() && has_prefix(t, "target=") {
                let tl = t.unicode_len();
                target = Some(t.substring_char(7, tl));
                proof {
                    assert(target->Some_0@ =~= t@.skip(7));
                }
            }
            if target.is_none() && has_prefix(t, "target_elem=") {
                let tl = t.unicode_len();
                target = Some(t.substring_char(12, tl));
                proof {
                    assert(target->Some_0@ =~= t@.skip(12));
                }
            }
            if kval.is_none() {
                kval = parse_kv_u64(t, "k");
            }
            proof {
                assert(topk_scan(toksv, idx as int, tgt0, k0) == topk_scan(
                    toksv,
                    idx + 1,
                    view_opt_str(target),
                    kval,
                ));
            }
            idx = idx + 1;
        }
        return match (target, kval) {
            (Some(t), Some(k)) => {
                if !is_json_safe(t) {
                    Err(ExecError::Parse)
                } else {
                    Ok(ParsedOp::TopK { target_elem: String::from_str(t), k })
                }
            },
            _ => Err(ExecError::Parse),
        };
    }
    if has_prefix(s, "WITNESS_NEAREST") {
        let toks = split_ws(s);
        let ghost toksv = tokens_of(tv);
        let mut target: Option<&str> = None;
        let mut metric: Option<&str> = None;
        let mut idx: usize = 1;
        while idx < toks.len()
            invariant
                1 <= idx,
                toksv == toks@.map_values(|t: &str| t@),
                wn_scan(toksv, idx as int, view_opt_str(target), view_opt_str(metric))
                    == wn_scan(toksv, 1, None, None),
            decreases toks.len() - idx,
        {
            let t = toks[idx];
            proof {
                assert(toksv[idx as int] == t@);
                reveal_strlit("target=");
                reveal_strlit("target_elem=");
                reveal_strlit("metric=");
            }
            let ghost tgt0 = view_opt_str(target);
            let ghost met0 = view_opt_str(metric);
            if target.is_none() && has_prefix(t, "target=") {
                let tl = t.unicode_len();
                target = Some(t.substring_char(7, tl));
                proof {
                    assert(target->Some_0@ =~= t@.skip(7));
                }
            }
            if target.is_none() && has_prefix(t, "target_elem=") {
                let tl = t.unicode_len();
                target = Some(t.substring_char(12, tl));
                proof {
                    assert(target->Some_0@ =~= t@.skip(12));
                }
            }
            if metric.is_none() && has_prefix(t, "metric=") {
                let tl = t.unicode_len();
                metric = Some(t.substring_char(7, tl));
                proof {
                    assert(metric->Some_0@ =~= t@.skip(7));
                }
            }
            proof {
                assert(wn_scan(toksv, idx as int, tgt0, met0) == wn_scan(
                    toksv,
                    idx + 1,
                    view_opt_str(target),
                    view_opt_str(metric),
                ));
            }
            idx = idx + 1;
        }
        let t = match target {
            None => {
                return Err(ExecError::Parse);
            },
            Some(t) => t,
        };
        if !is_json_safe(t) {
            return Err(ExecError::Parse);
        }
        let metric_s: String = match metric {
            None => String::from_str("ABS_DIFF"),
            Some(m) => {
                if !is_json_safe(m) {
                    return Err(ExecError::Parse);
                }
                String::from_str(m)
            },
        };
        proof {
            if metric is None {
                reveal_strlit("ABS_DIFF");
                assert(json_safe(metric_s@));
            }
        }
        return Ok(
            ParsedOp::WitnessNearest { target_elem: String::from_str(t), metric: metric_s },
        );
    }
    if has_prefix(s, "RETURN_SET") {
        let toks = split_ws(s);
        let ghost toksv = tokens_of(tv);
        let mut max_items: u64 = 20;
        let mut include_witness: bool = false;
        let mut idx: usize = 1;
        while idx < toks.len()
            invariant
                1 <= idx,
                toksv == toks@.map_values(|t: &str| t@),
                ret_scan(toksv, idx as int, max_items, include_witness) == ret_scan(
                    toksv,
                    1,
                    20,
                    false,
                ),
            decreases toks.len() - idx,
        {
            let t = toks[idx];
            proof {
                assert(toksv[idx as int] == t@);
            }
            let ghost mi0 = max_items;
            let ghost iw0 = include_witness;
            match parse_kv_u64(t, "max_items") {
                Some(v) => {
                    max_items = v;
                },
                None => {},
            }
            match parse_kv_bool(t, "include_witness") {
                Some(v) => {
                    include_witness = v;
                },
                None => {},
            }
            proof {
                assert(ret_scan(toksv, idx as int, mi0, iw0) == ret_scan(
                    toksv,
                    idx + 1,
                    max_items,
                    include_witness,
                ));
            }
            idx = idx + 1;
        }
        return Ok(ParsedOp::ReturnSet { max_items, include_witness });
    }
    Err(ExecError::Parse)
}

/// The spellings accepted for the Boolean-function universe.
pub open spec fn is_boolfun_name(s: Seq<char>) -> bool {
    ||| str_eq_ci_spec(s, "BOOLFUN"@)
    ||| str_eq_ci_spec(s, "BOOLFUN<N>"@)
    ||| str_eq_ci_spec(s, "BOOLFUN4"@)
    ||| str_eq_ci_spec(s, "BOOLFUN_4"@)
    ||| str_eq_ci_spec(s, "BOOLFUNV0"@)
    ||| str_eq_ci_spec(s, "BOOLFUNV1"@)
    ||| str_eq_ci_spec(s, "BOOLFUNS"@)
    ||| str_eq_ci_spec(s, "BOOLFUNS<N>"@)
    ||| str_eq_ci_spec(s, "BOOLFUNS4"@)
    ||| str_eq_ci_spec(s, "BOOLFUNS_4"@)
    ||| str_eq_ci_spec(s, "BOOLFUNS_V0"@)
    ||| str_eq_ci_spec(s, "BOOLFUNS_V1"@)
}

/// The spellings accepted for the rational universe.
pub open spec fn is_rational_name(s: Seq<char>) -> bool {
    str_eq_ci_spec(s, "QE"@) || str_eq_ci_spec(s, "RATIONAL"@)
}

/// The spellings accepted for the triangle universe.
pub open spec fn is_triangle_name(s: Seq<char>) -> bool {
    str_eq_ci_spec(s, "TRIANGLE"@) || str_eq_ci_spec(s, "TRI"@) || str_eq_ci_spec(s, "GEOM"@)
}

/// Which universe a declared name selects.
#[derive(Clone, Copy, Debug, PartialEq, Eq, Structural)]
pub enum UniverseKind {
    BoolFun,
    Rational,
    Triangle,
    Unknown,
}

/// Classifies a universe name, ignoring ASCII case.
pub fn universe_kind(u: &str) -> (r: UniverseKind)
    ensures
        r == (if is_boolfun_name(u@) {
            UniverseKind::BoolFun
        } else if is_rational_name(u@) {
            UniverseKind::Rational
        } else if is_triangle_name(u@) {
            UniverseKind::Triangle
        } else {
            UniverseKind::Unknown
        }),
{
    if str_eq_ci(u, "BOOLFUN") || str_eq_ci(u, "BOOLFUN<N>") || str_eq_ci(u, "BOOLFUN4")
        || str_eq_ci(u, "BOOLFUN_4") || str_eq_ci(u, "BOOLFUNV0") || str_eq_ci(u, "BOOLFUNV1")
        || str_eq_ci(u, "BOOLFUNS") || str_eq_ci(u, "BOOLFUNS<N>") || str_eq_ci(u, "BOOLFUNS4")
        || str_eq_ci(u, "BOOLFUNS_4") || str_eq_ci(u, "BOOLFUNS_V0") || str_eq_ci(
        u,
        "BOOLFUNS_V1",
    ) {
        UniverseKind::BoolFun
    } else if str_eq_ci(u, "QE") || str_eq_ci(u, "RATIONAL") {
        UniverseKind::Rational
    } else if str_eq_ci(u, "TRIANGLE") || str_eq_ci(u, "TRI") || str_eq_ci(u, "GEOM") {
        UniverseKind::Triangle
    } else {
        UniverseKind::Unknown
    }
}

/// The comma-separated raw segments of a string.
pub open spec fn split_commas(s: Seq<char>) -> Seq<Seq<char>>
    decreases s.len(),
    via split_commas_decreases
{
    match crate::qe::first_at(s, ',') {
        None => seq![s],
        Some(i) => seq![s.take(i)] + split_commas(s.subrange(i + 1, s.len() as int)),
    }
}

#[via_fn]
proof fn split_commas_decreases(s: Seq<char>) {
    crate::qe::lemma_first_at(s, ',');
}

/// The comma-separated fields, each trimmed, empties dropped.
pub open spec fn tri_fields(s: Seq<char>) -> Seq<Seq<char>> {
    split_commas(s).map_values(|p: Seq<char>| crate::strnum::trim_of(p)).filter(
        |p: Seq<char>| p.len() > 0,
    )
}

/// What a triangle element string parses to: exactly three trimmed
/// non-empty fields, each a signed 32-bit decimal.
pub open spec fn spec_parse_tri(s: Seq<char>) -> Option<(i32, i32, i32)> {
    let parts = tri_fields(s);
    if parts.len() != 3 {
        None
    } else {
        match (crate::strnum::spec_parse_i32(parts[0]), crate::strnum::spec_parse_i32(parts[1]),
        crate::strnum::spec_parse_i32(parts[2])) {
            (Some(a), Some(b), Some(c)) => Some((a, b, c)),
            _ => None,
        }
    }
}

/// Three sides in any order make a triangle: all positive, and the sorted
/// sides satisfy the strict triangle inequality.
pub open spec fn tri_new_ok(a: int, b: int, c: int) -> bool {
    let (x, y, z) = crate::geom::spec_sorted3(a, b, c);
    a >= 1 && b >= 1 && c >= 1 && x + y > z
}

/// Collects the trimmed non-empty comma fields of `s[from..]`.
fn collect_tri_fields<'a>(s: &'a str, from: usize, parts: &mut Vec<&'a str>)
    requires
        from <= s@.len(),
    ensures
        final(parts)@.map_values(|p: &'a str| p@) == old(parts)@.map_values(|p: &'a str| p@)
            + tri_fields(s@.subrange(from as int, s@.len() as int)),
    decreases s@.len() - from,
{
    proof {
        reveal(Seq::filter);
    }
    let ghost rem = s@.subrange(from as int, s@.len() as int);
    let n = s.unicode_len();
    let mut j = from;
    while j < n && !is_comma_at(s, j)
        invariant
            from <= j <= n,
            n == s@.len(),
            forall|k: int| from <= k < j ==> s@[k] != ',',
        decreases n - j,
    {
        j = j + 1;
    }
    proof {
        crate::qe::lemma_first_at(rem, ',');
        assert forall|k: int| 0 <= k < rem.len() implies rem[k] == s@[from + k] by {}
        if j < n {
            assert(rem[j - from] == ',');
            match crate::qe::first_at(rem, ',') {
                None => {
                    assert(false);
                },
                Some(i) => {
                    assert(rem[i] == ',');
                    assert(i == j - from);
                },
            }
        } else {
            assert(crate::qe::first_at(rem, ',') is None) by {
                if crate::qe::first_at(rem, ',') is Some {
                    let i = crate::qe::first_at(rem, ',')->Some_0;
                    assert(rem[i] == ',');
                }
            }
        }
    }
    let seg = s.substring_char(from, j);
    let t = crate::strnum::trim(seg);
    let ghost parts0 = parts@;
    if t.unicode_len() > 0 {
        parts.push(t);
    }
    if j < n {
        proof {
            assert(seg@ =~= rem.take(j - from));
            assert(s@.subrange(j + 1, n as int) =~= rem.subrange(j - from + 1, rem.len() as int));
        }
        collect_tri_fields(s, j + 1, parts);
        proof {
            reveal_with_fuel(Seq::filter, 3);
            let tails = tri_fields(s@.subrange(j + 1, n as int));
            let heads: Seq<Seq<char>> = if crate::strnum::trim_of(seg@).len() > 0 {
                seq![crate::strnum::trim_of(seg@)]
            } else {
                Seq::<Seq<char>>::empty()
            };
            assert(split_commas(rem) == seq![rem.take(j - from)] + split_commas(
                rem.subrange(j - from + 1, rem.len() as int),
            ));
            assert(split_commas(rem).map_values(|p: Seq<char>| crate::strnum::trim_of(p))
                =~= seq![crate::strnum::trim_of(rem.take(j - from))] + split_commas(
                rem.subrange(j - from + 1, rem.len() as int),
            ).map_values(|p: Seq<char>| crate::strnum::trim_of(p)));
            Seq::<Seq<char>>::filter_distributes_over_add(
                seq![crate::strnum::trim_of(rem.take(j - from))],
                split_commas(rem.subrange(j - from + 1, rem.len() as int)).map_values(
                    |p: Seq<char>| crate::strnum::trim_of(p),
                ),
                |p: Seq<char>| p.len() > 0,
            );
            assert(seq![crate::strnum::trim_of(rem.take(j - from))].filter(
                |p: Seq<char>| p.len() > 0,
            ) =~= heads);
            assert(tri_fields(rem) =~= heads + tails);
            assert(final(parts)@.map_values(|p: &'a str| p@) =~= old(parts)@.map_values(
                |p: &'a str| p@,
            ) + tri_fields(rem));
        }
    } else {
        proof {
            reveal_with_fuel(Seq::filter, 3);
            assert(seg@ =~= rem);
            assert(split_commas(rem) == seq![rem]);
            let mapped = split_commas(rem).map_values(|p: Seq<char>| crate::strnum::trim_of(p));
            assert(mapped =~= seq![crate::strnum::trim_of(rem)]);
            if crate::strnum::trim_of(rem).len() > 0 {
                assert(tri_fields(rem) =~= seq![crate::strnum::trim_of(rem)]);
            } else {
                assert(tri_fields(rem) =~= Seq::<Seq<char>>::empty());
            }
            assert(final(parts)@.map_values(|p: &'a str| p@) =~= old(parts)@.map_values(
                |p: &'a str| p@,
            ) + tri_fields(rem));
        }
    }
}

/// True when the character at `i` is a comma.
fn is_comma_at(s: &str, i: usize) -> (r: bool)
    requires
        i < s@.len(),
    ensures
        r == (s@[i as int] == ','),
{
    s.get_char(i) == ','
}

/// Parses a triangle element string `"a,b,c"`.
pub fn parse_tri(s: &str) -> (r: Option<(i32, i32, i32)>)
    ensures
        r == spec_parse_tri(s@),
{
    let mut parts: Vec<&str> = Vec::new();
    collect_tri_fields(s, 0, &mut parts);
    proof {
        assert(s@.subrange(0, s@.len() as int) =~= s@);
        assert(parts@.map_values(|p: &str| p@) == tri_fields(s@));
    }
    if parts.len() != 3 {
        return None;
    }
    proof {
        assert(parts@[0]@ == tri_fields(s@)[0]);
        assert(parts@[1]@ == tri_fields(s@)[1]);
        assert(parts@[2]@ == tri_fields(s@)[2]);
    }
    let pa = parse_i32_str(parts[0]);
    let pb = parse_i32_str(parts[1]);
    let pc = parse_i32_str(parts[2]);
    match (pa, pb, pc) {
        (Some(a), Some(b), Some(c)) => Some((a, b, c)),
        _ => None,
    }
}

/// Parses a whole string as a signed 32-bit decimal.
fn parse_i32_str(s: &str) -> (r: Option<i32>)
    ensures
        r == crate::strnum::spec_parse_i32(s@),
{
    let n = s.unicode_len();
    let r = crate::strnum::parse_i32_range(s, 0, n);
    proof {
        assert(s@.subrange(0, n as int) =~= s@);
    }
    r
}

/// Elements of a filtered sequence of well-formed fractions are well-formed.
proof fn lemma_filter_wf_fr(u: Seq<Frac>, pred: spec_fn(Frac) -> bool)
    requires
        forall|k: int| 0 <= k < u.len() ==> (#[trigger] u[k]).wf(),
    ensures
        forall|k: int| 0 <= k < u.filter(pred).len() ==> (#[trigger] u.filter(pred)[k]).wf(),
    decreases u.len(),
{
    reveal(Seq::filter);
    if u.len() > 0 {
        assert forall|k: int| 0 <= k < u.drop_last().len() implies (
        #[trigger] u.drop_last()[k]).wf() by {
            assert(u.drop_last()[k] == u[k]);
        }
        lemma_filter_wf_fr(u.drop_last(), pred);
        let sub = u.drop_last().filter(pred);
        assert forall|k: int| 0 <= k < u.filter(pred).len() implies (
        #[trigger] u.filter(pred)[k]).wf() by {
            if pred(u.last()) {
                assert(u.filter(pred) == sub.push(u.last()));
                if k < sub.len() {
                    assert(u.filter(pred)[k] == sub[k]);
                }
            } else {
                assert(u.filter(pred) == sub);
            }
        }
    }
}

/// Elements of a filtered sequence of well-formed Boolean functions are
/// well-formed.
proof fn lemma_filter_wf_bf(u: Seq<BoolFun>, pred: spec_fn(BoolFun) -> bool)
    requires
        forall|k: int| 0 <= k < u.len() ==> (#[trigger] u[k]).wf(),
    ensures
        forall|k: int| 0 <= k < u.filter(pred).len() ==> (#[trigger] u.filter(pred)[k]).wf(),
    decreases u.len(),
{
    reveal(Seq::filter);
    if u.len() > 0 {
        assert forall|k: int| 0 <= k < u.drop_last().len() implies (
        #[trigger] u.drop_last()[k]).wf() by {
            assert(u.drop_last()[k] == u[k]);
        }
        lemma_filter_wf_bf(u.drop_last(), pred);
        let sub = u.drop_last().filter(pred);
        assert forall|k: int| 0 <= k < u.filter(pred).len() implies (
        #[trigger] u.filter(pred)[k]).wf() by {
            if pred(u.last()) {
                assert(u.filter(pred) == sub.push(u.last()));
                if k < sub.len() {
                    assert(u.filter(pred)[k] == sub[k]);
                }
            } else {
                assert(u.filter(pred) == sub);
            }
        }
    }
}

/// The projection of a triangle to the rational a/c.
pub open spec fn proj_frac(t: Tri) -> Frac {
    Frac { num: t.a, den: t.c }
}

/// The triangle candidate set as projected rationals: the constraint-matching
/// triangles' a/c projections, sorted canonically (duplicates kept).
pub open spec fn tri_proj_set(ge: Seq<Tri>, c: Constraint) -> Seq<Frac> {
    ge.filter(|t: Tri| spec_matches(c, spec_sig7_geom(t))).map_values(
        |t: Tri| proj_frac(t),
    ).sort_by(frac_le())
}

/// Keeps the triangles whose signature matches the constraint, in order.
fn filter_tris(ge: &Vec<Tri>, cst: Constraint) -> (r: Vec<Tri>)
    requires
        forall|k: int| 0 <= k < ge@.len() ==> (#[trigger] ge@[k]).in_universe(20),
    ensures
        r@ == ge@.filter(|t: Tri| spec_matches(cst, spec_sig7_geom(t))),
        forall|k: int| 0 <= k < r@.len() ==> (#[trigger] r@[k]).in_universe(20),
{
    let ghost pred = |t: Tri| spec_matches(cst, spec_sig7_geom(t));
    let mut out: Vec<Tri> = Vec::new();
    let mut i: usize = 0;
    proof {
        reveal(Seq::filter);
    }
    while i < ge.len()
        invariant
            i <= ge@.len(),
            forall|k: int| 0 <= k < ge@.len() ==> (#[trigger] ge@[k]).in_universe(20),
            pred == (|t: Tri| spec_matches(cst, spec_sig7_geom(t))),
            out@ == ge@.take(i as int).filter(pred),
            forall|k: int| 0 <= k < out@.len() ==> (#[trigger] out@[k]).in_universe(20),
        decreases ge@.len() - i,
    {
        let t = ge[i];
        let sg = sig7_geom(&t);
        proof {
            reveal(Seq::filter);
            assert(ge@.take(i + 1).drop_last() =~= ge@.take(i as int));
            assert(ge@.take(i + 1).last() == ge@[i as int]);
        }
        if cst.matches(sg) {
            out.push(t);
            proof {
                assert(pred(t));
                assert(out@ =~= ge@.take(i + 1).filter(pred));
            }
        } else {
            proof {
                assert(!pred(t));
                assert(out@ =~= ge@.take(i + 1).filter(pred));
            }
        }
        i = i + 1;
    }
    proof {
        assert(ge@.take(ge@.len() as int) =~= ge@);
    }
    out
}

/// Projects triangles to their a/c rationals, in order.
fn project_tris(ts: &Vec<Tri>) -> (r: Vec<Frac>)
    requires
        forall|k: int| 0 <= k < ts@.len() ==> (#[trigger] ts@[k]).wf(),
    ensures
        r@ == ts@.map_values(|t: Tri| proj_frac(t)),
        forall|k: int| 0 <= k < r@.len() ==> (#[trigger] r@[k]).wf(),
{
    let mut out: Vec<Frac> = Vec::new();
    let mut i: usize = 0;
    while i < ts.len()
        invariant
            i <= ts@.len(),
            forall|k: int| 0 <= k < ts@.len() ==> (#[trigger] ts@[k]).wf(),
            out@ == ts@.take(i as int).map_values(|t: Tri| proj_frac(t)),
            forall|k: int| 0 <= k < out@.len() ==> (#[trigger] out@[k]).wf(),
        decreases ts@.len() - i,
    {
        let t = ts[i];
        out.push(Frac { num: t.a, den: t.c });
        i = i + 1;
        proof {
            assert(out@ =~= ts@.take(i as int).map_values(|t: Tri| proj_frac(t)));
        }
    }
    proof {
        assert(ts@.take(ts@.len() as int) =~= ts@);
    }
    out
}

/// Sorts fractions into exactly the canonical order `Seq::sort_by` gives.
fn sort_fracs_canonical(v: Vec<Frac>) -> (r: Vec<Frac>)
    requires
        forall|k: int| 0 <= k < v@.len() ==> (#[trigger] v@[k]).wf(),
    ensures
        r@ == v@.sort_by(frac_le()),
        forall|k: int| 0 <= k < r@.len() ==> (#[trigger] r@[k]).wf(),
{
    let ghost orig = v@;
    let r = crate::sort::sort_fracs(v);
    proof {
        crate::qe::lemma_frac_le_total_ordering();
        orig.lemma_sort_by_ensures(frac_le());
        vstd::seq_lib::lemma_sorted_unique(r@, orig.sort_by(frac_le()), frac_le());
        assert(r@ =~= orig.sort_by(frac_le()));
    }
    r
}

/// The projected triangle candidate set for a constraint.
fn tri_proj_set_exec(ge: &Vec<Tri>, cst: Constraint) -> (r: Vec<Frac>)
    requires
        forall|k: int| 0 <= k < ge@.len() ==> (#[trigger] ge@[k]).in_universe(20),
    ensures
        r@ == tri_proj_set(ge@, cst),
        forall|k: int| 0 <= k < r@.len() ==> (#[trigger] r@[k]).wf(),
{
    let filtered = filter_tris(ge, cst);
    let projected = project_tris(&filtered);
    sort_fracs_canonical(projected)
}

/// The Boolean-function universe of arity `n`, as a sequence.
pub open spec fn bf_universe(n: u8) -> Seq<BoolFun> {
    Seq::new(
        vstd::arithmetic::power2::pow2(vstd::arithmetic::power2::pow2(n as nat)),
        |i: int| BoolFun { n, bits: i as u64 },
    )
}

/// The abstract state of the executor and the verifier.
#[verifier::ext_equal]
pub struct Model {
    pub qe: Seq<Frac>,
    pub ge: Seq<Tri>,
    pub bf_all: Seq<BoolFun>,
    pub bf_n: u8,
    pub is_boolfun: bool,
    pub is_ge: bool,
    pub set_fr: Seq<Frac>,
    pub set_bf: Seq<BoolFun>,
    pub cst: Constraint,
    pub set_digest: Seq<u8>,
    pub witness_fr: Option<Frac>,
    pub witness_bf: Option<BoolFun>,
    pub chain: Seq<u8>,
    pub max_items: u64,
    pub include_witness: bool,
}

/// The executor's live state.
pub struct ExecState {
    pub qe: Vec<Frac>,
    pub ge: Vec<Tri>,
    pub bf_all: Vec<BoolFun>,
    pub bf_n: u8,
    pub is_boolfun: bool,
    pub is_ge: bool,
    pub set_fr: Vec<Frac>,
    pub set_bf: Vec<BoolFun>,
    pub cst: Constraint,
    pub set_digest: Vec<u8>,
    pub witness_fr: Option<Frac>,
    pub witness_bf: Option<BoolFun>,
    pub chain: Vec<u8>,
    pub max_items: u64,
    pub include_witness: bool,
}

impl View for ExecState {
    type V = Model;

    open spec fn view(&self) -> Model {
        Model {
            qe: self.qe@,
            ge: self.ge@,
            bf_all: self.bf_all@,
            bf_n: self.bf_n,
            is_boolfun: self.is_boolfun,
            is_ge: self.is_ge,
            set_fr: self.set_fr@,
            set_bf: self.set_bf@,
            cst: self.cst,
            set_digest: self.set_digest@,
            witness_fr: self.witness_fr,
            witness_bf: self.witness_bf,
            chain: self.chain@,
            max_items: self.max_items,
            include_witness: self.include_witness,
        }
    }
}

impl Model {
    /// The live candidate count.
    pub open spec fn count(self) -> nat {
        if self.is_boolfun {
            self.set_bf.len()
        } else {
            self.set_fr.len()
        }
    }

    /// The rendered witness, when one is selected.
    pub open spec fn witness_str(self) -> Option<Seq<char>> {
        if self.is_boolfun {
            match self.witness_bf {
                Some(w) => Some(spec_bf_str(w)),
                None => None,
            }
        } else {
            match self.witness_fr {
                Some(w) => Some(spec_frac_str(w)),
                None => None,
            }
        }
    }

    /// Structural bounds every reachable state keeps.
    pub open spec fn inv(self) -> bool {
        &&& forall|k: int| 0 <= k < self.qe.len() ==> (#[trigger] self.qe[k]).wf()
        &&& forall|k: int| 0 <= k < self.ge.len() ==> (#[trigger] self.ge[k]).in_universe(20)
        &&& forall|k: int| 0 <= k < self.set_fr.len() ==> (#[trigger] self.set_fr[k]).wf()
        &&& forall|k: int| 0 <= k < self.set_bf.len() ==> (#[trigger] self.set_bf[k]).wf()
        &&& forall|k: int| 0 <= k < self.bf_all.len() ==> (#[trigger] self.bf_all[k]).wf()
        &&& self.bf_n <= 4
        &&& self.set_digest.len() == 32
        &&& self.chain.len() == 32
    }
}

/// The effect of one op on the abstract state, chain update aside: `None`
/// is a fatal error (bad element, unknown universe, unsupported metric, an
/// op the live universe cannot take).
pub open spec fn spec_apply(m: Model, op: OpV) -> Option<Model> {
    match op {
        OpV::SelectUniverse { universe, n } => {
            if is_boolfun_name(universe) {
                if n <= 4 {
                    Some(
                        Model {
                            is_boolfun: true,
                            is_ge: false,
                            cst: Constraint { mask: 0, value: 0 },
                            set_fr: Seq::empty(),
                            witness_fr: None,
                            bf_n: n,
                            bf_all: bf_universe(n),
                            set_bf: bf_universe(n),
                            set_digest: spec_digest_bf(bf_universe(n)),
                            witness_bf: None,
                            ..m
                        },
                    )
                } else {
                    None
                }
            } else if is_rational_name(universe) {
                Some(
                    Model {
                        is_boolfun: false,
                        is_ge: false,
                        cst: Constraint { mask: 0, value: 0 },
                        set_fr: m.qe,
                        set_digest: spec_digest_fr(m.qe),
                        witness_fr: None,
                        witness_bf: None,
                        ..m
                    },
                )
            } else if is_triangle_name(universe) {
                Some(
                    Model {
                        is_boolfun: false,
                        is_ge: true,
                        cst: Constraint { mask: 0, value: 0 },
                        set_fr: tri_proj_set(m.ge, Constraint { mask: 0, value: 0 }),
                        set_digest: spec_digest_fr(
                            tri_proj_set(m.ge, Constraint { mask: 0, value: 0 }),
                        ),
                        witness_fr: None,
                        witness_bf: None,
                        ..m
                    },
                )
            } else {
                None
            }
        },
        OpV::StartElem { elem } => {
            if crate::qe::first_at(elem, ',') is Some {
                match spec_parse_tri(elem) {
                    Some((a, b, c)) => if tri_new_ok(a as int, b as int, c as int) {
                        Some(
                            Model {
                                is_boolfun: false,
                                is_ge: true,
                                cst: Constraint { mask: 0, value: 0 },
                                set_fr: tri_proj_set(m.ge, Constraint { mask: 0, value: 0 }),
                                set_digest: spec_digest_fr(
                                    tri_proj_set(m.ge, Constraint { mask: 0, value: 0 }),
                                ),
                                witness_fr: Some(Frac { num: a, den: c }),
                                ..m
                            },
                        )
                    } else {
                        None
                    },
                    None => None,
                }
            } else {
                match crate::qe::spec_parse_frac(elem) {
                    Some(f) => Some(
                        Model {
                            is_boolfun: false,
                            is_ge: false,
                            cst: Constraint { mask: 0, value: 0 },
                            set_fr: m.qe,
                            set_digest: spec_digest_fr(m.qe),
                            witness_fr: Some(f),
                            ..m
                        },
                    ),
                    None => None,
                }
            }
        },
        OpV::SetBit { i, b } => {
            if m.is_boolfun {
                None
            } else {
                let c2 = crate::semtrace::spec_set_bit(m.cst, i, b);
                let s2 = if m.is_ge {
                    tri_proj_set(m.ge, c2)
                } else {
                    spec_filter_qe(m.qe, c2)
                };
                Some(Model { cst: c2, set_fr: s2, set_digest: spec_digest_fr(s2), ..m })
            }
        },
        OpV::FilterWeight { min, max } => {
            if !m.is_boolfun {
                None
            } else {
                let s2 = spec_filter_weight(m.bf_all, min, max);
                Some(Model { set_bf: s2, set_digest: spec_digest_bf(s2), witness_bf: None, ..m })
            }
        },
        OpV::TopK { target_elem, k } => {
            if !m.is_boolfun {
                None
            } else {
                match crate::boolfun::spec_parse_elem(target_elem) {
                    None => None,
                    Some(t) => if t.n != m.bf_n {
                        None
                    } else {
                        Some(
                            Model {
                                witness_bf: if k == 0 {
                                    None
                                } else {
                                    spec_topk_witness(m.set_bf, t)
                                },
                                ..m
                            },
                        )
                    },
                }
            }
        },
        OpV::WitnessNearest { target_elem, metric } => {
            if metric != "ABS_DIFF"@ {
                None
            } else {
                let tgt: Option<Frac> = if m.is_ge || crate::qe::first_at(target_elem, ',')
                    is Some {
                    match spec_parse_tri(target_elem) {
                        Some((a, b, c)) => if tri_new_ok(a as int, b as int, c as int) {
                            Some(Frac { num: a, den: c })
                        } else {
                            None
                        },
                        None => None,
                    }
                } else {
                    crate::qe::spec_parse_frac(target_elem)
                };
                match tgt {
                    None => None,
                    Some(t) => match spec_witness_nearest(m.set_fr, t) {
                        None => None,
                        Some(w) => Some(Model { witness_fr: Some(w), ..m }),
                    },
                }
            }
        },
        OpV::ReturnSet { max_items, include_witness } => {
            Some(Model { max_items, include_witness, ..m })
        },
    }
}

/// Applies `SELECT_UNIVERSE` to the live state.
fn apply_select(state: &mut ExecState, universe: &String, n: u8) -> (r: Result<(), ExecError>)
    requires
        old(state)@.inv(),
    ensures
        final(state)@.inv(),
        r is Ok <==> spec_apply(old(state)@, (OpV::SelectUniverse { universe: universe@, n }))
            is Some,
        r is Ok ==> final(state)@ == spec_apply(
            old(state)@,
            (OpV::SelectUniverse { universe: universe@, n }),
        )->Some_0,
        r is Err ==> final(state)@ == old(state)@,
{
            match universe_kind(universe.as_str()) {
                UniverseKind::BoolFun => {
                    if n > 4 {
                        return Err(ExecError::Schema);
                    }
                    let all = crate::boolfun::build_boolfun(n);
                    proof {
                        assert(all@ =~= bf_universe(n));
                    }
                    let set = vstd::slice::slice_to_vec(all.as_slice());
                    let digest = canonical_set_digest_boolfun(&set);
                    state.is_boolfun = true;
                    state.is_ge = false;
                    state.cst = Constraint::empty();
                    state.set_fr = Vec::new();
                    state.witness_fr = None;
                    state.bf_n = n;
                    state.bf_all = all;
                    state.set_bf = set;
                    state.set_digest = digest;
                    state.witness_bf = None;
                    proof {
                        assert(state.set_fr@ =~= Seq::<Frac>::empty());
                    }
                    Ok(())
                },
                UniverseKind::Rational => {
                    let set = vstd::slice::slice_to_vec(state.qe.as_slice());
                    let digest = canonical_set_digest(&set);
                    state.is_boolfun = false;
                    state.is_ge = false;
                    state.cst = Constraint::empty();
                    state.set_fr = set;
                    state.set_digest = digest;
                    state.witness_fr = None;
                    state.witness_bf = None;
                    Ok(())
                },
                UniverseKind::Triangle => {
                    let set = tri_proj_set_exec(&state.ge, Constraint::empty());
                    let digest = canonical_set_digest(&set);
                    state.is_boolfun = false;
                    state.is_ge = true;
                    state.cst = Constraint::empty();
                    state.set_fr = set;
                    state.set_digest = digest;
                    state.witness_fr = None;
                    state.witness_bf = None;
                    Ok(())
                },
                UniverseKind::Unknown => Err(ExecError::Schema),
            }
        }

/// Applies `START_ELEM` to the live state.
fn apply_start(state: &mut ExecState, elem: &String) -> (r: Result<(), ExecError>)
    requires
        old(state)@.inv(),
    ensures
        final(state)@.inv(),
        r is Ok <==> spec_apply(old(state)@, (OpV::StartElem { elem: elem@ })) is Some,
        r is Ok ==> final(state)@ == spec_apply(
            old(state)@,
            (OpV::StartElem { elem: elem@ }),
        )->Some_0,
        r is Err ==> final(state)@ == old(state)@,
{
            if crate::qe::find_char(elem.as_str(), ',').is_some() {
                let (a, b, c) = match parse_tri(elem.as_str()) {
                    None => {
                        return Err(ExecError::Parse);
                    },
                    Some(t) => t,
                };
                if crate::geom::Tri::new(a, b, c).is_none() {
                    return Err(ExecError::Parse);
                }
                let set = tri_proj_set_exec(&state.ge, Constraint::empty());
                let digest = canonical_set_digest(&set);
                state.is_boolfun = false;
                state.is_ge = true;
                state.cst = Constraint::empty();
                state.set_fr = set;
                state.set_digest = digest;
                state.witness_fr = Some(Frac { num: a, den: c });
                Ok(())
            } else {
                let f = match crate::qe::parse_frac(elem.as_str()) {
                    None => {
                        return Err(ExecError::Parse);
                    },
                    Some(f) => f,
                };
                let set = vstd::slice::slice_to_vec(state.qe.as_slice());
                let digest = canonical_set_digest(&set);
                state.is_boolfun = false;
                state.is_ge = false;
                state.cst = Constraint::empty();
                state.set_fr = set;
                state.set_digest = digest;
                state.witness_fr = Some(f);
                Ok(())
            }
        }

/// Applies `SET_BIT` to the live state.
fn apply_setbit(state: &mut ExecState, i: u8, b: u8) -> (r: Result<(), ExecError>)
    requires
        old(state)@.inv(),
        i < 8,
    ensures
        final(state)@.inv(),
        r is Ok <==> spec_apply(old(state)@, (OpV::SetBit { i, b })) is Some,
        r is Ok ==> final(state)@ == spec_apply(old(state)@, (OpV::SetBit { i, b }))->Some_0,
        r is Err ==> final(state)@ == old(state)@,
{
            if state.is_boolfun {
                return Err(ExecError::Schema);
            }
            let c2 = state.cst.set_bit(i, b);
            let s2 = if state.is_ge {
                tri_proj_set_exec(&state.ge, c2)
            } else {
                filter_qe(&state.qe, c2)
            };
            proof {
                if !state.is_ge {
                    lemma_filter_wf_fr(
                        state.qe@,
                        |f: Frac| spec_matches(c2, spec_sig7(f)),
                    );
                }
            }
            let digest = canonical_set_digest(&s2);
            state.cst = c2;
            state.set_fr = s2;
            state.set_digest = digest;
            Ok(())
        }

/// Applies `FILTER_WEIGHT` to the live state.
fn apply_filter_weight(state: &mut ExecState, min: u32, max: u32) -> (r: Result<(), ExecError>)
    requires
        old(state)@.inv(),
    ensures
        final(state)@.inv(),
        r is Ok <==> spec_apply(old(state)@, (OpV::FilterWeight { min, max })) is Some,
        r is Ok ==> final(state)@ == spec_apply(
            old(state)@,
            (OpV::FilterWeight { min, max }),
        )->Some_0,
        r is Err ==> final(state)@ == old(state)@,
{
            if !state.is_boolfun {
                return Err(ExecError::Schema);
            }
            let s2 = filter_weight(&state.bf_all, min, max);
            proof {
                lemma_filter_wf_bf(state.bf_all@, |f: BoolFun| min <= f.spec_weight() <= max);
            }
            let digest = canonical_set_digest_boolfun(&s2);
            state.set_bf = s2;
            state.set_digest = digest;
            state.witness_bf = None;
            Ok(())
        }

/// Applies `TOPK` to the live state.
fn apply_topk(state: &mut ExecState, target_elem: &String, k: u64) -> (r: Result<(), ExecError>)
    requires
        old(state)@.inv(),
    ensures
        final(state)@.inv(),
        r is Ok <==> spec_apply(old(state)@, (OpV::TopK { target_elem: target_elem@, k }))
            is Some,
        r is Ok ==> final(state)@ == spec_apply(
            old(state)@,
            (OpV::TopK { target_elem: target_elem@, k }),
        )->Some_0,
        r is Err ==> final(state)@ == old(state)@,
{
            if !state.is_boolfun {
                return Err(ExecError::Schema);
            }
            let t = match crate::boolfun::parse_elem(target_elem.as_str()) {
                None => {
                    return Err(ExecError::Parse);
                },
                Some(t) => t,
            };
            if t.n != state.bf_n {
                return Err(ExecError::Schema);
            }
            state.witness_bf = if k == 0 {
                None
            } else {
                topk_witness(&state.set_bf, &t)
            };
            Ok(())
        }

/// Applies `WITNESS_NEAREST` to the live state.
#[verifier::rlimit(100)]
fn apply_witness(state: &mut ExecState, target_elem: &String, metric: &String) -> (r: Result<
    (),
    ExecError,
>)
    requires
        old(state)@.inv(),
    ensures
        final(state)@.inv(),
        r is Ok <==> spec_apply(
            old(state)@,
            (OpV::WitnessNearest { target_elem: target_elem@, metric: metric@ }),
        ) is Some,
        r is Ok ==> final(state)@ == spec_apply(
            old(state)@,
            (OpV::WitnessNearest { target_elem: target_elem@, metric: metric@ }),
        )->Some_0,
        r is Err ==> final(state)@ == old(state)@,
{
            if !str_eq(metric.as_str(), "ABS_DIFF") {
                return Err(ExecError::Schema);
            }
            let tgt: Frac = if state.is_ge || crate::qe::find_char(
                target_elem.as_str(),
                ',',
            ).is_some() {
                let (a, b, c) = match parse_tri(target_elem.as_str()) {
                    None => {
                        return Err(ExecError::Parse);
                    },
                    Some(t) => t,
                };
                if crate::geom::Tri::new(a, b, c).is_none() {
                    return Err(ExecError::Parse);
                }
                Frac { num: a, den: c }
            } else {
                match crate::qe::parse_frac(target_elem.as_str()) {
                    None => {
                        return Err(ExecError::Parse);
                    },
                    Some(f) => f,
                }
            };
            match witness_nearest(&state.set_fr, &tgt) {
                None => Err(ExecError::Schema),
                Some(w) => {
                    state.witness_fr = Some(w);
                    Ok(())
                },
            }
        }

/// Applies one op to the live state; on an error the state is unchanged.
/// The chain is not advanced here: the caller hashes the step afterwards.
pub(crate) fn apply_op(state: &mut ExecState, op: &ParsedOp) -> (r: Result<(), ExecError>)
    requires
        old(state)@.inv(),
        op@.wf(),
    ensures
        final(state)@.inv(),
        r is Ok <==> spec_apply(old(state)@, op@) is Some,
        r is Ok ==> final(state)@ == spec_apply(old(state)@, op@)->Some_0,
        r is Err ==> final(state)@ == old(state)@,
{
    match op {
        ParsedOp::SelectUniverse { universe, n } => apply_select(state, universe, *n),
        ParsedOp::StartElem { elem } => apply_start(state, elem),
        ParsedOp::SetBit { i, b } => apply_setbit(state, *i, *b),
        ParsedOp::FilterWeight { min, max } => apply_filter_weight(state, *min, *max),
        ParsedOp::TopK { target_elem, k } => apply_topk(state, target_elem, *k),
        ParsedOp::WitnessNearest { target_elem, metric } => apply_witness(
            state,
            target_elem,
            metric,
        ),
        ParsedOp::ReturnSet { max_items, include_witness } => {
            state.max_items = *max_items;
            state.include_witness = *include_witness;
            Ok(())
        },
    }
}

/// The `pre` snapshot of a step record.
#[derive(Clone, Debug)]
pub struct StepPre {
    pub set_digest: Option<String>,
    pub count: usize,
    pub constraint_mask: u8,
    pub constraint_value: u8,
}

/// The `post` snapshot of a step record.
#[derive(Clone, Debug)]
pub struct StepPost {
    pub set_digest: Option<String>,
    pub count: usize,
    pub witness: Option<String>,
}

/// One line of the transcript.
#[derive(Clone, Debug)]
pub struct StepRec {
    pub step: usize,
    pub op: String,
    pub args: String,
    pub pre: StepPre,
    pub post: StepPost,
    pub step_digest: String,
}

pub struct PreM {
    pub set_digest: Option<Seq<char>>,
    pub count: nat,
    pub constraint_mask: u8,
    pub constraint_value: u8,
}

pub struct PostM {
    pub set_digest: Option<Seq<char>>,
    pub count: nat,
    pub witness: Option<Seq<char>>,
}

pub struct RecM {
    pub step: nat,
    pub op: Seq<char>,
    pub args: Seq<char>,
    pub pre: PreM,
    pub post: PostM,
    pub step_digest: Seq<char>,
}

pub open spec fn view_opt_string(o: Option<String>) -> Option<Seq<char>> {
    match o {
        Some(s) => Some(s@),
        None => None,
    }
}

impl View for StepPre {
    type V = PreM;

    open spec fn view(&self) -> PreM {
        PreM {
            set_digest: view_opt_string(self.set_digest),
            count: self.count as nat,
            constraint_mask: self.constraint_mask,
            constraint_value: self.constraint_value,
        }
    }
}

impl View for StepPost {
    type V = PostM;

    open spec fn view(&self) -> PostM {
        PostM {
            set_digest: view_opt_string(self.set_digest),
            count: self.count as nat,
            witness: view_opt_string(self.witness),
        }
    }
}

impl View for StepRec {
    type V = RecM;

    open spec fn view(&self) -> RecM {
        RecM {
            step: self.step as nat,
            op: self.op@,
            args: self.args@,
            pre: self.pre@,
            post: self.post@,
            step_digest: self.step_digest@,
        }
    }
}

/// The canonical op name.
pub open spec fn spec_op_name(op: OpV) -> Seq<char> {
    match op {
        OpV::SelectUniverse { .. } => "SELECT_UNIVERSE"@,
        OpV::FilterWeight { .. } => "FILTER_WEIGHT"@,
        OpV::TopK { .. } => "TOPK"@,
        OpV::StartElem { .. } => "START_ELEM"@,
        OpV::SetBit { .. } => "SET_BIT"@,
        OpV::WitnessNearest { .. } => "WITNESS_NEAREST"@,
        OpV::ReturnSet { .. } => "RETURN_SET"@,
    }
}

/// The canonical op name of a parsed op.
pub fn op_name(op: &ParsedOp) -> (r: &'static str)
    ensures
        r@ == spec_op_name(op@),
{
    match op {
        ParsedOp::SelectUniverse { .. } => "SELECT_UNIVERSE",
        ParsedOp::FilterWeight { .. } => "FILTER_WEIGHT",
        ParsedOp::TopK { .. } => "TOPK",
        ParsedOp::StartElem { .. } => "START_ELEM",
        ParsedOp::SetBit { .. } => "SET_BIT",
        ParsedOp::WitnessNearest { .. } => "WITNESS_NEAREST",
        ParsedOp::ReturnSet { .. } => "RETURN_SET",
    }
}

/// The canonical JSON rendering of an op's arguments, keys in declaration
/// order, no whitespace.
pub open spec fn spec_args_str(op: OpV) -> Seq<char> {
    match op {
        OpV::SelectUniverse { universe, n } => "{\"universe\":\""@ + universe + "\",\"n\":"@
            + dec_str(n as int) + "}"@,
        OpV::FilterWeight { min, max } => "{\"min\":"@ + dec_str(min as int) + ",\"max\":"@
            + dec_str(max as int) + "}"@,
        OpV::TopK { target_elem, k } => "{\"target_elem\":\""@ + target_elem + "\",\"k\":"@
            + dec_str(k as int) + "}"@,
        OpV::StartElem { elem } => "{\"elem\":\""@ + elem + "\"}"@,
        OpV::SetBit { i, b } => "{\"i\":"@ + dec_str(i as int) + ",\"b\":"@ + dec_str(b as int)
            + "}"@,
        OpV::WitnessNearest { target_elem, metric } => "{\"target_elem\":\""@ + target_elem
            + "\",\"metric\":\""@ + metric + "\"}"@,
        OpV::ReturnSet { max_items, include_witness } => "{\"max_items\":"@ + dec_str(
            max_items as int,
        ) + ",\"include_witness\":"@ + (if include_witness {
            "true"@
        } else {
            "false"@
        }) + "}"@,
    }
}

/// Appends the canonical JSON arguments of an op.
pub fn render_args(op: &ParsedOp) -> (r: String)
    ensures
        r@ == spec_args_str(op@),
{
    let mut out = String::new();
    match op {
        ParsedOp::SelectUniverse { universe, n } => {
            proof {
                reveal_strlit("{\"universe\":\"");
                reveal_strlit("\",\"n\":");
                reveal_strlit("}");
            }
            out.append("{\"universe\":\"");
            out.append(universe.as_str());
            out.append("\",\"n\":");
            crate::strnum::append_u64(&mut out, *n as u64);
            out.append("}");
            proof {
                assert(out@ =~= spec_args_str(op@));
            }
        },
        ParsedOp::FilterWeight { min, max } => {
            proof {
                reveal_strlit("{\"min\":");
                reveal_strlit(",\"max\":");
                reveal_strlit("}");
            }
            out.append("{\"min\":");
            crate::strnum::append_u64(&mut out, *min as u64);
            out.append(",\"max\":");
            crate::strnum::append_u64(&mut out, *max as u64);
            out.append("}");
            proof {
                assert(out@ =~= spec_args_str(op@));
            }
        },
        ParsedOp::TopK { target_elem, k } => {
            proof {
                reveal_strlit("{\"target_elem\":\"");
                reveal_strlit("\",\"k\":");
                reveal_strlit("}");
            }
            out.append("{\"target_elem\":\"");
            out.append(target_elem.as_str());
            out.append("\",\"k\":");
            crate::strnum::append_u64(&mut out, *k);
            out.append("}");
            proof {
                assert(out@ =~= spec_args_str(op@));
            }
        },
        ParsedOp::StartElem { elem } => {
            proof {
                reveal_strlit("{\"elem\":\"");
                reveal_strlit("\"}");
            }
            out.append("{\"elem\":\"");
            out.append(elem.as_str());
            out.append("\"}");
            proof {
                assert(out@ =~= spec_args_str(op@));
            }
        },
        ParsedOp::SetBit { i, b } => {
            proof {
                reveal_strlit("{\"i\":");
                reveal_strlit(",\"b\":");
                reveal_strlit("}");
            }
            out.append("{\"i\":");
            crate::strnum::append_u64(&mut out, *i as u64);
            out.append(",\"b\":");
            crate::strnum::append_u64(&mut out, *b as u64);
            out.append("}");
            proof {
                assert(out@ =~= spec_args_str(op@));
            }
        },
        ParsedOp::WitnessNearest { target_elem, metric } => {
            proof {
                reveal_strlit("{\"target_elem\":\"");
                reveal_strlit("\",\"metric\":\"");
                reveal_strlit("\"}");
            }
            out.append("{\"target_elem\":\"");
            out.append(target_elem.as_str());
            out.append("\",\"metric\":\"");
            out.append(metric.as_str());
            out.append("\"}");
            proof {
                assert(out@ =~= spec_args_str(op@));
            }
        },
        ParsedOp::ReturnSet { max_items, include_witness } => {
            proof {
                reveal_strlit("{\"max_items\":");
                reveal_strlit(",\"include_witness\":");
                reveal_strlit("true");
                reveal_strlit("false");
                reveal_strlit("}");
            }
            out.append("{\"max_items\":");
            crate::strnum::append_u64(&mut out, *max_items);
            out.append(",\"include_witness\":");
            if *include_witness {
                out.append("true");
            } else {
                out.append("false");
            }
            out.append("}");
            proof {
                assert(out@ =~= spec_args_str(op@));
            }
        },
    }
    out
}

/// The canonical digest preimage of one step: a JSON object with the fixed
/// key order `pre`, `op`, `args`, `post` and no whitespace.
pub open spec fn spec_preimage(
    chain: Seq<u8>,
    opname: Seq<char>,
    args: Seq<char>,
    post: Seq<u8>,
) -> Seq<char> {
    "{\"pre\":\""@ + hex_of(chain) + "\",\"op\":\""@ + opname + "\",\"args\":"@ + args
        + ",\"post\":\""@ + hex_of(post) + "\"}"@
}

/// The step digest: the SHA-256 of the canonical preimage bytes.
pub open spec fn spec_step_digest(
    chain: Seq<u8>,
    opname: Seq<char>,
    args: Seq<char>,
    post: Seq<u8>,
) -> Seq<u8> {
    sha256_of(vstd::utf8::encode_utf8(spec_preimage(chain, opname, args, post)))
}

/// Renders the canonical digest preimage of one step.
pub fn render_preimage(chain: &Vec<u8>, opname: &str, args: &str, post: &Vec<u8>) -> (r: String)
    ensures
        r@ == spec_preimage(chain@, opname@, args@, post@),
{
    proof {
        reveal_strlit("{\"pre\":\"");
        reveal_strlit("\",\"op\":\"");
        reveal_strlit("\",\"args\":");
        reveal_strlit(",\"post\":\"");
        reveal_strlit("\"}");
    }
    let mut out = String::new();
    out.append("{\"pre\":\"");
    let ch = crate::digest::hex_encode(chain.as_slice());
    out.append(ch.as_str());
    out.append("\",\"op\":\"");
    out.append(opname);
    out.append("\",\"args\":");
    out.append(args);
    out.append(",\"post\":\"");
    let ph = crate::digest::hex_encode(post.as_slice());
    out.append(ph.as_str());
    out.append("\"}");
    proof {
        assert(out@ =~= spec_preimage(chain@, opname@, args@, post@));
    }
    out
}

/// Computes the step digest and hex-renders it.
pub fn compute_step_digest(chain: &Vec<u8>, opname: &str, args: &str, post: &Vec<u8>) -> (r: Vec<
    u8,
>)
    ensures
        r@ == spec_step_digest(chain@, opname@, args@, post@),
        r@.len() == 32,
{
    let pre = render_preimage(chain, opname, args, post);
    let bytes = str_bytes(pre.as_str());
    crate::digest::sha256_bytes(bytes.as_slice())
}

/// What one step commits to the transcript.
pub open spec fn spec_record(step: nat, pre_m: Model, op: OpV, post_m: Model) -> RecM {
    RecM {
        step,
        op: spec_op_name(op),
        args: spec_args_str(op),
        pre: PreM {
            set_digest: if step == 0 && pre_m.count() == 0 {
                None
            } else {
                Some(hex_of(pre_m.set_digest))
            },
            count: pre_m.count(),
            constraint_mask: pre_m.cst.mask,
            constraint_value: pre_m.cst.value,
        },
        post: PostM {
            set_digest: Some(hex_of(post_m.set_digest)),
            count: post_m.count(),
            witness: post_m.witness_str(),
        },
        step_digest: hex_of(post_m.chain),
    }
}

/// One full step: the op's effect, then the chain advanced to the step
/// digest of (previous chain, op, args, new set digest).
pub open spec fn spec_step(m: Model, op: OpV) -> Option<Model> {
    match spec_apply(m, op) {
        None => None,
        Some(m1) => Some(
            Model {
                chain: spec_step_digest(m.chain, spec_op_name(op), spec_args_str(op), m1.set_digest),
                ..m1
            },
        ),
    }
}

/// How a run of the executor can end.
pub enum GhostRun {
    Fatal,
    Aborted { recs: Seq<RecM>, end: Model },
    Finished { recs: Seq<RecM>, end: Model },
}

pub open spec fn run_recs(r: GhostRun) -> Seq<RecM> {
    match r {
        GhostRun::Fatal => Seq::empty(),
        GhostRun::Aborted { recs, .. } => recs,
        GhostRun::Finished { recs, .. } => recs,
    }
}

pub open spec fn run_end(r: GhostRun, dflt: Model) -> Model {
    match r {
        GhostRun::Fatal => dflt,
        GhostRun::Aborted { end, .. } => end,
        GhostRun::Finished { end, .. } => end,
    }
}

/// Prepends already-emitted records to a continuation's outcome.
pub open spec fn glue(pre: Seq<RecM>, r: GhostRun) -> GhostRun {
    match r {
        GhostRun::Fatal => GhostRun::Fatal,
        GhostRun::Aborted { recs, end } => GhostRun::Aborted { recs: pre + recs, end },
        GhostRun::Finished { recs, end } => GhostRun::Finished { recs: pre + recs, end },
    }
}

/// The whole run: each op applied in turn, one record per executed step; a
/// fatal error loses the transcript; a `SET_BIT` that empties the candidate
/// set ends the transcript at that step.
pub open spec fn spec_run(m: Model, ops: Seq<OpV>, step: nat) -> GhostRun
    decreases ops.len(),
{
    if ops.len() == 0 {
        GhostRun::Finished { recs: Seq::empty(), end: m }
    } else {
        match spec_step(m, ops[0]) {
            None => GhostRun::Fatal,
            Some(m1) => {
                let rec = spec_record(step, m, ops[0], m1);
                if (ops[0] is SetBit) && m1.count() == 0 {
                    GhostRun::Aborted { recs: seq![rec], end: m1 }
                } else {
                    glue(seq![rec], spec_run(m1, ops.drop_first(), step + 1))
                }
            },
        }
    }
}

/// The executor's starting state over given universes: rational universe
/// live but no candidate set yet, empty constraint, the chain seeded from
/// the hash of the empty byte string.
pub open spec fn init_model(qe: Seq<Frac>, ge: Seq<Tri>) -> Model {
    Model {
        qe,
        ge,
        bf_all: Seq::empty(),
        bf_n: 0,
        is_boolfun: false,
        is_ge: false,
        set_fr: Seq::empty(),
        set_bf: Seq::empty(),
        cst: Constraint { mask: 0, value: 0 },
        set_digest: sha256_of(Seq::empty()),
        witness_fr: None,
        witness_bf: None,
        chain: sha256_of(Seq::empty()),
        max_items: 20,
        include_witness: false,
    }
}

/// The universes are the certified ones: canonically ordered, duplicate
/// free, containing exactly the defined elements.
pub open spec fn is_certified_qe(s: Seq<Frac>) -> bool {
    &&& forall|k: int, l: int|
        0 <= k < l < s.len() ==> canonical_lt(#[trigger] s[k], #[trigger] s[l])
    &&& forall|f: Frac| s.contains(f) <==> f.in_universe()
}

pub open spec fn is_certified_ge(s: Seq<Tri>) -> bool {
    &&& forall|k: int, l: int|
        0 <= k < l < s.len() ==> crate::geom::tri_lt(#[trigger] s[k], #[trigger] s[l])
    &&& forall|t: Tri| s.contains(t) <==> t.in_universe(20)
}

pub open spec fn canonical_env(m: Model) -> bool {
    is_certified_qe(m.qe) && is_certified_ge(m.ge)
}

/// The certified rational universe, as the unique sequence its
/// characterization pins down.
pub open spec fn certified_qe() -> Seq<Frac> {
    choose|s: Seq<Frac>| is_certified_qe(s)
}

/// The certified triangle universe, as the unique sequence its
/// characterization pins down.
pub open spec fn certified_ge() -> Seq<Tri> {
    choose|s: Seq<Tri>| is_certified_ge(s)
}

/// Builds the executor's starting state: both bounded universes
/// materialized, nothing selected yet.
pub fn initial_state() -> (r: ExecState)
    ensures
        r@ == init_model(certified_qe(), certified_ge()),
        r@.inv(),
        canonical_env(r@),
{
    let qe = crate::qe::build_qe();
    let ge = crate::geom::build_ge(20);
    let empty: Vec<u8> = Vec::new();
    proof {
        assert(empty@ =~= Seq::<u8>::empty());
    }
    let seed = crate::digest::sha256_bytes(empty.as_slice());
    let seed2 = vstd::slice::slice_to_vec(seed.as_slice());
    let r = ExecState {
        qe,
        ge,
        bf_all: Vec::new(),
        bf_n: 0,
        is_boolfun: false,
        is_ge: false,
        set_fr: Vec::new(),
        set_bf: Vec::new(),
        cst: Constraint::empty(),
        set_digest: seed,
        witness_fr: None,
        witness_bf: None,
        chain: seed2,
        max_items: 20,
        include_witness: false,
    };
    proof {
        assert forall|k: int| 0 <= k < r.qe@.len() implies (#[trigger] r.qe@[k]).wf() by {
            assert(r.qe@[k].in_universe());
        }
        assert(r.bf_all@ =~= Seq::<BoolFun>::empty());
        assert(r.set_fr@ =~= Seq::<Frac>::empty());
        assert(r.set_bf@ =~= Seq::<BoolFun>::empty());
        // the built universes witness the characterizations, which pin the
        // chosen certified sequences to these very values
        assert(is_certified_qe(r.qe@));
        assert(is_certified_ge(r.ge@));
        assert(is_certified_qe(certified_qe()) && is_certified_ge(certified_ge()));
        crate::laws::lemma_canonical_env_unique(
            init_model(r.qe@, r.ge@),
            init_model(certified_qe(), certified_ge()),
        );
        assert(r@ =~= init_model(certified_qe(), certified_ge()));
    }
    r
}

/// The live candidate count.
pub fn live_count(state: &ExecState) -> (r: usize)
    ensures
        r == state@.count(),
{
    if state.is_boolfun {
        state.set_bf.len()
    } else {
        state.set_fr.len()
    }
}

/// The rendered witness, when one is selected.
pub fn witness_string(state: &ExecState) -> (r: Option<String>)
    ensures
        view_opt_string(r) == state@.witness_str(),
{
    if state.is_boolfun {
        match &state.witness_bf {
            Some(w) => Some(boolfun_to_string(w)),
            None => None,
        }
    } else {
        match &state.witness_fr {
            Some(w) => Some(frac_to_string(w)),
            None => None,
        }
    }
}

/// An executed trace: the per-step records, the final state, and whether a
/// `SET_BIT` emptied the candidate set (which aborted the run).
pub struct Execution {
    pub records: Vec<StepRec>,
    pub state: ExecState,
    pub empty_set: bool,
}

/// Runs a parsed op list against fresh state, producing the transcript the
/// chain commits to.
/// Executes one op against the live state and emits its transcript record,
/// advancing the chain.
#[verifier::rlimit(100)]
#[verifier::spinoff_prover]
fn emit_step(state: &mut ExecState, op: &ParsedOp, step: usize) -> (r: Result<
    StepRec,
    ExecError,
>)
    requires
        old(state)@.inv(),
        op@.wf(),
    ensures
        final(state)@.inv(),
        r is Ok <==> spec_step(old(state)@, op@) is Some,
        r is Err ==> final(state)@ == old(state)@,
        r matches Ok(rec) ==> final(state)@ == spec_step(old(state)@, op@)->Some_0 && rec@
            == spec_record(step as nat, old(state)@, op@, final(state)@),
{
    let count_pre = live_count(state);
    let pre = StepPre {
        set_digest: if step == 0 && count_pre == 0 {
            None
        } else {
            Some(crate::digest::hex_encode(state.set_digest.as_slice()))
        },
        count: count_pre,
        constraint_mask: state.cst.mask,
        constraint_value: state.cst.value,
    };
    match apply_op(state, op) {
        Err(e) => {
            return Err(e);
        },
        Ok(()) => {},
    }
    let name = op_name(op);
    let args = render_args(op);
    let sd = compute_step_digest(&state.chain, name, args.as_str(), &state.set_digest);
    let count_post = live_count(state);
    let post = StepPost {
        set_digest: Some(crate::digest::hex_encode(state.set_digest.as_slice())),
        count: count_post,
        witness: witness_string(state),
    };
    let rec = StepRec {
        step,
        op: String::from_str(name),
        args,
        pre,
        post,
        step_digest: crate::digest::hex_encode(sd.as_slice()),
    };
    state.chain = sd;
    proof {
        assert(final(state)@ == spec_step(old(state)@, op@)->Some_0);
        assert(rec@ == spec_record(step as nat, old(state)@, op@, final(state)@));
    }
    Ok(rec)
}

/// Runs a parsed op list against fresh state, producing the transcript the
/// chain commits to.
#[verifier::rlimit(100)]
#[verifier::spinoff_prover]
pub fn execute_parsed(init: ExecState, ops: &Vec<ParsedOp>) -> (r: Result<Execution, ExecError>)
    requires
        init@.inv(),
        forall|k: int| 0 <= k < ops@.len() ==> (#[trigger] ops@[k])@.wf(),
    ensures
        ({
            let run = spec_run(init@, ops@.map_values(|p: ParsedOp| p@), 0);
            match r {
                Result::Err(_) => run is Fatal,
                Result::Ok(ex) => {
                    &&& !(run is Fatal)
                    &&& ex.records@.map_values(|x: StepRec| x@) == run_recs(run)
                    &&& ex.state@ == run_end(run, init@)
                    &&& ex.state@.inv()
                    &&& ex.empty_set == (run is Aborted)
                },
            }
        }),
{
    let ghost m0 = init@;
    let ghost opsv = ops@.map_values(|p: ParsedOp| p@);
    let mut state = init;
    let mut records: Vec<StepRec> = Vec::new();
    let mut i: usize = 0;
    proof {
        assert(opsv.skip(0) =~= opsv);
        assert(records@.map_values(|x: StepRec| x@) =~= Seq::<RecM>::empty());
        lemma_glue_empty(spec_run(state@, opsv.skip(0), 0));
    }
    while i < ops.len()
        invariant
            i <= ops@.len(),
            m0 == init@,
            opsv == ops@.map_values(|p: ParsedOp| p@),
            forall|k: int| 0 <= k < ops@.len() ==> (#[trigger] ops@[k])@.wf(),
            state@.inv(),
            glue(
                records@.map_values(|x: StepRec| x@),
                spec_run(state@, opsv.skip(i as int), i as nat),
            ) == spec_run(m0, opsv, 0),
        decreases ops@.len() - i,
    {
        let ghost m_pre = state@;
        let ghost recs_pre = records@.map_values(|x: StepRec| x@);
        let op = &ops[i];
        proof {
            assert(opsv.skip(i as int)[0] == op@);
            assert(opsv.skip(i as int).drop_first() =~= opsv.skip(i + 1));
        }
        let rec = match emit_step(&mut state, op, i) {
            Err(e) => {
                proof {
                    assert(spec_run(m_pre, opsv.skip(i as int), i as nat) is Fatal);
                }
                return Err(e);
            },
            Ok(rec) => rec,
        };
        let ghost m_post = state@;
        let is_set_bit = matches!(op, ParsedOp::SetBit { .. });
        let count_post = live_count(&state);
        let ghost recv = rec@;
        records.push(rec);
        proof {
            assert(records@.map_values(|x: StepRec| x@) =~= recs_pre + seq![recv]);
        }
        if is_set_bit && count_post == 0 {
            proof {
                assert(spec_run(m_pre, opsv.skip(i as int), i as nat) == GhostRun::Aborted {
                    recs: seq![recv],
                    end: m_post,
                });
                lemma_glue_assoc(recs_pre, seq![recv], GhostRun::Aborted {
                    recs: Seq::<RecM>::empty(),
                    end: m_post,
                });
                assert(seq![recv] + Seq::<RecM>::empty() =~= seq![recv]);
                assert(glue(recs_pre, spec_run(m_pre, opsv.skip(i as int), i as nat))
                    == GhostRun::Aborted { recs: recs_pre + seq![recv], end: m_post });
            }
            return Ok(Execution { records, state, empty_set: true });
        }
        proof {
            assert(spec_run(m_pre, opsv.skip(i as int), i as nat) == glue(
                seq![recv],
                spec_run(m_post, opsv.skip(i + 1), (i + 1) as nat),
            ));
            lemma_glue_assoc(
                recs_pre,
                seq![recv],
                spec_run(m_post, opsv.skip(i + 1), (i + 1) as nat),
            );
        }
        i = i + 1;
    }
    proof {
        assert(opsv.skip(opsv.len() as int) =~= Seq::<OpV>::empty());
        let fin = spec_run(state@, opsv.skip(opsv.len() as int), opsv.len() as nat);
        assert(fin == GhostRun::Finished { recs: Seq::<RecM>::empty(), end: state@ });
        assert(records@.map_values(|x: StepRec| x@) + Seq::<RecM>::empty() =~= records@.map_values(
            |x: StepRec| x@,
        ));
    }
    Ok(Execution { records, state, empty_set: false })
}

/// Prepending no records changes nothing.
proof fn lemma_glue_empty(r: GhostRun)
    ensures
        glue(Seq::<RecM>::empty(), r) == r,
{
    match r {
        GhostRun::Fatal => {},
        GhostRun::Aborted { recs, end } => {
            assert(Seq::<RecM>::empty() + recs =~= recs);
        },
        GhostRun::Finished { recs, end } => {
            assert(Seq::<RecM>::empty() + recs =~= recs);
        },
    }
}

/// Prepending records twice is prepending their concatenation.
proof fn lemma_glue_assoc(a: Seq<RecM>, b: Seq<RecM>, r: GhostRun)
    ensures
        glue(a, glue(b, r)) == glue(a + b, r),
{
    match r {
        GhostRun::Fatal => {},
        GhostRun::Aborted { recs, end } => {
            assert(a + (b + recs) =~= (a + b) + recs);
        },
        GhostRun::Finished { recs, end } => {
            assert(a + (b + recs) =~= (a + b) + recs);
        },
    }
}

/// Parses a line-oriented op list.
pub fn parse_ops(ops: &Vec<String>) -> (r: Result<Vec<ParsedOp>, ExecError>)
    ensures
        (r is Ok) == (spec_parse_all(ops@.map_values(|s: String| s@)) is Some),
        r matches Ok(ps) ==> ps@.map_values(|p: ParsedOp| p@) == spec_parse_all(
            ops@.map_values(|s: String| s@),
        )->Some_0 && ps@.len() == ops@.len() && (forall|k: int|
            0 <= k < ps@.len() ==> (#[trigger] ps@[k])@.wf()),
{
    let ghost lsv = ops@.map_values(|s: String| s@);
    let mut out: Vec<ParsedOp> = Vec::new();
    let mut i: usize = 0;
    proof {
        lemma_spec_parse_all_char(lsv);
    }
    while i < ops.len()
        invariant
            i <= ops@.len(),
            lsv == ops@.map_values(|s: String| s@),
            out@.len() == i,
            forall|k: int| 0 <= k < out@.len() ==> (#[trigger] out@[k])@.wf(),
            forall|k: int| 0 <= k < i ==> spec_parse_op(lsv[k]) == Some((#[trigger] out@[k])@),
        decreases ops@.len() - i,
    {
        proof {
            assert(lsv[i as int] == ops@[i as int]@);
        }
        match parse_op_to_semtrace(ops[i].as_str()) {
            Ok(p) => {
                out.push(p);
            },
            Err(e) => {
                proof {
                    lemma_spec_parse_all_char(lsv);
                    assert(spec_parse_op(lsv[i as int]) is None);
                    if spec_parse_all(lsv) is Some {
                        assert(spec_parse_op(lsv[i as int]) is Some);
                    }
                }
                return Err(e);
            },
        }
        i = i + 1;
    }
    proof {
        lemma_spec_parse_all_char(lsv);
        assert forall|k: int| 0 <= k < lsv.len() implies spec_parse_op(
            #[trigger] lsv[k],
        ) is Some by {
            assert(spec_parse_op(lsv[k]) == Some(out@[k]@));
        }
        assert(spec_parse_all(lsv) is Some);
        let v = spec_parse_all(lsv)->Some_0;
        assert forall|k: int| 0 <= k < out@.len() implies (#[trigger] out@[k])@ == v[k] by {
            assert(Some(v[k]) == spec_parse_op(lsv[k]));
            assert(spec_parse_op(lsv[k]) == Some(out@[k]@));
        }
        assert(out@.map_values(|p: ParsedOp| p@) =~= v);
    }
    Ok(out)
}

/// Parses a whole op list: `Some` exactly when every line parses.
pub open spec fn spec_parse_all(ls: Seq<Seq<char>>) -> Option<Seq<OpV>>
    decreases ls.len(),
{
    if ls.len() == 0 {
        Some(Seq::empty())
    } else {
        match (spec_parse_op(ls[0]), spec_parse_all(ls.drop_first())) {
            (Some(o), Some(rest)) => Some(seq![o] + rest),
            _ => None,
        }
    }
}

/// A whole op list parses exactly when each line does, line by line.
proof fn lemma_spec_parse_all_char(ls: Seq<Seq<char>>)
    ensures
        (spec_parse_all(ls) is Some) == (forall|k: int|
            0 <= k < ls.len() ==> spec_parse_op(#[trigger] ls[k]) is Some),
        spec_parse_all(ls) matches Some(v) ==> v.len() == ls.len() && (forall|k: int|
            0 <= k < ls.len() ==> Some(#[trigger] v[k]) == spec_parse_op(ls[k])),
    decreases ls.len(),
{
    if ls.len() > 0 {
        let tail = ls.drop_first();
        lemma_spec_parse_all_char(tail);
        assert forall|k: int| 0 <= k < tail.len() implies #[trigger] tail[k] == ls[k + 1] by {}
        if spec_parse_all(ls) is Some {
            assert(spec_parse_op(ls[0]) is Some);
            assert(spec_parse_all(tail) is Some);
            assert forall|k: int| 0 <= k < ls.len() implies spec_parse_op(
                #[trigger] ls[k],
            ) is Some by {
                if k > 0 {
                    assert(spec_parse_op(tail[k - 1]) is Some);
                }
            }
            let v = spec_parse_all(ls)->Some_0;
            let vt = spec_parse_all(tail)->Some_0;
            assert(v == seq![spec_parse_op(ls[0])->Some_0] + vt);
            assert forall|k: int| 0 <= k < ls.len() implies Some(#[trigger] v[k])
                == spec_parse_op(ls[k]) by {
                if k == 0 {
                    assert(v[0] == spec_parse_op(ls[0])->Some_0);
                } else {
                    assert(v[k] == vt[k - 1]);
                    assert(tail[k - 1] == ls[k]);
                }
            }
        } else {
            if forall|k: int| 0 <= k < ls.len() ==> spec_parse_op(#[trigger] ls[k]) is Some {
                assert(spec_parse_op(ls[0]) is Some);
                assert forall|k: int| 0 <= k < tail.len() implies spec_parse_op(
                    #[trigger] tail[k],
                ) is Some by {
                    assert(tail[k] == ls[k + 1]);
                }
                assert(spec_parse_all(tail) is Some);
                assert(false);
            }
        }
    }
}

/// Parses and runs a line-oriented op list against fresh certified
/// universes.
pub fn execute_ops(ops: &Vec<String>) -> (r: Result<Execution, ExecError>)
    ensures
        ({
            let lsv = ops@.map_values(|s: String| s@);
            let m0 = init_model(certified_qe(), certified_ge());
            match spec_parse_all(lsv) {
                None => r is Err,
                Some(opsv) => {
                    let run = spec_run(m0, opsv, 0);
                    match r {
                        Result::Err(_) => run is Fatal,
                        Result::Ok(ex) => {
                            &&& !(run is Fatal)
                            &&& ex.records@.map_values(|x: StepRec| x@) == run_recs(run)
                            &&& ex.state@ == run_end(run, m0)
                            &&& ex.state@.inv()
                            &&& ex.empty_set == (run is Aborted)
                        },
                    }
                },
            }
        }),
{
    let ghost lsv = ops@.map_values(|s: String| s@);
    let parsed = match parse_ops(ops) {
        Ok(p) => p,
        Err(e) => {
            return Err(e);
        },
    };
    let init = initial_state();
    proof {
        assert(parsed@.map_values(|p: ParsedOp| p@) == spec_parse_all(lsv)->Some_0);
    }
    execute_parsed(init, &parsed)
}

/// The constraint accumulated by a list of (bit, value) settings.
pub open spec fn cst_of(ps: Seq<(u8, u8)>) -> Constraint {
    cst_ext(Constraint { mask: 0, value: 0 }, ps)
}

/// The constraint `c` extended by a list of (bit, value) settings, applied
/// left to right.
pub open spec fn cst_ext(c: Constraint, qs: Seq<(u8, u8)>) -> Constraint
    decreases qs.len(),
{
    if qs.len() == 0 {
        c
    } else {
        crate::semtrace::spec_set_bit(cst_ext(c, qs.drop_last()), qs.last().0, qs.last().1)
    }
}

/// Prepending one setting to the list is applying it to the start.
pub(crate) proof fn lemma_cst_ext_cons(c: Constraint, x: (u8, u8), qs: Seq<(u8, u8)>)
    ensures
        cst_ext(c, seq![x] + qs) == cst_ext(crate::semtrace::spec_set_bit(c, x.0, x.1), qs),
    decreases qs.len(),
{
    if qs.len() == 0 {
        let w = seq![x] + qs;
        assert(w.len() == 1);
        assert(w.last() == x);
        assert(w.drop_last() =~= Seq::<(u8, u8)>::empty());
        assert(cst_ext(c, Seq::<(u8, u8)>::empty()) == c);
        assert(cst_ext(c, w) == crate::semtrace::spec_set_bit(
            cst_ext(c, w.drop_last()),
            w.last().0,
            w.last().1,
        ));
        let c1 = crate::semtrace::spec_set_bit(c, x.0, x.1);
        assert(cst_ext(c1, qs) == c1);
    } else {
        let w = seq![x] + qs;
        assert(w.drop_last() =~= seq![x] + qs.drop_last());
        assert(w.last() == qs.last());
        lemma_cst_ext_cons(c, x, qs.drop_last());
        let c1 = crate::semtrace::spec_set_bit(c, x.0, x.1);
        assert(cst_ext(c, w) == crate::semtrace::spec_set_bit(
            cst_ext(c, w.drop_last()),
            w.last().0,
            w.last().1,
        ));
        assert(cst_ext(c, w.drop_last()) == cst_ext(c1, qs.drop_last()));
        assert(cst_ext(c1, qs) == crate::semtrace::spec_set_bit(
            cst_ext(c1, qs.drop_last()),
            qs.last().0,
            qs.last().1,
        ));
    }
}

/// Element-wise equality of two candidate vectors.
fn frac_vecs_eq(a: &Vec<Frac>, b: &Vec<Frac>) -> (r: bool)
    ensures
        r == (a@ == b@),
{
    if a.len() != b.len() {
        return false;
    }
    let mut i: usize = 0;
    while i < a.len()
        invariant
            i <= a@.len(),
            a@.len() == b@.len(),
            forall|k: int| 0 <= k < i ==> a@[k] == b@[k],
        decreases a@.len() - i,
    {
        let x = a[i];
        let y = b[i];
        if !(x.num == y.num && x.den == y.den) {
            proof {
                assert(a@[i as int] != b@[i as int]);
            }
            return false;
        }
        i = i + 1;
    }
    proof {
        assert(a@ =~= b@);
    }
    true
}

/// The elision decisions: which bit settings, replayed in order against the
/// universe, change the candidate set. The ones that do not are dropped.
pub open spec fn elide_from(
    u: Seq<Frac>,
    ps: Seq<(u8, u8)>,
    j: int,
    c: Constraint,
) -> Seq<(u8, u8)>
    decreases ps.len() - j,
{
    if j < 0 || j >= ps.len() {
        Seq::empty()
    } else {
        let (i, b) = ps[j];
        let c2 = crate::semtrace::spec_set_bit(c, i, b);
        if spec_filter_qe(u, c2) == spec_filter_qe(u, c) {
            elide_from(u, ps, j + 1, c2)
        } else {
            seq![(i, b)] + elide_from(u, ps, j + 1, c2)
        }
    }
}

/// The minimal basis of a bit-setting list relative to a universe.
pub open spec fn spec_elide(u: Seq<Frac>, ps: Seq<(u8, u8)>) -> Seq<(u8, u8)> {
    elide_from(u, ps, 0, Constraint { mask: 0, value: 0 })
}

/// Redundancy elision: replays the bit settings against the universe and
/// drops every one that leaves the candidate set unchanged, keeping exactly
/// the minimal basis the transcript should commit to. A run of the elided
/// list emits one record per kept setting (`spec_run` records every op of
/// its input and no other), so the dropped settings appear in no transcript
/// record.
pub fn elide_redundant_bits(u: &Vec<Frac>, pairs: &Vec<(u8, u8)>) -> (r: Vec<(u8, u8)>)
    requires
        forall|k: int| 0 <= k < u@.len() ==> (#[trigger] u@[k]).wf(),
        forall|k: int| 0 <= k < pairs@.len() ==> (#[trigger] pairs@[k]).0 < 8,
    ensures
        r@ == spec_elide(u@, pairs@),
{
    let mut out: Vec<(u8, u8)> = Vec::new();
    let mut c_full = Constraint::empty();
    let mut cur = filter_qe(u, c_full);
    let mut idx: usize = 0;
    proof {
        assert(out@ =~= Seq::<(u8, u8)>::empty());
        assert(Seq::<(u8, u8)>::empty() + elide_from(u@, pairs@, 0, c_full) =~= elide_from(
            u@,
            pairs@,
            0,
            c_full,
        ));
    }
    while idx < pairs.len()
        invariant
            idx <= pairs@.len(),
            forall|k: int| 0 <= k < u@.len() ==> (#[trigger] u@[k]).wf(),
            forall|k: int| 0 <= k < pairs@.len() ==> (#[trigger] pairs@[k]).0 < 8,
            cur@ == spec_filter_qe(u@, c_full),
            spec_elide(u@, pairs@) == out@ + elide_from(u@, pairs@, idx as int, c_full),
        decreases pairs@.len() - idx,
    {
        let (i, b) = pairs[idx];
        let c2 = c_full.set_bit(i, b);
        let next = filter_qe(u, c2);
        let ghost out0 = out@;
        if frac_vecs_eq(&cur, &next) {
            proof {
                assert(elide_from(u@, pairs@, idx as int, c_full) == elide_from(
                    u@,
                    pairs@,
                    idx + 1,
                    c2,
                ));
            }
        } else {
            out.push((i, b));
            proof {
                assert(elide_from(u@, pairs@, idx as int, c_full) == seq![(i, b)] + elide_from(
                    u@,
                    pairs@,
                    idx + 1,
                    c2,
                ));
                assert(out0 + (seq![(i, b)] + elide_from(u@, pairs@, idx + 1, c2)) =~= out@
                    + elide_from(u@, pairs@, idx + 1, c2));
            }
        }
        c_full = c2;
        cur = next;
        idx = idx + 1;
    }
    proof {
        assert(elide_from(u@, pairs@, pairs@.len() as int, c_full) =~= Seq::<(u8, u8)>::empty());
        assert(out@ + Seq::<(u8, u8)>::empty() =~= out@);
    }
    out
}

/// Adding one bit leaves every other bit of the mask clear.
pub(crate) proof fn lemma_or_bit_fresh(m: u8, i: u8, j: u8)
    requires
        i < 8,
        j < 8,
        i != j,
        m & (1u8 << j) == 0,
    ensures
        (m | (1u8 << i)) & (1u8 << j) == 0,
{
    assert(i < 8 && j < 8 && i != j && m & (1u8 << j) == 0 ==> (m | (1u8 << i)) & (1u8 << j)
        == 0) by (bit_vector);
}

/// What a whole run reports: whether the replay matched, the final candidate
/// count, the rendered witness, and where the artifacts were written (when a
/// front end wrote any).
#[derive(Clone, Debug)]
pub struct ExecutionResult {
    pub valid: bool,
    pub final_count: usize,
    pub witness: Option<String>,
    pub artifacts_path: Option<String>,
}

/// Runs a line-oriented op list and replays its own transcript: the executor
/// and the verifier share nothing but the records. A completed run always
/// replays as valid: the chain the executor commits is the chain the
/// verifier reconstructs.
pub fn run_and_verify(ops: &Vec<String>) -> (r: Result<(Execution, bool), ExecError>)
    ensures
        ({
            let lsv = ops@.map_values(|s: String| s@);
            let m0 = init_model(certified_qe(), certified_ge());
            match spec_parse_all(lsv) {
                None => r is Err,
                Some(opsv) => {
                    let run = spec_run(m0, opsv, 0);
                    match r {
                        Result::Err(_) => run is Fatal,
                        Result::Ok((ex, valid)) => {
                            &&& !(run is Fatal)
                            &&& ex.records@.map_values(|x: StepRec| x@) == run_recs(run)
                            &&& ex.state@ == run_end(run, m0)
                            &&& ex.state@.inv()
                            &&& ex.empty_set == (run is Aborted)
                            &&& valid == (crate::verify::spec_replay(
                                m0,
                                ex.records@.map_values(|x: StepRec| x@),
                            ) is Some)
                            &&& !ex.empty_set ==> valid
                        },
                    }
                },
            }
        }),
{
    let ghost lsv = ops@.map_values(|s: String| s@);
    let parsed = match parse_ops(ops) {
        Ok(p) => p,
        Err(e) => {
            return Err(e);
        },
    };
    let init = initial_state();
    let ghost m1 = init@;
    let ghost opsv = parsed@.map_values(|p: ParsedOp| p@);
    let ex = match execute_parsed(init, &parsed) {
        Ok(ex) => ex,
        Err(e) => {
            return Err(e);
        },
    };
    let fresh = initial_state();
    proof {
        crate::laws::lemma_canonical_env_unique(m1, fresh@);
        assert(fresh@ =~= m1);
        assert forall|k: int| 0 <= k < opsv.len() implies (#[trigger] opsv[k]).wf() by {
            assert(opsv[k] == parsed@[k]@);
        }
        let run = spec_run(m1, opsv, 0);
        if !ex.empty_set {
            assert(run is Finished);
            crate::verify::lemma_replay_accepts(m1, opsv, 0);
        }
    }
    let valid = crate::verify::verify_records(fresh, &ex.records);
    Ok((ex, valid))
}

/// The first `max_items` candidates of the final set, rendered canonically:
/// as many as the set holds, up to the cap.
pub fn sample_strings(state: &ExecState, max_items: u64) -> (r: Vec<String>)
    ensures
        r@.len() == (if state@.count() <= max_items {
            state@.count() as int
        } else {
            max_items as int
        }),
        forall|k: int|
            0 <= k < r@.len() ==> (#[trigger] r@[k])@ == (if state@.is_boolfun {
                spec_bf_str(state@.set_bf[k])
            } else {
                spec_frac_str(state@.set_fr[k])
            }),
{
    let mut out: Vec<String> = Vec::new();
    if state.is_boolfun {
        let mut i: usize = 0;
        while i < state.set_bf.len() && (i as u64) < max_items
            invariant
                state@.is_boolfun,
                i <= state.set_bf@.len(),
                out@.len() == i,
                i <= max_items,
                forall|k: int|
                    0 <= k < i ==> (#[trigger] out@[k])@ == spec_bf_str(state@.set_bf[k]),
            decreases state.set_bf@.len() - i,
        {
            out.push(boolfun_to_string(&state.set_bf[i]));
            i = i + 1;
        }
    } else {
        let mut i: usize = 0;
        while i < state.set_fr.len() && (i as u64) < max_items
            invariant
                !state@.is_boolfun,
                i <= state.set_fr@.len(),
                out@.len() == i,
                i <= max_items,
                forall|k: int|
                    0 <= k < i ==> (#[trigger] out@[k])@ == spec_frac_str(state@.set_fr[k]),
            decreases state.set_fr@.len() - i,
        {
            out.push(frac_to_string(&state.set_fr[i]));
            i = i + 1;
        }
    }
    out
}

/// A JSON string or `null`.
pub open spec fn json_opt_str(o: Option<Seq<char>>) -> Seq<char> {
    match o {
        None => "null"@,
        Some(s) => seq!['"'] + s + seq!['"'],
    }
}

/// The canonical one-line JSON rendering of a transcript record, fields in
/// wire order, no whitespace.
pub open spec fn spec_record_line(rm: RecM) -> Seq<char> {
    "{\"step\":"@ + dec_str(rm.step as int) + ",\"op\":\""@ + rm.op + "\",\"args\":"@ + rm.args
        + ",\"pre\":{\"set_digest\":"@ + json_opt_str(rm.pre.set_digest) + ",\"count\":"@
        + dec_str(rm.pre.count as int) + ",\"constraint_mask\":"@ + dec_str(
        rm.pre.constraint_mask as int,
    ) + ",\"constraint_value\":"@ + dec_str(rm.pre.constraint_value as int)
        + "},\"post\":{\"set_digest\":"@ + json_opt_str(rm.post.set_digest) + ",\"count\":"@
        + dec_str(rm.post.count as int) + ",\"witness\":"@ + json_opt_str(rm.post.witness)
        + "},\"step_digest\":\""@ + rm.step_digest + "\"}"@
}

/// Appends a JSON string or `null`.
fn append_json_opt_str(out: &mut String, o: &Option<String>)
    ensures
        final(out)@ == old(out)@ + json_opt_str(view_opt_string(*o)),
{
    proof {
        reveal_strlit("null");
        reveal_strlit("\"");
    }
    match o {
        None => {
            out.append("null");
        },
        Some(s) => {
            out.append("\"");
            out.append(s.as_str());
            out.append("\"");
            proof {
                assert(final(out)@ =~= old(out)@ + json_opt_str(view_opt_string(*o)));
            }
        },
    }
}

/// Renders one transcript record as its canonical NDJSON line.
pub fn render_record(rec: &StepRec) -> (r: String)
    ensures
        r@ == spec_record_line(rec@),
{
    proof {
        reveal_strlit("{\"step\":");
        reveal_strlit(",\"op\":\"");
        reveal_strlit("\",\"args\":");
        reveal_strlit(",\"pre\":{\"set_digest\":");
        reveal_strlit(",\"count\":");
        reveal_strlit(",\"constraint_mask\":");
        reveal_strlit(",\"constraint_value\":");
        reveal_strlit("},\"post\":{\"set_digest\":");
        reveal_strlit(",\"witness\":");
        reveal_strlit("},\"step_digest\":\"");
        reveal_strlit("\"}");
    }
    let mut out = String::new();
    out.append("{\"step\":");
    crate::strnum::append_u64(&mut out, rec.step as u64);
    out.append(",\"op\":\"");
    out.append(rec.op.as_str());
    out.append("\",\"args\":");
    out.append(rec.args.as_str());
    out.append(",\"pre\":{\"set_digest\":");
    append_json_opt_str(&mut out, &rec.pre.set_digest);
    out.append(",\"count\":");
    crate::strnum::append_u64(&mut out, rec.pre.count as u64);
    out.append(",\"constraint_mask\":");
    crate::strnum::append_u64(&mut out, rec.pre.constraint_mask as u64);
    out.append(",\"constraint_value\":");
    crate::strnum::append_u64(&mut out, rec.pre.constraint_value as u64);
    out.append("},\"post\":{\"set_digest\":");
    append_json_opt_str(&mut out, &rec.post.set_digest);
    out.append(",\"count\":");
    crate::strnum::append_u64(&mut out, rec.post.count as u64);
    out.append(",\"witness\":");
    append_json_opt_str(&mut out, &rec.post.witness);
    out.append("},\"step_digest\":\"");
    out.append(rec.step_digest.as_str());
    out.append("\"}");
    proof {
        assert(out@ =~= spec_record_line(rec@));
    }
    out
}

} // verus!
