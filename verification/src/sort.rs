//! Verified merge sort and deduplication under the canonical orders.

use vstd::prelude::*;
use vstd::relations::sorted_by;
use vstd::seq_lib::lemma_multiset_commutative;
use crate::qe::{Frac, frac_le, canonical_lt, canonical_le, lemma_frac_le_total_ordering};
use crate::geom::{Tri, tri_le, tri_lt, lemma_tri_le_total_ordering};

verus! {

broadcast use vstd::seq_lib::group_to_multiset_ensures, vstd::multiset::group_multiset_axioms;

/// Extending a prefix by one element extends what it contains by that
/// element.
proof fn lemma_take_one_more(v: Seq<Frac>, i: int, f: Frac)
    requires
        0 <= i < v.len(),
    ensures
        v.take(i + 1).contains(f) <==> (v.take(i).contains(f) || v[i] == f),
{
    if v.take(i).contains(f) {
        let k = choose|k: int| 0 <= k < v.take(i).len() && #[trigger] v.take(i)[k] == f;
        assert(v.take(i + 1)[k] == f);
    }
    if v[i] == f {
        assert(v.take(i + 1)[i] == f);
    }
    if v.take(i + 1).contains(f) {
        let k = choose|k: int| 0 <= k < v.take(i + 1).len() && #[trigger] v.take(i + 1)[k] == f;
        if k < i {
            assert(v.take(i)[k] == f);
        }
    }
}

/// Merges two canonically sorted vectors of well-formed fractions.
fn merge_fracs(a: Vec<Frac>, b: Vec<Frac>) -> (r: Vec<Frac>)
    requires
        sorted_by(a@, frac_le()),
        sorted_by(b@, frac_le()),
        forall|k: int| 0 <= k < a@.len() ==> (#[trigger] a@[k]).wf(),
        forall|k: int| 0 <= k < b@.len() ==> (#[trigger] b@[k]).wf(),
    ensures
        r@.to_multiset() == a@.to_multiset().add(b@.to_multiset()),
        sorted_by(r@, frac_le()),
        forall|k: int| 0 <= k < r@.len() ==> (#[trigger] r@[k]).wf(),
{
    proof {
        lemma_frac_le_total_ordering();
    }
    let mut out: Vec<Frac> = Vec::new();
    let mut i: usize = 0;
    let mut j: usize = 0;
    while i < a.len() || j < b.len()
        invariant
            i <= a@.len(),
            j <= b@.len(),
            sorted_by(a@, frac_le()),
            sorted_by(b@, frac_le()),
            forall|k: int| 0 <= k < a@.len() ==> (#[trigger] a@[k]).wf(),
            forall|k: int| 0 <= k < b@.len() ==> (#[trigger] b@[k]).wf(),
            forall|k: int| 0 <= k < out@.len() ==> (#[trigger] out@[k]).wf(),
            out@.to_multiset() == a@.take(i as int).to_multiset().add(
                b@.take(j as int).to_multiset(),
            ),
            sorted_by(out@, frac_le()),
            forall|k: int, k2: int|
                0 <= k < out@.len() && i <= k2 < a@.len() ==> frac_le()(
                    #[trigger] out@[k],
                    #[trigger] a@[k2],
                ),
            forall|k: int, k2: int|
                0 <= k < out@.len() && j <= k2 < b@.len() ==> frac_le()(
                    #[trigger] out@[k],
                    #[trigger] b@[k2],
                ),
        decreases a@.len() - i + b@.len() - j,
    {
        let take_a: bool = if i < a.len() && j < b.len() {
            crate::qe::frac_le_exec(&a[i], &b[j])
        } else {
            i < a.len()
        };
        let ghost out0 = out@;
        proof {
            lemma_frac_le_total_ordering();
        }
        if take_a {
            let x = a[i];
            proof {
                if j < b@.len() && !canonical_le(x, b@[j as int]) {
                    assert(vstd::relations::strongly_connected(frac_le()));
                    assert(frac_le()(x, b@[j as int]) || frac_le()(b@[j as int], x));
                }
                assert(a@.take(i + 1).drop_last() =~= a@.take(i as int));
            }
            out.push(x);
            i = i + 1;
            proof {
                assert(a@.take(i as int) =~= a@.take(i - 1).push(x));
                assert(out@.to_multiset() =~= a@.take(i as int).to_multiset().add(
                    b@.take(j as int).to_multiset(),
                ));
                assert(out@ == out0.push(x));
                assert forall|k: int, l: int| 0 <= k < l < out@.len() implies frac_le()(
                    #[trigger] out@[k],
                    #[trigger] out@[l],
                ) by {
                    if l < out0.len() {
                        assert(out0[k] == out@[k] && out0[l] == out@[l]);
                    } else {
                        assert(out@[l] == x);
                    }
                }
                assert(vstd::relations::transitive(frac_le()));
                assert forall|k: int, k2: int|
                    0 <= k < out@.len() && i <= k2 < a@.len() implies frac_le()(
                    #[trigger] out@[k],
                    #[trigger] a@[k2],
                ) by {
                    if k < out0.len() {
                        assert(frac_le()(out0[k], a@[k2]));
                    } else {
                        assert(out@[k] == x);
                        assert(frac_le()(a@[i - 1], a@[k2]));
                    }
                }
                assert forall|k: int, k2: int|
                    0 <= k < out@.len() && j <= k2 < b@.len() implies frac_le()(
                    #[trigger] out@[k],
                    #[trigger] b@[k2],
                ) by {
                    if k < out0.len() {
                        assert(frac_le()(out0[k], b@[k2]));
                    } else {
                        assert(out@[k] == x);
                        assert(frac_le()(x, b@[j as int]));
                        if k2 > j {
                            assert(frac_le()(b@[j as int], b@[k2]));
                            assert(frac_le()(x, b@[k2]));
                        }
                    }
                }
            }
        } else {
            let x = b[j];
            proof {
                if i < a@.len() {
                    assert(vstd::relations::strongly_connected(frac_le()));
                    assert(frac_le()(x, a@[i as int]) || frac_le()(a@[i as int], x));
                }
                assert(b@.take(j + 1).drop_last() =~= b@.take(j as int));
            }
            out.push(x);
            j = j + 1;
            proof {
                assert(b@.take(j as int) =~= b@.take(j - 1).push(x));
                assert(out@.to_multiset() =~= a@.take(i as int).to_multiset().add(
                    b@.take(j as int).to_multiset(),
                ));
                assert(out@ == out0.push(x));
                assert forall|k: int, l: int| 0 <= k < l < out@.len() implies frac_le()(
                    #[trigger] out@[k],
                    #[trigger] out@[l],
                ) by {
                    if l < out0.len() {
                        assert(out0[k] == out@[k] && out0[l] == out@[l]);
                    } else {
                        assert(out@[l] == x);
                    }
                }
                assert(vstd::relations::transitive(frac_le()));
                assert forall|k: int, k2: int|
                    0 <= k < out@.len() && j <= k2 < b@.len() implies frac_le()(
                    #[trigger] out@[k],
                    #[trigger] b@[k2],
                ) by {
                    if k < out0.len() {
                        assert(frac_le()(out0[k], b@[k2]));
                    } else {
                        assert(out@[k] == x);
                        assert(frac_le()(b@[j - 1], b@[k2]));
                    }
                }
                assert forall|k: int, k2: int|
                    0 <= k < out@.len() && i <= k2 < a@.len() implies frac_le()(
                    #[trigger] out@[k],
                    #[trigger] a@[k2],
                ) by {
                    if k < out0.len() {
                        assert(frac_le()(out0[k], a@[k2]));
                    } else {
                        assert(out@[k] == x);
                        assert(frac_le()(x, a@[i as int]));
                        if k2 > i {
                            assert(frac_le()(a@[i as int], a@[k2]));
                            assert(frac_le()(x, a@[k2]));
                        }
                    }
                }
            }
        }
    }
    proof {
        assert(a@.take(a@.len() as int) =~= a@);
        assert(b@.take(b@.len() as int) =~= b@);
    }
    out
}

/// Sorts fractions by the canonical order, keeping the multiset of elements.
pub fn sort_fracs(v: Vec<Frac>) -> (r: Vec<Frac>)
    requires
        forall|k: int| 0 <= k < v@.len() ==> (#[trigger] v@[k]).wf(),
    ensures
        r@.to_multiset() == v@.to_multiset(),
        sorted_by(r@, frac_le()),
        forall|k: int| 0 <= k < r@.len() ==> (#[trigger] r@[k]).wf(),
    decreases v@.len(),
{
    if v.len() <= 1 {
        proof {
            lemma_frac_le_total_ordering();
        }
        return v;
    }
    let mut v = v;
    let ghost whole = v@;
    let mid = v.len() / 2;
    let right = v.split_off(mid);
    proof {
        assert(whole =~= v@ + right@);
        lemma_multiset_commutative(v@, right@);
    }
    let ls = sort_fracs(v);
    let rs = sort_fracs(right);
    merge_fracs(ls, rs)
}

/// Removes adjacent duplicates from a canonically sorted vector, leaving a
/// strictly increasing vector with the same members.
pub fn dedup_sorted_fracs(v: Vec<Frac>) -> (r: Vec<Frac>)
    requires
        sorted_by(v@, frac_le()),
        forall|k: int| 0 <= k < v@.len() ==> (#[trigger] v@[k]).wf(),
    ensures
        forall|k: int, l: int| 0 <= k < l < r@.len() ==> canonical_lt(#[trigger] r@[k], #[trigger] r@[l]),
        forall|f: Frac| r@.contains(f) <==> v@.contains(f),
        forall|k: int| 0 <= k < r@.len() ==> (#[trigger] r@[k]).wf(),
{
    let mut out: Vec<Frac> = Vec::new();
    let mut i: usize = 0;
    while i < v.len()
        invariant
            i <= v@.len(),
            sorted_by(v@, frac_le()),
            forall|k: int| 0 <= k < v@.len() ==> (#[trigger] v@[k]).wf(),
            forall|k: int| 0 <= k < out@.len() ==> (#[trigger] out@[k]).wf(),
            forall|k: int, l: int|
                0 <= k < l < out@.len() ==> canonical_lt(#[trigger] out@[k], #[trigger] out@[l]),
            forall|f: Frac| out@.contains(f) <==> v@.take(i as int).contains(f),
            i > 0 ==> out@.len() > 0 && out@[out@.len() - 1] == v@[i - 1],
            i == 0 ==> out@.len() == 0,
        decreases v@.len() - i,
    {
        let x = v[i];
        let ghost out0 = out@;
        proof {
            lemma_take_one_more(v@, i as int, x);
        }
        if out.len() == 0 {
            out.push(x);
            proof {
                assert(out@ == out0.push(x));
                assert(out@[0] == x);
                assert forall|f: Frac| out@.contains(f) <==> v@.take(i + 1).contains(f) by {
                    lemma_take_one_more(v@, i as int, f);
                    if out@.contains(f) {
                        assert(f == x);
                    }
                    if f == x {
                        assert(out@.contains(f)) by {
                            assert(out@[0] == f);
                        }
                    }
                }
            }
        } else {
            let last = out[out.len() - 1];
            if x == last {
                proof {
                    assert(out@[out@.len() - 1] == x);
                    assert forall|f: Frac| out@.contains(f) <==> v@.take(i + 1).contains(f) by {
                        lemma_take_one_more(v@, i as int, f);
                        if f == x {
                            assert(out@.contains(f)) by {
                                assert(out@[out@.len() - 1] == f);
                            }
                        }
                    }
                }
            } else {
                proof {
                    lemma_frac_le_total_ordering();
                    assert(frac_le()(v@[i - 1], v@[i as int]));
                    assert(canonical_lt(last, x));
                    assert forall|k: int| 0 <= k < out0.len() implies canonical_lt(
                        #[trigger] out0[k],
                        x,
                    ) by {
                        if k < out0.len() - 1 {
                            crate::qe::lemma_canonical_lt_strict(out0[k], last, x);
                        }
                    }
                }
                out.push(x);
                proof {
                    assert(out@ == out0.push(x));
                    assert(out@[out@.len() - 1] == x);
                    assert forall|f: Frac| out@.contains(f) <==> v@.take(i + 1).contains(f) by {
                        lemma_take_one_more(v@, i as int, f);
                        if out@.contains(f) {
                            let k = choose|k: int|
                                0 <= k < out@.len() && #[trigger] out@[k] == f;
                            if k < out0.len() {
                                assert(out0[k] == f);
                                assert(out0.contains(f));
                            } else {
                                assert(f == x);
                            }
                        }
                        if v@.take(i as int).contains(f) {
                            assert(out0.contains(f));
                            let l = choose|l: int| 0 <= l < out0.len() && #[trigger] out0[l] == f;
                            assert(out@[l] == f);
                            assert(out@.contains(f));
                        }
                        if f == x {
                            assert(out@.contains(f)) by {
                                assert(out@[out@.len() - 1] == f);
                            }
                        }
                    }
                }
            }
        }
        i = i + 1;
    }
    proof {
        assert(v@.take(v@.len() as int) =~= v@);
    }
    out
}

/// Extending a prefix by one element, for triangles.
proof fn lemma_take_one_more_tri(v: Seq<Tri>, i: int, f: Tri)
    requires
        0 <= i < v.len(),
    ensures
        v.take(i + 1).contains(f) <==> (v.take(i).contains(f) || v[i] == f),
{
    if v.take(i).contains(f) {
        let k = choose|k: int| 0 <= k < v.take(i).len() && #[trigger] v.take(i)[k] == f;
        assert(v.take(i + 1)[k] == f);
    }
    if v[i] == f {
        assert(v.take(i + 1)[i] == f);
    }
    if v.take(i + 1).contains(f) {
        let k = choose|k: int| 0 <= k < v.take(i + 1).len() && #[trigger] v.take(i + 1)[k] == f;
        if k < i {
            assert(v.take(i)[k] == f);
        }
    }
}

/// Merges two canonically sorted vectors of triangles.
fn merge_tris(a: Vec<Tri>, b: Vec<Tri>) -> (r: Vec<Tri>)
    requires
        sorted_by(a@, tri_le()),
        sorted_by(b@, tri_le()),
    ensures
        r@.to_multiset() == a@.to_multiset().add(b@.to_multiset()),
        sorted_by(r@, tri_le()),
{
    proof {
        lemma_tri_le_total_ordering();
    }
    let mut out: Vec<Tri> = Vec::new();
    let mut i: usize = 0;
    let mut j: usize = 0;
    while i < a.len() || j < b.len()
        invariant
            i <= a@.len(),
            j <= b@.len(),
            sorted_by(a@, tri_le()),
            sorted_by(b@, tri_le()),
            out@.to_multiset() == a@.take(i as int).to_multiset().add(
                b@.take(j as int).to_multiset(),
            ),
            sorted_by(out@, tri_le()),
            forall|k: int, k2: int|
                0 <= k < out@.len() && i <= k2 < a@.len() ==> tri_le()(
                    #[trigger] out@[k],
                    #[trigger] a@[k2],
                ),
            forall|k: int, k2: int|
                0 <= k < out@.len() && j <= k2 < b@.len() ==> tri_le()(
                    #[trigger] out@[k],
                    #[trigger] b@[k2],
                ),
        decreases a@.len() - i + b@.len() - j,
    {
        let take_a: bool = if i < a.len() && j < b.len() {
            crate::geom::tri_le_exec(&a[i], &b[j])
        } else {
            i < a.len()
        };
        let ghost out0 = out@;
        proof {
            lemma_tri_le_total_ordering();
        }
        if take_a {
            let x = a[i];
            proof {
                assert(a@.take(i + 1).drop_last() =~= a@.take(i as int));
            }
            out.push(x);
            i = i + 1;
            proof {
                assert(a@.take(i as int) =~= a@.take(i - 1).push(x));
                assert(out@.to_multiset() =~= a@.take(i as int).to_multiset().add(
                    b@.take(j as int).to_multiset(),
                ));
                assert(out@ == out0.push(x));
                assert forall|k: int, l: int| 0 <= k < l < out@.len() implies tri_le()(
                    #[trigger] out@[k],
                    #[trigger] out@[l],
                ) by {
                    if l < out0.len() {
                        assert(out0[k] == out@[k] && out0[l] == out@[l]);
                    } else {
                        assert(out@[l] == x);
                    }
                }
                assert forall|k: int, k2: int|
                    0 <= k < out@.len() && i <= k2 < a@.len() implies tri_le()(
                    #[trigger] out@[k],
                    #[trigger] a@[k2],
                ) by {
                    if k < out0.len() {
                        assert(tri_le()(out0[k], a@[k2]));
                    } else {
                        assert(out@[k] == x);
                        assert(tri_le()(a@[i - 1], a@[k2]));
                    }
                }
                assert forall|k: int, k2: int|
                    0 <= k < out@.len() && j <= k2 < b@.len() implies tri_le()(
                    #[trigger] out@[k],
                    #[trigger] b@[k2],
                ) by {
                    if k < out0.len() {
                        assert(tri_le()(out0[k], b@[k2]));
                    } else {
                        assert(out@[k] == x);
                        assert(tri_le()(x, b@[j as int]));
                        if k2 > j {
                            assert(tri_le()(b@[j as int], b@[k2]));
                            assert(tri_le()(x, b@[k2]));
                        }
                    }
                }
            }
        } else {
            let x = b[j];
            proof {
                assert(b@.take(j + 1).drop_last() =~= b@.take(j as int));
            }
            out.push(x);
            j = j + 1;
            proof {
                assert(b@.take(j as int) =~= b@.take(j - 1).push(x));
                assert(out@.to_multiset() =~= a@.take(i as int).to_multiset().add(
                    b@.take(j as int).to_multiset(),
                ));
                assert(out@ == out0.push(x));
                assert forall|k: int, l: int| 0 <= k < l < out@.len() implies tri_le()(
                    #[trigger] out@[k],
                    #[trigger] out@[l],
                ) by {
                    if l < out0.len() {
                        assert(out0[k] == out@[k] && out0[l] == out@[l]);
                    } else {
                        assert(out@[l] == x);
                    }
                }
                assert forall|k: int, k2: int|
                    0 <= k < out@.len() && j <= k2 < b@.len() implies tri_le()(
                    #[trigger] out@[k],
                    #[trigger] b@[k2],
                ) by {
                    if k < out0.len() {
                        assert(tri_le()(out0[k], b@[k2]));
                    } else {
                        assert(out@[k] == x);
                        assert(tri_le()(b@[j - 1], b@[k2]));
                    }
                }
                assert forall|k: int, k2: int|
                    0 <= k < out@.len() && i <= k2 < a@.len() implies tri_le()(
                    #[trigger] out@[k],
                    #[trigger] a@[k2],
                ) by {
                    if k < out0.len() {
                        assert(tri_le()(out0[k], a@[k2]));
                    } else {
                        assert(out@[k] == x);
                        assert(tri_le()(x, a@[i as int]));
                        if k2 > i {
                            assert(tri_le()(a@[i as int], a@[k2]));
                            assert(tri_le()(x, a@[k2]));
                        }
                    }
                }
            }
        }
    }
    proof {
        assert(a@.take(a@.len() as int) =~= a@);
        assert(b@.take(b@.len() as int) =~= b@);
    }
    out
}

/// Sorts triangles by the canonical order, keeping the multiset of elements.
pub fn sort_tris(v: Vec<Tri>) -> (r: Vec<Tri>)
    ensures
        r@.to_multiset() == v@.to_multiset(),
        sorted_by(r@, tri_le()),
    decreases v@.len(),
{
    if v.len() <= 1 {
        proof {
            lemma_tri_le_total_ordering();
        }
        return v;
    }
    let mut v = v;
    let ghost whole = v@;
    let mid = v.len() / 2;
    let right = v.split_off(mid);
    proof {
        assert(whole =~= v@ + right@);
        lemma_multiset_commutative(v@, right@);
    }
    let ls = sort_tris(v);
    let rs = sort_tris(right);
    merge_tris(ls, rs)
}

/// Removes adjacent duplicates from a canonically sorted triangle vector.
pub fn dedup_sorted_tris(v: Vec<Tri>) -> (r: Vec<Tri>)
    requires
        sorted_by(v@, tri_le()),
    ensures
        forall|k: int, l: int| 0 <= k < l < r@.len() ==> tri_lt(#[trigger] r@[k], #[trigger] r@[l]),
        forall|t: Tri| r@.contains(t) <==> v@.contains(t),
{
    let mut out: Vec<Tri> = Vec::new();
    let mut i: usize = 0;
    while i < v.len()
        invariant
            i <= v@.len(),
            sorted_by(v@, tri_le()),
            forall|k: int, l: int|
                0 <= k < l < out@.len() ==> tri_lt(#[trigger] out@[k], #[trigger] out@[l]),
            forall|t: Tri| out@.contains(t) <==> v@.take(i as int).contains(t),
            i > 0 ==> out@.len() > 0 && out@[out@.len() - 1] == v@[i - 1],
            i == 0 ==> out@.len() == 0,
        decreases v@.len() - i,
    {
        let x = v[i];
        let ghost out0 = out@;
        proof {
            lemma_take_one_more_tri(v@, i as int, x);
        }
        if out.len() == 0 {
            out.push(x);
            proof {
                assert(out@ == out0.push(x));
                assert(out@[0] == x);
                assert forall|f: Tri| out@.contains(f) <==> v@.take(i + 1).contains(f) by {
                    lemma_take_one_more_tri(v@, i as int, f);
                    if out@.contains(f) {
                        assert(f == x);
                    }
                    if f == x {
                        assert(out@.contains(f)) by {
                            assert(out@[0] == f);
                        }
                    }
                }
            }
        } else {
            let last = out[out.len() - 1];
            if x == last {
                proof {
                    assert(out@[out@.len() - 1] == x);
                    assert forall|f: Tri| out@.contains(f) <==> v@.take(i + 1).contains(f) by {
                        lemma_take_one_more_tri(v@, i as int, f);
                        if f == x {
                            assert(out@.contains(f)) by {
                                assert(out@[out@.len() - 1] == f);
                            }
                        }
                    }
                }
            } else {
                proof {
                    lemma_tri_le_total_ordering();
                    assert(tri_le()(v@[i - 1], v@[i as int]));
                    assert(tri_lt(last, x));
                    assert forall|k: int| 0 <= k < out0.len() implies tri_lt(
                        #[trigger] out0[k],
                        x,
                    ) by {
                        if k < out0.len() - 1 {
                            crate::geom::lemma_tri_lt_strict(out0[k], last, x);
                        }
                    }
                }
                out.push(x);
                proof {
                    assert(out@ == out0.push(x));
                    assert(out@[out@.len() - 1] == x);
                    assert forall|f: Tri| out@.contains(f) <==> v@.take(i + 1).contains(f) by {
                        lemma_take_one_more_tri(v@, i as int, f);
                        if out@.contains(f) {
                            let k = choose|k: int|
                                0 <= k < out@.len() && #[trigger] out@[k] == f;
                            if k < out0.len() {
                                assert(out0[k] == f);
                                assert(out0.contains(f));
                            } else {
                                assert(f == x);
                            }
                        }
                        if v@.take(i as int).contains(f) {
                            assert(out0.contains(f));
                            let l = choose|l: int| 0 <= l < out0.len() && #[trigger] out0[l] == f;
                            assert(out@[l] == f);
                            assert(out@.contains(f));
                        }
                        if f == x {
                            assert(out@.contains(f)) by {
                                assert(out@[out@.len() - 1] == f);
                            }
                        }
                    }
                }
            }
        }
        i = i + 1;
    }
    proof {
        assert(v@.take(v@.len() as int) =~= v@);
    }
    out
}

} // verus!
