//! The library's general laws: what the filter returns, how the canonical
//! Boolean order relates to the packed bits, that witness selection is a
//! deterministic minimum, that selection ops do not move the candidate set,
//! and that the certified universes are unique.

use vstd::prelude::*;
use crate::qe::{
    Frac, canonical_lt, spec_parse_frac, spec_reduce, spec_gcd, lemma_gcd_props,
    lemma_canonical_lt_strict, divides, first_at, lemma_first_at, spec_abs,
};
use crate::geom::{Tri, tri_lt, lemma_tri_lt_strict};
use crate::boolfun::BoolFun;
use crate::semtrace::{Constraint, spec_matches, spec_sig7};
use crate::exec::{
    spec_filter_qe, spec_witness_nearest, wit_better, spec_dist, spec_dist_lt, Model, OpV,
    spec_apply, bf_universe, canonical_env,
};

verus! {

/// What the constraint filter returns: exactly the universe elements whose
/// signature matches, in canonical order, without duplicates.
pub proof fn lemma_filter_qe_canonical(u: Seq<Frac>, c: Constraint)
    requires
        forall|k: int, l: int| 0 <= k < l < u.len() ==> canonical_lt(#[trigger] u[k], #[trigger] u[l]),
        forall|k: int| 0 <= k < u.len() ==> (#[trigger] u[k]).wf(),
    ensures
        forall|k: int, l: int|
            0 <= k < l < spec_filter_qe(u, c).len() ==> canonical_lt(
                #[trigger] spec_filter_qe(u, c)[k],
                #[trigger] spec_filter_qe(u, c)[l],
            ),
        forall|f: Frac|
            spec_filter_qe(u, c).contains(f) <==> u.contains(f) && spec_matches(c, spec_sig7(f)),
    decreases u.len(),
{
    reveal(Seq::filter);
    let out = spec_filter_qe(u, c);
    if u.len() == 0 {
    } else {
        let v = u.drop_last();
        assert forall|k: int, l: int| 0 <= k < l < v.len() implies canonical_lt(
            #[trigger] v[k],
            #[trigger] v[l],
        ) by {
            assert(v[k] == u[k] && v[l] == u[l]);
        }
        assert forall|k: int| 0 <= k < v.len() implies (#[trigger] v[k]).wf() by {
            assert(v[k] == u[k]);
        }
        lemma_filter_qe_canonical(v, c);
        let sub = spec_filter_qe(v, c);
        assert forall|g: Frac| sub.contains(g) implies u.contains(g) by {
            assert(v.contains(g));
            let k = choose|k: int| 0 <= k < v.len() && #[trigger] v[k] == g;
            assert(u[k] == g);
        }
        if spec_matches(c, spec_sig7(u.last())) {
            assert(out == sub.push(u.last()));
            assert forall|k: int, l: int| 0 <= k < l < out.len() implies canonical_lt(
                #[trigger] out[k],
                #[trigger] out[l],
            ) by {
                if l < sub.len() {
                    assert(out[k] == sub[k] && out[l] == sub[l]);
                } else {
                    assert(out[l] == u.last());
                    assert(out[k] == sub[k]);
                    assert(sub.contains(sub[k]));
                    assert(v.contains(sub[k]));
                    let j = choose|j: int| 0 <= j < v.len() && #[trigger] v[j] == sub[k];
                    assert(u[j] == sub[k]);
                    assert(j < u.len() - 1);
                    assert(canonical_lt(u[j], u[u.len() - 1]));
                }
            }
            assert forall|f: Frac|
                out.contains(f) <==> (u.contains(f) && spec_matches(c, spec_sig7(f))) by {
                if out.contains(f) {
                    let k = choose|k: int| 0 <= k < out.len() && #[trigger] out[k] == f;
                    if k < sub.len() {
                        assert(sub.contains(f));
                    } else {
                        assert(f == u.last());
                        assert(u.contains(f)) by {
                            assert(u[u.len() - 1] == f);
                        }
                    }
                }
                if u.contains(f) && spec_matches(c, spec_sig7(f)) {
                    let k = choose|k: int| 0 <= k < u.len() && #[trigger] u[k] == f;
                    if k < u.len() - 1 {
                        assert(v[k] == f);
                        assert(v.contains(f));
                        assert(sub.contains(f));
                        let j = choose|j: int| 0 <= j < sub.len() && #[trigger] sub[j] == f;
                        assert(out[j] == f);
                    } else {
                        assert(out[out.len() - 1] == f);
                    }
                }
            }
        } else {
            assert(out == sub);
            assert forall|f: Frac|
                out.contains(f) <==> (u.contains(f) && spec_matches(c, spec_sig7(f))) by {
                if u.contains(f) && spec_matches(c, spec_sig7(f)) {
                    let k = choose|k: int| 0 <= k < u.len() && #[trigger] u[k] == f;
                    if k < u.len() - 1 {
                        assert(v[k] == f);
                        assert(v.contains(f));
                    } else {
                        assert(f == u.last());
                    }
                }
                if out.contains(f) {
                    assert(v.contains(f));
                    assert(u.contains(f) && spec_matches(c, spec_sig7(f)));
                }
            }
        }
    }
}

/// The Boolean universe's canonical order is the unsigned order on the
/// packed bits: element `i` is the table with packed value `i`.
pub proof fn lemma_boolfun_canonical_unsigned(n: u8, i: int, j: int)
    requires
        n <= 4,
        0 <= i < bf_universe(n).len(),
        0 <= j < bf_universe(n).len(),
    ensures
        bf_universe(n)[i] == (BoolFun { n, bits: i as u64 }),
        crate::boolfun::bf_lt(bf_universe(n)[i], bf_universe(n)[j]) <==> i < j,
{
    assert(bf_universe(n).len() <= 0x1_0000) by {
        vstd::arithmetic::power2::lemma2_to64();
        if (n as nat) < 4 {
            vstd::arithmetic::power2::lemma_pow2_strictly_increases(n as nat, 4);
        }
        if vstd::arithmetic::power2::pow2(n as nat) < 16 {
            vstd::arithmetic::power2::lemma_pow2_strictly_increases(
                vstd::arithmetic::power2::pow2(n as nat),
                16,
            );
        }
    }
}

/// The witness order, for one target, is a strict total order on distinct
/// well-formed candidates.
proof fn lemma_wit_better_strict(t: Frac, a: Frac, b: Frac, c: Frac)
    requires
        t.wf(),
        a.wf(),
        b.wf(),
        c.wf(),
    ensures
        !wit_better(t, a, a),
        a != b ==> (wit_better(t, a, b) <==> !wit_better(t, b, a)),
        wit_better(t, a, b) && wit_better(t, b, c) ==> wit_better(t, a, c),
{
    let da = spec_dist(t, a);
    let db = spec_dist(t, b);
    let dc = spec_dist(t, c);
    assert(da.1 >= 1 && db.1 >= 1 && dc.1 >= 1) by (nonlinear_arith)
        requires
            t.den >= 1,
            a.den >= 1,
            b.den >= 1,
            c.den >= 1,
            da.1 == t.den * a.den,
            db.1 == t.den * b.den,
            dc.1 == t.den * c.den,
    ;
    assert(da.0 >= 0 && db.0 >= 0 && dc.0 >= 0);
    // trichotomy and transitivity of the cross-multiplied distance comparison
    assert(spec_dist_lt(da, db) ==> !spec_dist_lt(db, da));
    lemma_canonical_lt_strict(a, b, c);
    lemma_canonical_lt_strict(a, c, b);
    if wit_better(t, a, b) && wit_better(t, b, c) {
        assert(da.0 * db.1 <= db.0 * da.1 && db.0 * dc.1 <= dc.0 * db.1 && da.1 >= 1 && db.1 >= 1
            && dc.1 >= 1 && da.0 >= 0 && db.0 >= 0 && dc.0 >= 0 ==> da.0 * dc.1 <= dc.0 * da.1)
            by (nonlinear_arith);
        assert(da.0 * db.1 < db.0 * da.1 && db.0 * dc.1 <= dc.0 * db.1 && da.1 >= 1 && db.1 >= 1
            && dc.1 >= 1 ==> da.0 * dc.1 < dc.0 * da.1) by (nonlinear_arith);
        assert(da.0 * db.1 <= db.0 * da.1 && db.0 * dc.1 < dc.0 * db.1 && da.1 >= 1 && db.1 >= 1
            && dc.1 >= 1 ==> da.0 * dc.1 < dc.0 * da.1) by (nonlinear_arith);
    }
}

/// The selected witness is the unique minimum of the candidate list under
/// the witness order: it is in the list, and it betters every other
/// candidate.
pub proof fn lemma_witness_is_min(s: Seq<Frac>, t: Frac)
    requires
        t.wf(),
        forall|k: int| 0 <= k < s.len() ==> (#[trigger] s[k]).wf(),
        s.len() > 0,
    ensures
        spec_witness_nearest(s, t) is Some,
        s.contains(spec_witness_nearest(s, t)->Some_0),
        forall|k: int|
            0 <= k < s.len() && s[k] != spec_witness_nearest(s, t)->Some_0 ==> wit_better(
                t,
                spec_witness_nearest(s, t)->Some_0,
                #[trigger] s[k],
            ),
    decreases s.len(),
{
    let w = spec_witness_nearest(s, t)->Some_0;
    let v = s.drop_last();
    let last = s[s.len() - 1];
    if s.len() == 1 {
        assert(s.contains(w)) by {
            assert(s[0] == w);
        }
    } else {
        assert forall|k: int| 0 <= k < v.len() implies (#[trigger] v[k]).wf() by {
            assert(v[k] == s[k]);
        }
        lemma_witness_is_min(v, t);
        let wv = spec_witness_nearest(v, t)->Some_0;
        assert(v.contains(wv));
        let j = choose|j: int| 0 <= j < v.len() && #[trigger] v[j] == wv;
        assert(s[j] == wv);
        if wit_better(t, last, wv) {
            assert(w == last);
            assert(s.contains(w)) by {
                assert(s[s.len() - 1] == w);
            }
            assert forall|k: int| 0 <= k < s.len() && s[k] != w implies wit_better(
                t,
                w,
                #[trigger] s[k],
            ) by {
                if k < s.len() - 1 {
                    assert(v[k] == s[k]);
                    if s[k] != wv {
                        lemma_wit_better_strict(t, last, wv, s[k]);
                    }
                }
            }
        } else {
            assert(w == wv);
            assert(s.contains(w)) by {
                assert(s[j] == w);
            }
            assert forall|k: int| 0 <= k < s.len() && s[k] != w implies wit_better(
                t,
                w,
                #[trigger] s[k],
            ) by {
                if k < s.len() - 1 {
                    assert(v[k] == s[k]);
                } else {
                    assert(s[k] == last);
                    lemma_wit_better_strict(t, w, last, last);
                    if last != w {
                        lemma_wit_better_strict(t, last, w, w);
                    }
                }
            }
        }
    }
}

/// Witness determinism: two candidate lists with the same members select
/// the same witness — permuting the candidate set cannot change it.
pub proof fn lemma_witness_permutation(s1: Seq<Frac>, s2: Seq<Frac>, t: Frac)
    requires
        t.wf(),
        forall|k: int| 0 <= k < s1.len() ==> (#[trigger] s1[k]).wf(),
        forall|k: int| 0 <= k < s2.len() ==> (#[trigger] s2[k]).wf(),
        forall|f: Frac| s1.contains(f) <==> s2.contains(f),
    ensures
        spec_witness_nearest(s1, t) == spec_witness_nearest(s2, t),
{
    if s1.len() == 0 {
        if s2.len() > 0 {
            assert(s2.contains(s2[0]));
            assert(s1.contains(s2[0]));
            assert(false);
        }
    } else if s2.len() == 0 {
        assert(s1.contains(s1[0]));
        assert(s2.contains(s1[0]));
        assert(false);
    } else {
        lemma_witness_is_min(s1, t);
        lemma_witness_is_min(s2, t);
        let w1 = spec_witness_nearest(s1, t)->Some_0;
        let w2 = spec_witness_nearest(s2, t)->Some_0;
        if w1 != w2 {
            assert(s2.contains(w1));
            assert(s1.contains(w2));
            let k1 = choose|k: int| 0 <= k < s2.len() && #[trigger] s2[k] == w1;
            let k2 = choose|k: int| 0 <= k < s1.len() && #[trigger] s1[k] == w2;
            assert(wit_better(t, w1, w2));
            assert(wit_better(t, w2, w1));
            assert(w1.wf() && w2.wf()) by {
                assert(s2[k1].wf() && s1[k2].wf());
            }
            lemma_wit_better_strict(t, w1, w2, w2);
        }
    }
}

/// Selection ops move no set: `TOPK` and `WITNESS_NEAREST` leave the
/// candidate set, its digest and its count exactly as they were.
pub proof fn lemma_selection_preserves_set(m: Model, op: OpV)
    requires
        op is TopK || op is WitnessNearest,
        spec_apply(m, op) is Some,
    ensures
        spec_apply(m, op)->Some_0.set_digest == m.set_digest,
        spec_apply(m, op)->Some_0.count() == m.count(),
        spec_apply(m, op)->Some_0.set_fr == m.set_fr,
        spec_apply(m, op)->Some_0.set_bf == m.set_bf,
{
}

/// Two canonically certified environments hold the same universes: the
/// characterization pins both down uniquely.
pub proof fn lemma_canonical_env_unique(m1: Model, m2: Model)
    requires
        canonical_env(m1),
        canonical_env(m2),
    ensures
        m1.qe == m2.qe,
        m1.ge == m2.ge,
{
    assert forall|k: int| 0 <= k < m1.qe.len() implies (#[trigger] m1.qe[k]).wf() by {
        assert(m1.qe.contains(m1.qe[k]));
        assert(m1.qe[k].in_universe());
    }
    assert forall|k: int| 0 <= k < m2.qe.len() implies (#[trigger] m2.qe[k]).wf() by {
        assert(m2.qe.contains(m2.qe[k]));
        assert(m2.qe[k].in_universe());
    }
    assert forall|f: Frac| m1.qe.contains(f) <==> m2.qe.contains(f) by {
        assert(m1.qe.contains(f) <==> f.in_universe());
        assert(m2.qe.contains(f) <==> f.in_universe());
    }
    lemma_strict_sorted_unique_fr(m1.qe, m2.qe);
    assert forall|t: Tri| m1.ge.contains(t) <==> m2.ge.contains(t) by {
        assert(m1.ge.contains(t) <==> t.in_universe(20));
        assert(m2.ge.contains(t) <==> t.in_universe(20));
    }
    lemma_strict_sorted_unique_tri(m1.ge, m2.ge);
    assert(m1.qe =~= m2.qe);
    assert(m1.ge =~= m2.ge);
}

proof fn lemma_strict_sorted_unique_fr(x: Seq<Frac>, y: Seq<Frac>)
    requires
        forall|k: int, l: int| 0 <= k < l < x.len() ==> canonical_lt(#[trigger] x[k], #[trigger] x[l]),
        forall|k: int, l: int| 0 <= k < l < y.len() ==> canonical_lt(#[trigger] y[k], #[trigger] y[l]),
        forall|k: int| 0 <= k < x.len() ==> (#[trigger] x[k]).wf(),
        forall|k: int| 0 <= k < y.len() ==> (#[trigger] y[k]).wf(),
        forall|f: Frac| x.contains(f) <==> y.contains(f),
    ensures
        x =~= y,
    decreases x.len(),
{
    if x.len() == 0 {
        if y.len() > 0 {
            assert(y.contains(y[0]));
            assert(x.contains(y[0]));
            assert(false);
        }
    } else {
        assert(x.contains(x[0]));
        assert(y.contains(x[0]));
        if y.len() == 0 {
            assert(false);
        }
        let j = choose|j: int| 0 <= j < y.len() && #[trigger] y[j] == x[0];
        assert(y.contains(y[0]));
        assert(x.contains(y[0]));
        let i = choose|i: int| 0 <= i < x.len() && #[trigger] x[i] == y[0];
        if i > 0 && j > 0 {
            assert(canonical_lt(x[0], x[i]));
            assert(canonical_lt(y[0], y[j]));
            lemma_canonical_lt_strict(x[0], y[0], x[0]);
            assert(false);
        }
        assert(x[0] == y[0]);
        let xt = x.drop_first();
        let yt = y.drop_first();
        assert forall|k: int, l: int| 0 <= k < l < xt.len() implies canonical_lt(
            #[trigger] xt[k],
            #[trigger] xt[l],
        ) by {
            assert(xt[k] == x[k + 1] && xt[l] == x[l + 1]);
        }
        assert forall|k: int, l: int| 0 <= k < l < yt.len() implies canonical_lt(
            #[trigger] yt[k],
            #[trigger] yt[l],
        ) by {
            assert(yt[k] == y[k + 1] && yt[l] == y[l + 1]);
        }
        assert forall|k: int| 0 <= k < xt.len() implies (#[trigger] xt[k]).wf() by {
            assert(xt[k] == x[k + 1]);
        }
        assert forall|k: int| 0 <= k < yt.len() implies (#[trigger] yt[k]).wf() by {
            assert(yt[k] == y[k + 1]);
        }
        assert forall|f: Frac| xt.contains(f) <==> yt.contains(f) by {
            if xt.contains(f) {
                let k = choose|k: int| 0 <= k < xt.len() && #[trigger] xt[k] == f;
                assert(x[k + 1] == f);
                assert(canonical_lt(x[0], f));
                lemma_canonical_lt_strict(x[0], f, f);
                assert(f != x[0]);
                assert(x.contains(f));
                assert(y.contains(f));
                let l = choose|l: int| 0 <= l < y.len() && #[trigger] y[l] == f;
                assert(l > 0);
                assert(yt[l - 1] == f);
            }
            if yt.contains(f) {
                let k = choose|k: int| 0 <= k < yt.len() && #[trigger] yt[k] == f;
                assert(y[k + 1] == f);
                assert(canonical_lt(y[0], f));
                lemma_canonical_lt_strict(y[0], f, f);
                assert(f != y[0]);
                assert(y.contains(f));
                assert(x.contains(f));
                let l = choose|l: int| 0 <= l < x.len() && #[trigger] x[l] == f;
                assert(l > 0);
                assert(xt[l - 1] == f);
            }
        }
        lemma_strict_sorted_unique_fr(xt, yt);
        assert forall|k: int| 0 <= k < x.len() implies x[k] == y[k] by {
            if k > 0 {
                assert(xt[k - 1] == yt[k - 1]);
            }
        }
    }
}

proof fn lemma_strict_sorted_unique_tri(x: Seq<Tri>, y: Seq<Tri>)
    requires
        forall|k: int, l: int| 0 <= k < l < x.len() ==> tri_lt(#[trigger] x[k], #[trigger] x[l]),
        forall|k: int, l: int| 0 <= k < l < y.len() ==> tri_lt(#[trigger] y[k], #[trigger] y[l]),
        forall|t: Tri| x.contains(t) <==> y.contains(t),
    ensures
        x =~= y,
    decreases x.len(),
{
    if x.len() == 0 {
        if y.len() > 0 {
            assert(y.contains(y[0]));
            assert(x.contains(y[0]));
            assert(false);
        }
    } else {
        assert(x.contains(x[0]));
        assert(y.contains(x[0]));
        if y.len() == 0 {
            assert(false);
        }
        let j = choose|j: int| 0 <= j < y.len() && #[trigger] y[j] == x[0];
        assert(y.contains(y[0]));
        assert(x.contains(y[0]));
        let i = choose|i: int| 0 <= i < x.len() && #[trigger] x[i] == y[0];
        if i > 0 && j > 0 {
            assert(tri_lt(x[0], x[i]));
            assert(tri_lt(y[0], y[j]));
            lemma_tri_lt_strict(x[0], y[0], x[0]);
            assert(false);
        }
        assert(x[0] == y[0]);
        let xt = x.drop_first();
        let yt = y.drop_first();
        assert forall|k: int, l: int| 0 <= k < l < xt.len() implies tri_lt(
            #[trigger] xt[k],
            #[trigger] xt[l],
        ) by {
            assert(xt[k] == x[k + 1] && xt[l] == x[l + 1]);
        }
        assert forall|k: int, l: int| 0 <= k < l < yt.len() implies tri_lt(
            #[trigger] yt[k],
            #[trigger] yt[l],
        ) by {
            assert(yt[k] == y[k + 1] && yt[l] == y[l + 1]);
        }
        assert forall|t: Tri| xt.contains(t) <==> yt.contains(t) by {
            if xt.contains(t) {
                let k = choose|k: int| 0 <= k < xt.len() && #[trigger] xt[k] == t;
                assert(x[k + 1] == t);
                assert(tri_lt(x[0], t));
                lemma_tri_lt_strict(x[0], t, t);
                assert(t != x[0]);
                assert(x.contains(t));
                assert(y.contains(t));
                let l = choose|l: int| 0 <= l < y.len() && #[trigger] y[l] == t;
                assert(l > 0);
                assert(yt[l - 1] == t);
            }
            if yt.contains(t) {
                let k = choose|k: int| 0 <= k < yt.len() && #[trigger] yt[k] == t;
                assert(y[k + 1] == t);
                assert(tri_lt(y[0], t));
                lemma_tri_lt_strict(y[0], t, t);
                assert(t != y[0]);
                assert(y.contains(t));
                assert(x.contains(t));
                let l = choose|l: int| 0 <= l < x.len() && #[trigger] x[l] == t;
                assert(l > 0);
                assert(xt[l - 1] == t);
            }
        }
        lemma_strict_sorted_unique_tri(xt, yt);
        assert forall|k: int| 0 <= k < x.len() implies x[k] == y[k] by {
            if k > 0 {
                assert(xt[k - 1] == yt[k - 1]);
            }
        }
    }
}

/// A fraction already in lowest terms with a positive denominator reduces
/// to itself.
pub proof fn lemma_reduce_identity(n: int, d: int)
    requires
        1 <= d,
        crate::qe::coprime(spec_abs(n), d),
        -0x7fff_ffff <= n <= 0x7fff_ffff,
        d <= 0x7fff_ffff,
    ensures
        spec_reduce(n, d) == (Frac { num: n as i32, den: d as i32 }),
{
    lemma_gcd_props(spec_abs(n), d);
    let g = spec_gcd(spec_abs(n), d);
    if g >= 2 {
        assert(divides(g, spec_abs(n)) && divides(g, d));
        assert(false);
    }
    assert(g == 1);
    vstd::arithmetic::div_mod::lemma_div_basics(n);
    vstd::arithmetic::div_mod::lemma_div_basics(d);
}

/// The first occurrence of `c` in a decomposition whose prefix avoids it.
proof fn lemma_first_at_concat(pre: Seq<char>, c: char, post: Seq<char>)
    requires
        forall|k: int| 0 <= k < pre.len() ==> pre[k] != c,
    ensures
        first_at(pre + seq![c] + post, c) == Some(pre.len() as int),
{
    let s = pre + seq![c] + post;
    lemma_first_at(s, c);
    match first_at(s, c) {
        None => {
            assert(s[pre.len() as int] == c);
            assert(false);
        },
        Some(i) => {
            assert(s[i] == c);
            if i < pre.len() {
                assert(s[i] == pre[i]);
                assert(false);
            }
            if i > pre.len() {
                assert(s[pre.len() as int] == c);
                assert(false);
            }
        },
    }
}

/// Parsing the decimal rendering of a signed 32-bit value yields it again.
proof fn lemma_parse_i32_roundtrip(v: int)
    requires
        -0x7fff_ffff <= v <= 0x7fff_ffff,
    ensures
        crate::strnum::spec_parse_i32(crate::strnum::dec_str_i32(v)) == Some(v as i32),
{
    if v < 0 {
        let s = crate::strnum::dec_str_i32(v);
        crate::strnum::lemma_dec_str_digits(-v);
        assert(s[0] == '-');
        assert(s.drop_first() =~= crate::strnum::dec_str(-v));
        crate::strnum::lemma_dec_roundtrip(-v);
    } else {
        let s = crate::strnum::dec_str_i32(v);
        crate::strnum::lemma_dec_str_digits(v);
        assert(s == crate::strnum::dec_str(v));
        assert(crate::strnum::dec_val(s[0]) is Some);
        assert(s[0] != '-' && s[0] != '+');
        crate::strnum::lemma_dec_roundtrip(v);
    }
}

/// Round trip: parsing the canonical string form of a universe rational
/// yields an equal element.
pub proof fn lemma_frac_string_roundtrip(f: Frac)
    requires
        f.wf(),
        f.reduced(),
        f.den <= 0x7fff_ffff,
    ensures
        spec_parse_frac(crate::exec::spec_frac_str(f)) == Some(f),
{
    let s = crate::exec::spec_frac_str(f);
    let left = crate::strnum::dec_str_i32(f.num as int);
    let right = crate::strnum::dec_str_i32(f.den as int);
    crate::strnum::lemma_dec_str_digits(spec_abs(f.num as int));
    crate::strnum::lemma_dec_str_digits(f.den as int);
    // neither side holds whitespace or a slash
    assert forall|k: int| 0 <= k < left.len() implies left[k] != '/' && !crate::strnum::is_ws(
        #[trigger] left[k],
    ) by {
        if f.num < 0 {
            if k == 0 {
                assert(left[k] == '-');
            } else {
                assert(left[k] == crate::strnum::dec_str(-(f.num as int))[k - 1]);
                assert(crate::strnum::dec_val(left[k]) is Some);
            }
        } else {
            assert(crate::strnum::dec_val(left[k]) is Some);
        }
    }
    assert forall|k: int| 0 <= k < right.len() implies right[k] != '/' && !crate::strnum::is_ws(
        #[trigger] right[k],
    ) by {
        assert(crate::strnum::dec_val(right[k]) is Some);
    }
    assert(left.len() >= 1 && right.len() >= 1);
    assert(s =~= left + seq!['/'] + right);
    assert(s[0] == left[0]);
    assert(s[s.len() - 1] == right[right.len() - 1]);
    crate::strnum::lemma_trim_of_no_ws(s);
    lemma_first_at_concat(left, '/', right);
    assert(s.take(left.len() as int) =~= left);
    assert(s.subrange(left.len() as int + 1, s.len() as int) =~= right);
    lemma_first_at(right, '/');
    if first_at(right, '/') is Some {
        let k = first_at(right, '/')->Some_0;
        assert(right[k] == '/');
        assert(false);
    }
    lemma_parse_i32_roundtrip(f.num as int);
    lemma_parse_i32_roundtrip(f.den as int);
    lemma_reduce_identity(f.num as int, f.den as int);
}

/// Round trip: parsing the canonical `0xHHHH` form of an arity-4 Boolean
/// function yields an equal element.
pub proof fn lemma_boolfun_string_roundtrip(f: BoolFun)
    requires
        f.n == 4,
        f.bits <= 0xffff,
    ensures
        crate::boolfun::spec_parse_elem(crate::exec::spec_bf_str(f)) == Some(f),
{
    let s = crate::exec::spec_bf_str(f);
    let v = f.bits;
    assert((v & 0xffff) == v) by (bit_vector)
        requires
            v <= 0xffff,
    ;
    let h = crate::exec::hex4_upper(v as int);
    assert forall|k: int| 0 <= k < h.len() implies crate::strnum::hex_val(#[trigger] h[k]) == Some(
        hex4_digit_at(v as int, k),
    ) && !crate::strnum::is_ws(h[k]) && h[k] != '+' by {
        lemma_hexu_val(hex4_digit_at(v as int, k));
        assert(h[k] == crate::exec::hexu_digit(hex4_digit_at(v as int, k)));
    }
    assert(s =~= seq!['0', 'x'] + h);
    assert(s[0] == '0' && s[1] == 'x');
    assert(s.len() == 6);
    assert(s[s.len() - 1] == h[3]);
    crate::strnum::lemma_trim_of_no_ws(s);
    let t = crate::strnum::trim_of(s);
    assert(t == s);
    assert(t.subrange(2, t.len() as int) =~= h);
    crate::strnum::lemma_trim_of_no_ws(h);
    // the digit string reads back as the packed value
    assert(crate::strnum::digits_val(h, 16) == Some(
        ((hex4_digit_at(v as int, 0) * 16 + hex4_digit_at(v as int, 1)) * 16 + hex4_digit_at(
            v as int,
            2,
        )) * 16 + hex4_digit_at(v as int, 3),
    )) by {
        assert(h.drop_last() =~= crate::exec::hex4_upper(v as int).take(3));
        assert(h.take(3).drop_last() =~= h.take(2));
        assert(h.take(2).drop_last() =~= h.take(1));
        assert(h.take(1).drop_last() =~= h.take(0));
        assert(crate::strnum::digits_val(h.take(1), 16) == Some(hex4_digit_at(v as int, 0)));
        assert(crate::strnum::digits_val(h.take(2), 16) == Some(
            hex4_digit_at(v as int, 0) * 16 + hex4_digit_at(v as int, 1),
        ));
        assert(h.take(3)[2] == h[2]);
        assert(h.take(2)[1] == h[1]);
        assert(h.take(1)[0] == h[0]);
        assert(crate::strnum::digits_val(h.take(3), 16) == Some(
            (hex4_digit_at(v as int, 0) * 16 + hex4_digit_at(v as int, 1)) * 16 + hex4_digit_at(
                v as int,
                2,
            ),
        ));
        assert(h =~= h.take(4));
        assert(h.take(4).drop_last() =~= h.take(3));
        assert(h.take(4)[3] == h[3]);
    }
    let w = v;
    assert(((((w / 0x1000 % 16) * 16 + (w / 0x100 % 16)) * 16 + (w / 0x10 % 16)) * 16 + (w % 16))
        == w) by (bit_vector)
        requires
            w <= 0xffff,
    ;
    assert((v & 0xffff) == v) by (bit_vector)
        requires
            v <= 0xffff,
    ;
}

/// The nibble rendered at position `k` of the four hex digits.
pub open spec fn hex4_digit_at(v: int, k: int) -> int {
    if k == 0 {
        v / 0x1000 % 16
    } else if k == 1 {
        v / 0x100 % 16
    } else if k == 2 {
        v / 0x10 % 16
    } else {
        v % 16
    }
}

proof fn lemma_hexu_val(x: int)
    requires
        0 <= x < 16,
    ensures
        crate::strnum::hex_val(crate::exec::hexu_digit(x)) == Some(x),
{
}

/// Setting a bit the mask does not yet hold refines the match exactly by
/// that bit.
pub proof fn lemma_set_bit_fresh(c: Constraint, i: u8, b: u8, sig: u8)
    requires
        i < 8,
        c.mask & (1u8 << i) == 0,
    ensures
        spec_matches(crate::semtrace::spec_set_bit(c, i, b), sig) == (spec_matches(c, sig) && (sig
            & (1u8 << i) == (if b == 1 {
            1u8 << i
        } else {
            0u8
        }))),
{
    let m = c.mask;
    let v = c.value;
    if b == 1 {
        assert(m & (1u8 << i) == 0 ==> ((sig & (m | (1u8 << i)) == (v | (1u8 << i)) & (m | (1u8
            << i))) <==> (sig & m == v & m && sig & (1u8 << i) == 1u8 << i))) by (bit_vector)
            requires
                i < 8,
        ;
    } else {
        assert(m & (1u8 << i) == 0 ==> ((sig & (m | (1u8 << i)) == (v & !(1u8 << i)) & (m | (1u8
            << i))) <==> (sig & m == v & m && sig & (1u8 << i) == 0))) by (bit_vector)
            requires
                i < 8,
        ;
    }
}

/// Constraints that agree on every universe element filter it identically.
pub proof fn lemma_filter_pointwise_eq(u: Seq<Frac>, c1: Constraint, c2: Constraint)
    requires
        forall|k: int|
            0 <= k < u.len() ==> (spec_matches(c1, spec_sig7(#[trigger] u[k])) == spec_matches(
                c2,
                spec_sig7(u[k]),
            )),
    ensures
        spec_filter_qe(u, c1) == spec_filter_qe(u, c2),
    decreases u.len(),
{
    reveal(Seq::filter);
    if u.len() > 0 {
        let v = u.drop_last();
        assert forall|k: int|
            0 <= k < v.len() implies (spec_matches(c1, spec_sig7(#[trigger] v[k]))
            == spec_matches(c2, spec_sig7(v[k]))) by {
            assert(v[k] == u[k]);
        }
        lemma_filter_pointwise_eq(v, c1, c2);
        assert(u[u.len() - 1] == u.last());
    }
}

/// A conjunction can only shorten a filter.
proof fn lemma_filter_conj_le(u: Seq<Frac>, c1: Constraint, c2: Constraint)
    requires
        forall|k: int|
            0 <= k < u.len() ==> (spec_matches(c2, spec_sig7(#[trigger] u[k])) ==> spec_matches(
                c1,
                spec_sig7(u[k]),
            )),
    ensures
        spec_filter_qe(u, c2).len() <= spec_filter_qe(u, c1).len(),
    decreases u.len(),
{
    reveal(Seq::filter);
    if u.len() > 0 {
        let v = u.drop_last();
        assert forall|k: int|
            0 <= k < v.len() implies (spec_matches(c2, spec_sig7(#[trigger] v[k]))
            ==> spec_matches(c1, spec_sig7(v[k]))) by {
            assert(v[k] == u[k]);
        }
        lemma_filter_conj_le(v, c1, c2);
        assert(u[u.len() - 1] == u.last());
    }
}

/// A conjunction that filters to the very same set was already implied on
/// every universe element.
pub proof fn lemma_filter_conj_eq_pointwise(u: Seq<Frac>, c1: Constraint, c2: Constraint)
    requires
        forall|k: int|
            0 <= k < u.len() ==> (spec_matches(c2, spec_sig7(#[trigger] u[k])) ==> spec_matches(
                c1,
                spec_sig7(u[k]),
            )),
        spec_filter_qe(u, c1) == spec_filter_qe(u, c2),
    ensures
        forall|k: int|
            0 <= k < u.len() ==> (spec_matches(c1, spec_sig7(#[trigger] u[k])) == spec_matches(
                c2,
                spec_sig7(u[k]),
            )),
    decreases u.len(),
{
    reveal(Seq::filter);
    if u.len() > 0 {
        let v = u.drop_last();
        let last = u.last();
        assert forall|k: int|
            0 <= k < v.len() implies (spec_matches(c2, spec_sig7(#[trigger] v[k]))
            ==> spec_matches(c1, spec_sig7(v[k]))) by {
            assert(v[k] == u[k]);
        }
        assert(u[u.len() - 1] == last);
        let s1 = spec_filter_qe(v, c1);
        let s2 = spec_filter_qe(v, c2);
        lemma_filter_conj_le(v, c1, c2);
        if spec_matches(c1, spec_sig7(last)) && !spec_matches(c2, spec_sig7(last)) {
            assert(spec_filter_qe(u, c1) == s1.push(last));
            assert(spec_filter_qe(u, c2) == s2);
            assert(s2.len() == s1.len() + 1);
            assert(false);
        }
        if !spec_matches(c1, spec_sig7(last)) {
            assert(spec_filter_qe(u, c1) == s1);
            assert(spec_filter_qe(u, c2) == s2);
        } else {
            assert(spec_filter_qe(u, c1) == s1.push(last));
            assert(spec_filter_qe(u, c2) == s2.push(last));
            assert(s1 =~= spec_filter_qe(u, c1).drop_last());
            assert(s2 =~= spec_filter_qe(u, c2).drop_last());
        }
        lemma_filter_conj_eq_pointwise(v, c1, c2);
        assert forall|k: int|
            0 <= k < u.len() implies (spec_matches(c1, spec_sig7(#[trigger] u[k]))
            == spec_matches(c2, spec_sig7(u[k]))) by {
            if k < u.len() - 1 {
                assert(v[k] == u[k]);
            }
        }
    }
}

/// The elision induction: a full constraint and the kept constraint that
/// filter the universe alike continue to do so through the remaining
/// settings, as long as each remaining bit is fresh.
proof fn lemma_elide_preserves_from(
    u: Seq<Frac>,
    ps: Seq<(u8, u8)>,
    j: int,
    cf: Constraint,
    ck: Constraint,
)
    requires
        0 <= j <= ps.len(),
        forall|k: int| 0 <= k < u.len() ==> (#[trigger] u[k]).wf(),
        forall|k: int| 0 <= k < ps.len() ==> (#[trigger] ps[k]).0 < 8,
        forall|l: int, l2: int|
            j <= l < l2 < ps.len() ==> (#[trigger] ps[l]).0 != (#[trigger] ps[l2]).0,
        forall|l: int| j <= l < ps.len() ==> cf.mask & (1u8 << (#[trigger] ps[l]).0) == 0,
        forall|l: int| j <= l < ps.len() ==> ck.mask & (1u8 << (#[trigger] ps[l]).0) == 0,
        forall|k: int|
            0 <= k < u.len() ==> (spec_matches(cf, spec_sig7(#[trigger] u[k])) == spec_matches(
                ck,
                spec_sig7(u[k]),
            )),
    ensures
        spec_filter_qe(u, crate::exec::cst_ext(ck, crate::exec::elide_from(u, ps, j, cf)))
            == spec_filter_qe(u, crate::exec::cst_ext(cf, ps.skip(j))),
    decreases ps.len() - j,
{
    if j >= ps.len() {
        assert(ps.skip(j) =~= Seq::<(u8, u8)>::empty());
        assert(crate::exec::elide_from(u, ps, j, cf) =~= Seq::<(u8, u8)>::empty());
        assert(crate::exec::cst_ext(ck, Seq::<(u8, u8)>::empty()) == ck);
        assert(crate::exec::cst_ext(cf, Seq::<(u8, u8)>::empty()) == cf);
        lemma_filter_pointwise_eq(u, ck, cf);
    } else {
        let x = ps[j];
        let i = x.0;
        let b = x.1;
        let cf2 = crate::semtrace::spec_set_bit(cf, i, b);
        assert(ps.skip(j) =~= seq![x] + ps.skip(j + 1));
        crate::exec::lemma_cst_ext_cons(cf, x, ps.skip(j + 1));
        assert(crate::exec::cst_ext(cf, ps.skip(j)) == crate::exec::cst_ext(
            cf2,
            ps.skip(j + 1),
        ));
        // the fresh-bit identity at this step, on every universe element
        assert forall|k: int|
            0 <= k < u.len() implies (spec_matches(cf2, spec_sig7(#[trigger] u[k])) == (
        spec_matches(cf, spec_sig7(u[k])) && (spec_sig7(u[k]) & (1u8 << i) == (if b == 1 {
            1u8 << i
        } else {
            0u8
        })))) by {
            lemma_set_bit_fresh(cf, i, b, spec_sig7(u[k]));
        }
        // every later bit stays fresh in the extended full mask
        assert forall|l: int| j + 1 <= l < ps.len() implies cf2.mask & (1u8 << (
        #[trigger] ps[l]).0) == 0 by {
            crate::exec::lemma_or_bit_fresh(cf.mask, i, ps[l].0);
        }
        if spec_filter_qe(u, cf2) == spec_filter_qe(u, cf) {
            assert(crate::exec::elide_from(u, ps, j, cf) == crate::exec::elide_from(
                u,
                ps,
                j + 1,
                cf2,
            ));
            lemma_filter_conj_eq_pointwise(u, cf, cf2);
            lemma_elide_preserves_from(u, ps, j + 1, cf2, ck);
        } else {
            let ck2 = crate::semtrace::spec_set_bit(ck, i, b);
            assert forall|k: int|
                0 <= k < u.len() implies (spec_matches(ck2, spec_sig7(#[trigger] u[k])) == (
            spec_matches(ck, spec_sig7(u[k])) && (spec_sig7(u[k]) & (1u8 << i) == (if b == 1 {
                1u8 << i
            } else {
                0u8
            })))) by {
                lemma_set_bit_fresh(ck, i, b, spec_sig7(u[k]));
            }
            assert forall|l: int| j + 1 <= l < ps.len() implies ck2.mask & (1u8 << (
            #[trigger] ps[l]).0) == 0 by {
                crate::exec::lemma_or_bit_fresh(ck.mask, i, ps[l].0);
            }
            lemma_elide_preserves_from(u, ps, j + 1, cf2, ck2);
            let rest = crate::exec::elide_from(u, ps, j + 1, cf2);
            assert(crate::exec::elide_from(u, ps, j, cf) == seq![x] + rest);
            crate::exec::lemma_cst_ext_cons(ck, x, rest);
        }
    }
}

/// Redundancy elision preserves the final candidate set: the elided basis
/// filters the universe to the very set the full list reaches. Stated for
/// lists that set each bit at most once; re-setting a bit that an earlier
/// elision decision depended on can genuinely change the final set, so those
/// lists are left out.
pub proof fn lemma_elision_preserves_filter(u: Seq<Frac>, ps: Seq<(u8, u8)>)
    requires
        forall|k: int| 0 <= k < u.len() ==> (#[trigger] u[k]).wf(),
        forall|k: int| 0 <= k < ps.len() ==> (#[trigger] ps[k]).0 < 8,
        forall|l: int, l2: int|
            0 <= l < l2 < ps.len() ==> (#[trigger] ps[l]).0 != (#[trigger] ps[l2]).0,
    ensures
        spec_filter_qe(u, crate::exec::cst_of(crate::exec::spec_elide(u, ps)))
            == spec_filter_qe(u, crate::exec::cst_of(ps)),
{
    let c0 = Constraint { mask: 0, value: 0 };
    assert forall|l: int| 0 <= l < ps.len() implies c0.mask & (1u8 << (#[trigger] ps[l]).0)
        == 0 by {
        let jb = ps[l].0;
        assert(jb < 8 ==> 0u8 & (1u8 << jb) == 0) by (bit_vector);
    }
    lemma_elide_preserves_from(u, ps, 0, c0, c0);
    assert(ps.skip(0) =~= ps);
}

} // verus!
