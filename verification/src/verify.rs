//! The replay verifier: reconstructs every state from the recorded ops
//! alone, recomputes every committed field, and compares.

use vstd::prelude::*;
use crate::exec::{
    OpV, ParsedOp, ExecState, Model, RecM, StepRec, spec_step, spec_record, spec_op_name,
    spec_args_str, json_safe,
};
use crate::strnum::{dec_val, parse_u64_digits, dec_str};
use crate::qe::first_at;

verus! {

/// The literal `lit` occurs in `s` at position `at`.
pub open spec fn lit_at(s: Seq<char>, at: int, lit: Seq<char>) -> bool {
    0 <= at && at + lit.len() <= s.len() && s.subrange(at, at + lit.len()) == lit
}

/// The end of the run of decimal digits starting at `at`.
pub open spec fn digit_end(s: Seq<char>, at: int) -> int
    decreases s.len() - at,
{
    if 0 <= at < s.len() && dec_val(s[at]) is Some {
        digit_end(s, at + 1)
    } else {
        at
    }
}

/// Reads an unsigned decimal number at `at`: its value and the position
/// after its digits.
pub open spec fn read_u64_at(s: Seq<char>, at: int) -> Option<(u64, int)> {
    let e = digit_end(s, at);
    if e == at {
        None
    } else {
        match parse_u64_digits(s.subrange(at, e), 10) {
            Some(v) => Some((v, e)),
            None => None,
        }
    }
}

/// Reads a quoted-string body starting at `at` (just after the opening
/// quote): the content up to the next quote, and the position after the
/// closing quote.
pub open spec fn read_str_at(s: Seq<char>, at: int) -> Option<(Seq<char>, int)> {
    if 0 <= at <= s.len() {
        match first_at(s.skip(at), '"') {
            None => None,
            Some(j) => Some((s.subrange(at, at + j), at + j + 1)),
        }
    } else {
        None
    }
}

/// Checks a literal at a position.
fn expect_lit(s: &str, at: usize, lit: &str) -> (r: Option<usize>)
    requires
        at <= s@.len(),
    ensures
        match r {
            Some(e) => lit_at(s@, at as int, lit@) && e == at + lit@.len() && e <= s@.len(),
            None => !lit_at(s@, at as int, lit@),
        },
{
    let n = s.unicode_len();
    let m = lit.unicode_len();
    if n - at < m {
        return None;
    }
    let mut i: usize = 0;
    while i < m
        invariant
            i <= m,
            at + m <= n,
            n == s@.len(),
            m == lit@.len(),
            forall|k: int| 0 <= k < i ==> s@[at + k] == lit@[k],
        decreases m - i,
    {
        if s.get_char(at + i) != lit.get_char(i) {
            proof {
                assert(s@.subrange(at as int, at + m as int)[i as int] != lit@[i as int]);
            }
            return None;
        }
        i = i + 1;
    }
    proof {
        assert(s@.subrange(at as int, at + m as int) =~= lit@);
    }
    Some(at + m)
}

/// Reads an unsigned decimal number at a position.
fn read_u64_exec(s: &str, at: usize) -> (r: Option<(u64, usize)>)
    requires
        at <= s@.len(),
    ensures
        match r {
            Some((v, e)) => read_u64_at(s@, at as int) == Some((v, e as int)) && at < e
                <= s@.len(),
            None => read_u64_at(s@, at as int) is None,
        },
{
    let n = s.unicode_len();
    let mut e: usize = at;
    while e < n && is_digit_at(s, e)
        invariant
            at <= e <= n,
            n == s@.len(),
            forall|k: int| at <= k < e ==> dec_val(#[trigger] s@[k]) is Some,
        decreases n - e,
    {
        e = e + 1;
    }
    proof {
        lemma_digit_end_is(s@, at as int, e as int);
    }
    if e == at {
        return None;
    }
    let v = crate::strnum::parse_digits_range(s, at, e, 10);
    match v {
        Some(v) => Some((v, e)),
        None => None,
    }
}

/// True when the character at `i` is a decimal digit.
fn is_digit_at(s: &str, i: usize) -> (r: bool)
    requires
        i < s@.len(),
    ensures
        r == (dec_val(s@[i as int]) is Some),
{
    let c = s.get_char(i);
    c >= '0' && c <= '9'
}

/// `digit_end` lands exactly where the digits stop.
proof fn lemma_digit_end_is(s: Seq<char>, at: int, e: int)
    requires
        0 <= at <= e <= s.len(),
        forall|k: int| at <= k < e ==> dec_val(#[trigger] s[k]) is Some,
        e < s.len() ==> dec_val(s[e]) is None,
    ensures
        digit_end(s, at) == e,
    decreases e - at,
{
    if at < e {
        lemma_digit_end_is(s, at + 1, e);
    }
}

/// Reads a quoted-string body at a position.
fn read_str_exec<'a>(s: &'a str, at: usize) -> (r: Option<(&'a str, usize)>)
    requires
        at <= s@.len(),
    ensures
        match r {
            Some((c, e)) => read_str_at(s@, at as int) == Some((c@, e as int)) && at < e
                <= s@.len(),
            None => read_str_at(s@, at as int) is None,
        },
{
    let n = s.unicode_len();
    let mut j: usize = at;
    while j < n && !is_quote_at(s, j)
        invariant
            at <= j <= n,
            n == s@.len(),
            forall|k: int| at <= k < j ==> s@[k] != '"',
        decreases n - j,
    {
        j = j + 1;
    }
    proof {
        crate::qe::lemma_first_at(s@.skip(at as int), '"');
        assert forall|k: int| 0 <= k < s@.skip(at as int).len() implies s@.skip(at as int)[k]
            == s@[at + k] by {}
        if j < n {
            match first_at(s@.skip(at as int), '"') {
                None => {
                    assert(s@.skip(at as int)[j - at] == '"');
                    assert(false);
                },
                Some(i) => {
                    assert(s@.skip(at as int)[i] == '"');
                    if i < j - at {
                        assert(s@[at + i] == '"');
                        assert(false);
                    }
                    if i > j - at {
                        assert(s@.skip(at as int)[j - at] == s@[j as int]);
                        assert(false);
                    }
                },
            }
        } else {
            if first_at(s@.skip(at as int), '"') is Some {
                let i = first_at(s@.skip(at as int), '"')->Some_0;
                assert(s@.skip(at as int)[i] == '"');
                assert(false);
            }
        }
    }
    if j >= n {
        return None;
    }
    let content = s.substring_char(at, j);
    proof {
        assert(content@ =~= s@.subrange(at as int, at + (j - at) as int));
    }
    Some((content, j + 1))
}

/// True when the character at `i` is a double quote.
fn is_quote_at(s: &str, i: usize) -> (r: bool)
    requires
        i < s@.len(),
    ensures
        r == (s@[i as int] == '"'),
{
    s.get_char(i) == '"'
}

/// A literal occurs where a decomposition places it.
proof fn lemma_lit_concat(pre: Seq<char>, lit: Seq<char>, post: Seq<char>)
    ensures
        lit_at(pre + lit + post, pre.len() as int, lit),
{
    let s = pre + lit + post;
    assert(s.subrange(pre.len() as int, pre.len() as int + lit.len() as int) =~= lit);
}

/// Reading a quoted string out of a decomposition yields the content.
proof fn lemma_read_str_concat(pre: Seq<char>, content: Seq<char>, post: Seq<char>)
    requires
        json_safe(content),
        post.len() > 0,
        post[0] == '"',
    ensures
        read_str_at(pre + content + post, pre.len() as int) == Some(
            (content, pre.len() as int + content.len() as int + 1),
        ),
{
    let s = pre + content + post;
    let at = pre.len() as int;
    let sk = s.skip(at);
    crate::qe::lemma_first_at(sk, '"');
    assert(sk =~= content + post);
    match first_at(sk, '"') {
        None => {
            assert(sk[content.len() as int] == '"');
            assert(false);
        },
        Some(i) => {
            assert(sk[i] == '"');
            if i < content.len() {
                assert(sk[i] == content[i]);
                assert(' ' <= content[i] <= '~' && content[i] != '"');
                assert(false);
            }
            if i > content.len() {
                assert(sk[content.len() as int] == '"');
                assert(false);
            }
            assert(s.subrange(at, at + i) =~= content);
        },
    }
}

/// Reading a decimal out of a decomposition yields the value.
proof fn lemma_read_u64_concat(pre: Seq<char>, v: u64, post: Seq<char>)
    requires
        post.len() > 0,
        dec_val(post[0]) is None,
    ensures
        read_u64_at(pre + dec_str(v as int) + post, pre.len() as int) == Some(
            (v, pre.len() as int + dec_str(v as int).len() as int),
        ),
{
    let d = dec_str(v as int);
    let s = pre + d + post;
    let at = pre.len() as int;
    let e = at + d.len();
    crate::strnum::lemma_dec_str_digits(v as int);
    assert forall|k: int| at <= k < e implies dec_val(#[trigger] s[k]) is Some by {
        assert(s[k] == d[k - at]);
    }
    assert(s[e] == post[0]);
    lemma_digit_end_is(s, at, e);
    assert(s.subrange(at, e) =~= d);
    crate::strnum::lemma_dec_roundtrip(v as int);
}

/// Re-parses a record's canonical arguments, by op name: the inverse of the
/// canonical rendering.
pub open spec fn spec_parse_args(opname: Seq<char>, args: Seq<char>) -> Option<OpV> {
    if opname == "SELECT_UNIVERSE"@ {
        if !lit_at(args, 0, "{\"universe\":\""@) {
            None
        } else {
            match read_str_at(args, "{\"universe\":\""@.len() as int) {
                None => None,
                Some((u, p)) => if !json_safe(u) || !lit_at(args, p, ",\"n\":"@) {
                    None
                } else {
                    match read_u64_at(args, p + ",\"n\":"@.len()) {
                        None => None,
                        Some((n, q)) => if n > 255 || !(lit_at(args, q, "}"@) && q + 1
                            == args.len()) {
                            None
                        } else {
                            Some(OpV::SelectUniverse { universe: u, n: n as u8 })
                        },
                    }
                },
            }
        }
    } else if opname == "FILTER_WEIGHT"@ {
        if !lit_at(args, 0, "{\"min\":"@) {
            None
        } else {
            match read_u64_at(args, "{\"min\":"@.len() as int) {
                None => None,
                Some((mn, p)) => if mn > 0xffff_ffff || !lit_at(args, p, ",\"max\":"@) {
                    None
                } else {
                    match read_u64_at(args, p + ",\"max\":"@.len()) {
                        None => None,
                        Some((mx, q)) => if mx > 0xffff_ffff || !(lit_at(args, q, "}"@) && q + 1
                            == args.len()) {
                            None
                        } else {
                            Some(OpV::FilterWeight { min: mn as u32, max: mx as u32 })
                        },
                    }
                },
            }
        }
    } else if opname == "TOPK"@ {
        if !lit_at(args, 0, "{\"target_elem\":\""@) {
            None
        } else {
            match read_str_at(args, "{\"target_elem\":\""@.len() as int) {
                None => None,
                Some((t, p)) => if !json_safe(t) || !lit_at(args, p, ",\"k\":"@) {
                    None
                } else {
                    match read_u64_at(args, p + ",\"k\":"@.len()) {
                        None => None,
                        Some((k, q)) => if !(lit_at(args, q, "}"@) && q + 1 == args.len()) {
                            None
                        } else {
                            Some(OpV::TopK { target_elem: t, k })
                        },
                    }
                },
            }
        }
    } else if opname == "START_ELEM"@ {
        if !lit_at(args, 0, "{\"elem\":\""@) {
            None
        } else {
            match read_str_at(args, "{\"elem\":\""@.len() as int) {
                None => None,
                Some((e, p)) => if !json_safe(e) || !(lit_at(args, p, "}"@) && p + 1
                    == args.len()) {
                    None
                } else {
                    Some(OpV::StartElem { elem: e })
                },
            }
        }
    } else if opname == "SET_BIT"@ {
        if !lit_at(args, 0, "{\"i\":"@) {
            None
        } else {
            match read_u64_at(args, "{\"i\":"@.len() as int) {
                None => None,
                Some((i, p)) => if i > 7 || !lit_at(args, p, ",\"b\":"@) {
                    None
                } else {
                    match read_u64_at(args, p + ",\"b\":"@.len()) {
                        None => None,
                        Some((b, q)) => if b > 255 || !(lit_at(args, q, "}"@) && q + 1
                            == args.len()) {
                            None
                        } else {
                            Some(OpV::SetBit { i: i as u8, b: b as u8 })
                        },
                    }
                },
            }
        }
    } else if opname == "WITNESS_NEAREST"@ {
        if !lit_at(args, 0, "{\"target_elem\":\""@) {
            None
        } else {
            match read_str_at(args, "{\"target_elem\":\""@.len() as int) {
                None => None,
                Some((t, p)) => if !json_safe(t) || !lit_at(args, p, ",\"metric\":\""@) {
                    None
                } else {
                    match read_str_at(args, p + ",\"metric\":\""@.len()) {
                        None => None,
                        Some((mt, q)) => if !json_safe(mt) || !(lit_at(args, q, "}"@) && q + 1
                            == args.len()) {
                            None
                        } else {
                            Some(OpV::WitnessNearest { target_elem: t, metric: mt })
                        },
                    }
                },
            }
        }
    } else if opname == "RETURN_SET"@ {
        if !lit_at(args, 0, "{\"max_items\":"@) {
            None
        } else {
            match read_u64_at(args, "{\"max_items\":"@.len() as int) {
                None => None,
                Some((mi, p)) => if !lit_at(args, p, ",\"include_witness\":"@) {
                    None
                } else {
                    let q = p + ",\"include_witness\":"@.len();
                    if lit_at(args, q, "true"@) && q + 4 + 1 == args.len() && lit_at(
                        args,
                        q + 4,
                        "}"@,
                    ) {
                        Some(OpV::ReturnSet { max_items: mi, include_witness: true })
                    } else if lit_at(args, q, "false"@) && q + 5 + 1 == args.len() && lit_at(
                        args,
                        q + 5,
                        "}"@,
                    ) {
                        Some(OpV::ReturnSet { max_items: mi, include_witness: false })
                    } else {
                        None
                    }
                },
            }
        }
    } else {
        None
    }
}

/// The seven op names are pairwise distinct.
proof fn lemma_op_names_distinct()
    ensures
        "FILTER_WEIGHT"@ != "SELECT_UNIVERSE"@,
        "TOPK"@ != "SELECT_UNIVERSE"@,
        "TOPK"@ != "FILTER_WEIGHT"@,
        "START_ELEM"@ != "SELECT_UNIVERSE"@,
        "START_ELEM"@ != "FILTER_WEIGHT"@,
        "START_ELEM"@ != "TOPK"@,
        "SET_BIT"@ != "SELECT_UNIVERSE"@,
        "SET_BIT"@ != "FILTER_WEIGHT"@,
        "SET_BIT"@ != "TOPK"@,
        "SET_BIT"@ != "START_ELEM"@,
        "WITNESS_NEAREST"@ != "SELECT_UNIVERSE"@,
        "WITNESS_NEAREST"@ != "FILTER_WEIGHT"@,
        "WITNESS_NEAREST"@ != "TOPK"@,
        "WITNESS_NEAREST"@ != "START_ELEM"@,
        "WITNESS_NEAREST"@ != "SET_BIT"@,
        "RETURN_SET"@ != "SELECT_UNIVERSE"@,
        "RETURN_SET"@ != "FILTER_WEIGHT"@,
        "RETURN_SET"@ != "TOPK"@,
        "RETURN_SET"@ != "START_ELEM"@,
        "RETURN_SET"@ != "SET_BIT"@,
        "RETURN_SET"@ != "WITNESS_NEAREST"@,
{
    reveal_strlit("SELECT_UNIVERSE");
    reveal_strlit("FILTER_WEIGHT");
    reveal_strlit("TOPK");
    reveal_strlit("START_ELEM");
    reveal_strlit("SET_BIT");
    reveal_strlit("WITNESS_NEAREST");
    reveal_strlit("RETURN_SET");
    assert(("SELECT_UNIVERSE"@).len() == 15);
    assert(("FILTER_WEIGHT"@).len() == 13);
    assert(("TOPK"@).len() == 4);
    assert(("START_ELEM"@).len() == 10);
    assert(("SET_BIT"@).len() == 7);
    assert(("WITNESS_NEAREST"@).len() == 15);
    assert(("RETURN_SET"@).len() == 10);
    assert(("WITNESS_NEAREST"@)[0] == 'W' && ("SELECT_UNIVERSE"@)[0] == 'S');
    assert(("RETURN_SET"@)[0] == 'R' && ("START_ELEM"@)[0] == 'S');
}

#[verifier::rlimit(100)]
#[verifier::spinoff_prover]
proof fn lemma_args_rt_selectuniverse(op: OpV)
    requires
        op.wf(),
        op matches OpV::SelectUniverse { .. },
    ensures
        spec_parse_args(spec_op_name(op), spec_args_str(op)) == Some(op),
{
    lemma_op_names_distinct();
    let args = spec_args_str(op);
    match op {
        OpV::SelectUniverse { universe, n } => {

            reveal_strlit("SELECT_UNIVERSE");
            reveal_strlit("FILTER_WEIGHT");
            reveal_strlit("TOPK");
            reveal_strlit("START_ELEM");
            reveal_strlit("SET_BIT");
            reveal_strlit("WITNESS_NEAREST");
            reveal_strlit("RETURN_SET");
            reveal_strlit("{\"universe\":\"");
            reveal_strlit("\",\"n\":");
            reveal_strlit(",\"n\":");
            reveal_strlit("}");
            let l1 = "{\"universe\":\""@;
            let l2 = "\",\"n\":"@;
            let l2t = ",\"n\":"@;
            let l3 = "}"@;
            let d = dec_str(n as int);
            assert(l2 =~= seq!['"'] + l2t);
            assert(args =~= l1 + universe + (l2 + d + l3));
            assert(args.subrange(0, l1.len() as int) =~= l1);
            lemma_read_str_concat(l1, universe, l2 + d + l3);
            let p = l1.len() + universe.len() + 1;
            assert(args =~= (l1 + universe + seq!['"']) + l2t + (d + l3));
            lemma_lit_concat(l1 + universe + seq!['"'], l2t, d + l3);
            let q0 = p + l2t.len();
            assert(args =~= (l1 + universe + seq!['"'] + l2t) + d + l3);
            crate::strnum::lemma_dec_str_digits(n as int);
            lemma_read_u64_concat(l1 + universe + seq!['"'] + l2t, n as u64, l3);
            let q = q0 + d.len();
            assert(args =~= (l1 + universe + seq!['"'] + l2t + d) + l3 + Seq::<char>::empty());
            lemma_lit_concat(l1 + universe + seq!['"'] + l2t + d, l3, Seq::<char>::empty());
            assert(q + 1 == args.len());
        },
        _ => {},
    }
}

#[verifier::rlimit(100)]
#[verifier::spinoff_prover]
proof fn lemma_args_rt_filterweight(op: OpV)
    requires
        op.wf(),
        op matches OpV::FilterWeight { .. },
    ensures
        spec_parse_args(spec_op_name(op), spec_args_str(op)) == Some(op),
{
    lemma_op_names_distinct();
    let args = spec_args_str(op);
    match op {
        OpV::FilterWeight { min, max } => {

            reveal_strlit("SELECT_UNIVERSE");
            reveal_strlit("FILTER_WEIGHT");
            reveal_strlit("{\"min\":");
            reveal_strlit(",\"max\":");
            reveal_strlit("}");
            let l1 = "{\"min\":"@;
            let l2 = ",\"max\":"@;
            let l3 = "}"@;
            let d1 = dec_str(min as int);
            let d2 = dec_str(max as int);
            assert(args =~= l1 + d1 + (l2 + d2 + l3));
            assert(args.subrange(0, l1.len() as int) =~= l1);
            lemma_read_u64_concat(l1, min as u64, l2 + d2 + l3);
            assert(args =~= (l1 + d1) + l2 + (d2 + l3));
            lemma_lit_concat(l1 + d1, l2, d2 + l3);
            assert(args =~= (l1 + d1 + l2) + d2 + l3);
            lemma_read_u64_concat(l1 + d1 + l2, max as u64, l3);
            assert(args =~= (l1 + d1 + l2 + d2) + l3 + Seq::<char>::empty());
            lemma_lit_concat(l1 + d1 + l2 + d2, l3, Seq::<char>::empty());
                },
        _ => {},
    }
}

#[verifier::rlimit(100)]
#[verifier::spinoff_prover]
proof fn lemma_args_rt_topk(op: OpV)
    requires
        op.wf(),
        op matches OpV::TopK { .. },
    ensures
        spec_parse_args(spec_op_name(op), spec_args_str(op)) == Some(op),
{
    lemma_op_names_distinct();
    let args = spec_args_str(op);
    match op {
        OpV::TopK { target_elem, k } => {

            reveal_strlit("SELECT_UNIVERSE");
            reveal_strlit("FILTER_WEIGHT");
            reveal_strlit("TOPK");
            reveal_strlit("{\"target_elem\":\"");
            reveal_strlit("\",\"k\":");
            reveal_strlit(",\"k\":");
            reveal_strlit("}");
            let l1 = "{\"target_elem\":\""@;
            let l2 = "\",\"k\":"@;
            let l2t = ",\"k\":"@;
            let l3 = "}"@;
            let d = dec_str(k as int);
            assert(l2 =~= seq!['"'] + l2t);
            assert(args =~= l1 + target_elem + (l2 + d + l3));
            assert(args.subrange(0, l1.len() as int) =~= l1);
            lemma_read_str_concat(l1, target_elem, l2 + d + l3);
            assert(args =~= (l1 + target_elem + seq!['"']) + l2t + (d + l3));
            lemma_lit_concat(l1 + target_elem + seq!['"'], l2t, d + l3);
            assert(args =~= (l1 + target_elem + seq!['"'] + l2t) + d + l3);
            lemma_read_u64_concat(l1 + target_elem + seq!['"'] + l2t, k, l3);
            assert(args =~= (l1 + target_elem + seq!['"'] + l2t + d) + l3 + Seq::<char>::empty());
            lemma_lit_concat(l1 + target_elem + seq!['"'] + l2t + d, l3, Seq::<char>::empty());
                },
        _ => {},
    }
}

#[verifier::rlimit(100)]
#[verifier::spinoff_prover]
proof fn lemma_args_rt_startelem(op: OpV)
    requires
        op.wf(),
        op matches OpV::StartElem { .. },
    ensures
        spec_parse_args(spec_op_name(op), spec_args_str(op)) == Some(op),
{
    lemma_op_names_distinct();
    let args = spec_args_str(op);
    match op {
        OpV::StartElem { elem } => {
            reveal_strlit("SELECT_UNIVERSE");
            reveal_strlit("FILTER_WEIGHT");
            reveal_strlit("TOPK");
            reveal_strlit("START_ELEM");
            reveal_strlit("{\"elem\":\"");
            reveal_strlit("\"}");
            reveal_strlit("}");
            let l1 = "{\"elem\":\""@;
            let l2 = "\"}"@;
            let l3 = "}"@;
            assert(l2 =~= seq!['"'] + l3);
            assert(args =~= l1 + elem + l2);
            assert(args.subrange(0, l1.len() as int) =~= l1);
            lemma_read_str_concat(l1, elem, l2);
            assert(args =~= (l1 + elem + seq!['"']) + l3 + Seq::<char>::empty());
            lemma_lit_concat(l1 + elem + seq!['"'], l3, Seq::<char>::empty());
        },
        _ => {},
    }
}

#[verifier::rlimit(100)]
#[verifier::spinoff_prover]
proof fn lemma_args_rt_setbit(op: OpV)
    requires
        op.wf(),
        op matches OpV::SetBit { .. },
    ensures
        spec_parse_args(spec_op_name(op), spec_args_str(op)) == Some(op),
{
    lemma_op_names_distinct();
    let args = spec_args_str(op);
    match op {
        OpV::SetBit { i, b } => {

            reveal_strlit("SELECT_UNIVERSE");
            reveal_strlit("FILTER_WEIGHT");
            reveal_strlit("TOPK");
            reveal_strlit("START_ELEM");
            reveal_strlit("SET_BIT");
            reveal_strlit("{\"i\":");
            reveal_strlit(",\"b\":");
            reveal_strlit("}");
            let l1 = "{\"i\":"@;
            let l2 = ",\"b\":"@;
            let l3 = "}"@;
            let d1 = dec_str(i as int);
            let d2 = dec_str(b as int);
            assert(args =~= l1 + d1 + (l2 + d2 + l3));
            assert(args.subrange(0, l1.len() as int) =~= l1);
            lemma_read_u64_concat(l1, i as u64, l2 + d2 + l3);
            assert(args =~= (l1 + d1) + l2 + (d2 + l3));
            lemma_lit_concat(l1 + d1, l2, d2 + l3);
            assert(args =~= (l1 + d1 + l2) + d2 + l3);
            lemma_read_u64_concat(l1 + d1 + l2, b as u64, l3);
            assert(args =~= (l1 + d1 + l2 + d2) + l3 + Seq::<char>::empty());
            lemma_lit_concat(l1 + d1 + l2 + d2, l3, Seq::<char>::empty());
                },
        _ => {},
    }
}

#[verifier::rlimit(100)]
#[verifier::spinoff_prover]
proof fn lemma_args_rt_witnessnearest(op: OpV)
    requires
        op.wf(),
        op matches OpV::WitnessNearest { .. },
    ensures
        spec_parse_args(spec_op_name(op), spec_args_str(op)) == Some(op),
{
    lemma_op_names_distinct();
    let args = spec_args_str(op);
    match op {
        OpV::WitnessNearest { target_elem, metric } => {
            reveal_strlit("SELECT_UNIVERSE");
            reveal_strlit("FILTER_WEIGHT");
            reveal_strlit("TOPK");
            reveal_strlit("START_ELEM");
            reveal_strlit("SET_BIT");
            reveal_strlit("WITNESS_NEAREST");
            reveal_strlit("{\"target_elem\":\"");
            reveal_strlit("\",\"metric\":\"");
            reveal_strlit(",\"metric\":\"");
            reveal_strlit("\"}");
            reveal_strlit("}");
            let l1 = "{\"target_elem\":\""@;
            let l2 = "\",\"metric\":\""@;
            let l2t = ",\"metric\":\""@;
            let l3 = "\"}"@;
            let l3t = "}"@;
            assert(l2 =~= seq!['"'] + l2t);
            assert(l3 =~= seq!['"'] + l3t);
            assert(args =~= l1 + target_elem + (l2 + metric + l3));
            assert(args.subrange(0, l1.len() as int) =~= l1);
            lemma_read_str_concat(l1, target_elem, l2 + metric + l3);
            assert(args =~= (l1 + target_elem + seq!['"']) + l2t + (metric + l3));
            lemma_lit_concat(l1 + target_elem + seq!['"'], l2t, metric + l3);
            let pre2 = l1 + target_elem + seq!['"'] + l2t;
            assert(args =~= pre2 + metric + l3);
            lemma_read_str_concat(pre2, metric, l3);
            assert(args =~= (pre2 + metric + seq!['"']) + l3t + Seq::<char>::empty());
            lemma_lit_concat(pre2 + metric + seq!['"'], l3t, Seq::<char>::empty());
        },
        _ => {},
    }
}

#[verifier::rlimit(100)]
#[verifier::spinoff_prover]
proof fn lemma_args_rt_returnset(op: OpV)
    requires
        op.wf(),
        op matches OpV::ReturnSet { .. },
    ensures
        spec_parse_args(spec_op_name(op), spec_args_str(op)) == Some(op),
{
    lemma_op_names_distinct();
    let args = spec_args_str(op);
    match op {
        OpV::ReturnSet { max_items, include_witness } => {

            reveal_strlit("SELECT_UNIVERSE");
            reveal_strlit("FILTER_WEIGHT");
            reveal_strlit("TOPK");
            reveal_strlit("START_ELEM");
            reveal_strlit("SET_BIT");
            reveal_strlit("WITNESS_NEAREST");
            reveal_strlit("RETURN_SET");
            reveal_strlit("{\"max_items\":");
            reveal_strlit(",\"include_witness\":");
            reveal_strlit("true");
            reveal_strlit("false");
            reveal_strlit("}");
            let l1 = "{\"max_items\":"@;
            let l2 = ",\"include_witness\":"@;
            let lb = if include_witness {
                "true"@
            } else {
                "false"@
            };
            let l3 = "}"@;
            let d = dec_str(max_items as int);
            assert(args =~= l1 + d + (l2 + lb + l3));
            assert(args.subrange(0, l1.len() as int) =~= l1);
            lemma_read_u64_concat(l1, max_items, l2 + lb + l3);
            assert(args =~= (l1 + d) + l2 + (lb + l3));
            lemma_lit_concat(l1 + d, l2, lb + l3);
            assert(args =~= (l1 + d + l2) + lb + l3);
            lemma_lit_concat(l1 + d + l2, lb, l3);
            assert(args =~= (l1 + d + l2 + lb) + l3 + Seq::<char>::empty());
            lemma_lit_concat(l1 + d + l2 + lb, l3, Seq::<char>::empty());
            if include_witness {
                assert(lit_at(args, (l1 + d + l2).len() as int, "true"@));
            } else {
                assert(lit_at(args, (l1 + d + l2).len() as int, "false"@));
            }
                },
        _ => {},
    }
}

/// Round trip: re-parsing the canonical rendering of a well-formed op
/// yields the op itself.
pub proof fn lemma_args_roundtrip(op: OpV)
    requires
        op.wf(),
    ensures
        spec_parse_args(spec_op_name(op), spec_args_str(op)) == Some(op),
{
    match op {
        OpV::SelectUniverse { .. } => lemma_args_rt_selectuniverse(op),
        OpV::FilterWeight { .. } => lemma_args_rt_filterweight(op),
        OpV::TopK { .. } => lemma_args_rt_topk(op),
        OpV::StartElem { .. } => lemma_args_rt_startelem(op),
        OpV::SetBit { .. } => lemma_args_rt_setbit(op),
        OpV::WitnessNearest { .. } => lemma_args_rt_witnessnearest(op),
        OpV::ReturnSet { .. } => lemma_args_rt_returnset(op),
    }
}

/// Re-parses a record's arguments at run time.
pub fn parse_args(opname: &str, args: &str) -> (r: Option<ParsedOp>)
    ensures
        match r {
            Some(p) => spec_parse_args(opname@, args@) == Some(p@) && p@.wf(),
            None => spec_parse_args(opname@, args@) is None,
        },
{
    proof {
        reveal_strlit("}");
        reveal_strlit("true");
        reveal_strlit("false");
    }
    let n = args.unicode_len();
    if crate::exec::str_eq(opname, "SELECT_UNIVERSE") {
        let p0 = match expect_lit(args, 0, "{\"universe\":\"") {
            None => {
                return None;
            },
            Some(p) => p,
        };
        let (u, p1) = match read_str_exec(args, p0) {
            None => {
                return None;
            },
            Some(x) => x,
        };
        if !crate::exec::is_json_safe(u) {
            return None;
        }
        let p2 = match expect_lit(args, p1, ",\"n\":") {
            None => {
                return None;
            },
            Some(p) => p,
        };
        let (nv, p3) = match read_u64_exec(args, p2) {
            None => {
                return None;
            },
            Some(x) => x,
        };
        if nv > 255 {
            return None;
        }
        let p4 = match expect_lit(args, p3, "}") {
            None => {
                return None;
            },
            Some(p) => p,
        };
        if p4 != n {
            return None;
        }
        Some(ParsedOp::SelectUniverse { universe: String::from_str(u), n: nv as u8 })
    } else if crate::exec::str_eq(opname, "FILTER_WEIGHT") {
        let p0 = match expect_lit(args, 0, "{\"min\":") {
            None => {
                return None;
            },
            Some(p) => p,
        };
        let (mn, p1) = match read_u64_exec(args, p0) {
            None => {
                return None;
            },
            Some(x) => x,
        };
        let p2 = match expect_lit(args, p1, ",\"max\":") {
            None => {
                return None;
            },
            Some(p) => p,
        };
        let (mx, p3) = match read_u64_exec(args, p2) {
            None => {
                return None;
            },
            Some(x) => x,
        };
        if mn > 0xffff_ffff || mx > 0xffff_ffff {
            return None;
        }
        let p4 = match expect_lit(args, p3, "}") {
            None => {
                return None;
            },
            Some(p) => p,
        };
        if p4 != n {
            return None;
        }
        Some(ParsedOp::FilterWeight { min: mn as u32, max: mx as u32 })
    } else if crate::exec::str_eq(opname, "TOPK") {
        let p0 = match expect_lit(args, 0, "{\"target_elem\":\"") {
            None => {
                return None;
            },
            Some(p) => p,
        };
        let (t, p1) = match read_str_exec(args, p0) {
            None => {
                return None;
            },
            Some(x) => x,
        };
        if !crate::exec::is_json_safe(t) {
            return None;
        }
        let p2 = match expect_lit(args, p1, ",\"k\":") {
            None => {
                return None;
            },
            Some(p) => p,
        };
        let (k, p3) = match read_u64_exec(args, p2) {
            None => {
                return None;
            },
            Some(x) => x,
        };
        let p4 = match expect_lit(args, p3, "}") {
            None => {
                return None;
            },
            Some(p) => p,
        };
        if p4 != n {
            return None;
        }
        Some(ParsedOp::TopK { target_elem: String::from_str(t), k })
    } else if crate::exec::str_eq(opname, "START_ELEM") {
        let p0 = match expect_lit(args, 0, "{\"elem\":\"") {
            None => {
                return None;
            },
            Some(p) => p,
        };
        let (e, p1) = match read_str_exec(args, p0) {
            None => {
                return None;
            },
            Some(x) => x,
        };
        if !crate::exec::is_json_safe(e) {
            return None;
        }
        let p2 = match expect_lit(args, p1, "}") {
            None => {
                return None;
            },
            Some(p) => p,
        };
        if p2 != n {
            return None;
        }
        Some(ParsedOp::StartElem { elem: String::from_str(e) })
    } else if crate::exec::str_eq(opname, "SET_BIT") {
        let p0 = match expect_lit(args, 0, "{\"i\":") {
            None => {
                return None;
            },
            Some(p) => p,
        };
        let (iv, p1) = match read_u64_exec(args, p0) {
            None => {
                return None;
            },
            Some(x) => x,
        };
        if iv > 7 {
            return None;
        }
        let p2 = match expect_lit(args, p1, ",\"b\":") {
            None => {
                return None;
            },
            Some(p) => p,
        };
        let (bv, p3) = match read_u64_exec(args, p2) {
            None => {
                return None;
            },
            Some(x) => x,
        };
        if bv > 255 {
            return None;
        }
        let p4 = match expect_lit(args, p3, "}") {
            None => {
                return None;
            },
            Some(p) => p,
        };
        if p4 != n {
            return None;
        }
        Some(ParsedOp::SetBit { i: iv as u8, b: bv as u8 })
    } else if crate::exec::str_eq(opname, "WITNESS_NEAREST") {
        let p0 = match expect_lit(args, 0, "{\"target_elem\":\"") {
            None => {
                return None;
            },
            Some(p) => p,
        };
        let (t, p1) = match read_str_exec(args, p0) {
            None => {
                return None;
            },
            Some(x) => x,
        };
        if !crate::exec::is_json_safe(t) {
            return None;
        }
        let p2 = match expect_lit(args, p1, ",\"metric\":\"") {
            None => {
                return None;
            },
            Some(p) => p,
        };
        let (mt, p3) = match read_str_exec(args, p2) {
            None => {
                return None;
            },
            Some(x) => x,
        };
        if !crate::exec::is_json_safe(mt) {
            return None;
        }
        let p4 = match expect_lit(args, p3, "}") {
            None => {
                return None;
            },
            Some(p) => p,
        };
        if p4 != n {
            return None;
        }
        Some(
            ParsedOp::WitnessNearest {
                target_elem: String::from_str(t),
                metric: String::from_str(mt),
            },
        )
    } else if crate::exec::str_eq(opname, "RETURN_SET") {
        let p0 = match expect_lit(args, 0, "{\"max_items\":") {
            None => {
                return None;
            },
            Some(p) => p,
        };
        let (mi, p1) = match read_u64_exec(args, p0) {
            None => {
                return None;
            },
            Some(x) => x,
        };
        let p2 = match expect_lit(args, p1, ",\"include_witness\":") {
            None => {
                return None;
            },
            Some(p) => p,
        };
        match expect_lit(args, p2, "true") {
            Some(p3) => {
                match expect_lit(args, p3, "}") {
                    Some(p4) if p4 == n => {
                        return Some(
                            ParsedOp::ReturnSet { max_items: mi, include_witness: true },
                        );
                    },
                    _ => {
                        if expect_lit(args, p2, "false").is_none() {
                            return None;
                        }
                    },
                }
            },
            None => {},
        }
        let p3 = match expect_lit(args, p2, "false") {
            None => {
                return None;
            },
            Some(p) => p,
        };
        let p4 = match expect_lit(args, p3, "}") {
            None => {
                return None;
            },
            Some(p) => p,
        };
        if p4 != n {
            return None;
        }
        Some(ParsedOp::ReturnSet { max_items: mi, include_witness: false })
    } else {
        None
    }
}

/// Replays records against a state: `Some(end)` when every recomputed
/// field matches what the record committed, `None` at the first mismatch,
/// bad argument encoding, unsupported op, or an emptied candidate set.
pub open spec fn spec_replay(m: Model, recs: Seq<RecM>) -> Option<Model>
    decreases recs.len(),
{
    if recs.len() == 0 {
        Some(m)
    } else {
        let rm = recs[0];
        match spec_parse_args(rm.op, rm.args) {
            None => None,
            Some(op) => match crate::exec::spec_apply(m, op) {
                None => None,
                Some(m1) => {
                    let m2 = Model {
                        chain: crate::exec::spec_step_digest(m.chain, rm.op, rm.args, m1.set_digest),
                        ..m1
                    };
                    if (op is SetBit) && m2.count() == 0 {
                        None
                    } else if rm.post.set_digest != Some(crate::digest::hex_of(m2.set_digest)) {
                        None
                    } else if rm.post.count != m2.count() {
                        None
                    } else if m2.witness_str() is Some && rm.post.witness != m2.witness_str() {
                        None
                    } else if rm.step_digest != crate::digest::hex_of(m2.chain) {
                        None
                    } else {
                        spec_replay(m2, recs.drop_first())
                    }
                },
            },
        }
    }
}

/// Replays every record from the given starting state and compares every
/// recomputed field; `true` exactly when the whole transcript matches.
#[verifier::rlimit(100)]
#[verifier::spinoff_prover]
pub fn verify_records(init: ExecState, records: &Vec<StepRec>) -> (r: bool)
    requires
        init@.inv(),
    ensures
        r == (spec_replay(init@, records@.map_values(|x: StepRec| x@)) is Some),
{
    let ghost m0 = init@;
    let ghost recsv = records@.map_values(|x: StepRec| x@);
    let mut state = init;
    let mut i: usize = 0;
    proof {
        assert(recsv.skip(0) =~= recsv);
    }
    while i < records.len()
        invariant
            i <= records@.len(),
            m0 == init@,
            recsv == records@.map_values(|x: StepRec| x@),
            state@.inv(),
            (spec_replay(m0, recsv) is Some) == (spec_replay(state@, recsv.skip(i as int))
                is Some),
        decreases records@.len() - i,
    {
        let ghost m_pre = state@;
        let rec = &records[i];
        proof {
            assert(recsv.skip(i as int)[0] == rec@);
            assert(recsv.skip(i as int).drop_first() =~= recsv.skip(i + 1));
        }
        let op = match parse_args(rec.op.as_str(), rec.args.as_str()) {
            None => {
                return false;
            },
            Some(p) => p,
        };
        match crate::exec::apply_op(&mut state, &op) {
            Err(_) => {
                return false;
            },
            Ok(()) => {},
        }
        let sd = crate::exec::compute_step_digest(
            &state.chain,
            rec.op.as_str(),
            rec.args.as_str(),
            &state.set_digest,
        );
        let want_sd = crate::digest::hex_encode(sd.as_slice());
        state.chain = sd;
        let is_set_bit = matches!(op, ParsedOp::SetBit { .. });
        let count_post = crate::exec::live_count(&state);
        if is_set_bit && count_post == 0 {
            return false;
        }
        let want_digest = crate::digest::hex_encode(state.set_digest.as_slice());
        match &rec.post.set_digest {
            None => {
                return false;
            },
            Some(got) => {
                if !crate::exec::str_eq(got.as_str(), want_digest.as_str()) {
                    return false;
                }
            },
        }
        if rec.post.count != count_post {
            return false;
        }
        match crate::exec::witness_string(&state) {
            None => {},
            Some(want_w) => {
                match &rec.post.witness {
                    None => {
                        return false;
                    },
                    Some(got_w) => {
                        if !crate::exec::str_eq(got_w.as_str(), want_w.as_str()) {
                            return false;
                        }
                    },
                }
            },
        }
        if !crate::exec::str_eq(rec.step_digest.as_str(), want_sd.as_str()) {
            return false;
        }
        i = i + 1;
    }
    proof {
        assert(recsv.skip(recsv.len() as int) =~= Seq::<RecM>::empty());
    }
    true
}

/// Replaying the transcript of a completed run from an equal starting state
/// accepts it and reconstructs the same final state — the same chain hash in
/// particular.
#[verifier::rlimit(100)]
#[verifier::spinoff_prover]
pub proof fn lemma_replay_accepts(m: Model, ops: Seq<OpV>, step: nat)
    requires
        forall|k: int| 0 <= k < ops.len() ==> (#[trigger] ops[k]).wf(),
        crate::exec::spec_run(m, ops, step) is Finished,
    ensures
        spec_replay(m, crate::exec::run_recs(crate::exec::spec_run(m, ops, step))) == Some(
            crate::exec::run_end(crate::exec::spec_run(m, ops, step), m),
        ),
    decreases ops.len(),
{
    let run = crate::exec::spec_run(m, ops, step);
    if ops.len() == 0 {
        assert(crate::exec::run_recs(run) =~= Seq::<RecM>::empty());
    } else {
        let op = ops[0];
        match crate::exec::spec_step(m, op) {
            None => {
                assert(false);
            },
            Some(m1) => {
                let rec = crate::exec::spec_record(step, m, op, m1);
                assert(!((op is SetBit) && m1.count() == 0));
                let sub = crate::exec::spec_run(m1, ops.drop_first(), step + 1);
                assert(sub is Finished);
                assert forall|k: int| 0 <= k < ops.drop_first().len() implies (
                #[trigger] ops.drop_first()[k]).wf() by {
                    assert(ops.drop_first()[k] == ops[k + 1]);
                }
                lemma_replay_accepts(m1, ops.drop_first(), step + 1);
                lemma_args_roundtrip(op);
                let recs = crate::exec::run_recs(run);
                assert(recs == seq![rec] + crate::exec::run_recs(sub));
                assert(recs[0] == rec);
                assert(recs.drop_first() =~= crate::exec::run_recs(sub));
                assert(rec.op == crate::exec::spec_op_name(op));
                assert(rec.args == crate::exec::spec_args_str(op));
                assert(spec_parse_args(rec.op, rec.args) == Some(op));
                assert(spec_replay(m, recs) == spec_replay(m1, recs.drop_first()));
            },
        }
    }
}

} // verus!
