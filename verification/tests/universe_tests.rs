use semtrace::boolfun::{build_boolfun, parse_elem, BoolFun};
use semtrace::digest::{merkle_root, sha256_hex};
use semtrace::geom::{build_ge, Tri};
use semtrace::qe::{build_qe, parse_frac, Frac};

#[test]
fn boolfun_n4_size() {
    let v = build_boolfun(4);
    assert_eq!(v.len(), 65536);
    assert_eq!(v[0], BoolFun { n: 4, bits: 0 });
    assert_eq!(v.last().unwrap(), &BoolFun { n: 4, bits: 65535 });
}

#[test]
fn parse_hex_u16() {
    let a = parse_elem("0xBEEF").unwrap();
    let b = parse_elem("u16:48879").unwrap();
    assert_eq!(a.n, 4);
    assert_eq!(a, b);
    assert_eq!(a.bits, 0xBEEF);
}

#[test]
fn parse_bin_infers_n() {
    let f = parse_elem("bin:0001").unwrap();
    assert_eq!(f.n, 2);
    assert_eq!(f.bits, 1);
    assert_eq!(f.weight(), 1);
}

#[test]
fn qe_size_matches_certified() {
    let qe = build_qe();
    assert_eq!(qe.len(), 48927);
    assert_eq!(qe.last().unwrap(), &Frac { num: 200, den: 1 });
}

#[test]
fn qe_merkle_root_pinned() {
    let qe = build_qe();
    let root = semtrace::exec::canonical_set_digest(&qe);
    let hex = semtrace::digest::hex_encode(root.as_slice());
    assert_eq!(
        hex,
        "395ce8690eda878a8f31c46d50cbfde68fb24e84e3f018f0008930d0aa5bb754"
    );
}

#[test]
fn sha256_of_empty_input() {
    let hex = sha256_hex(&[]);
    assert_eq!(
        hex,
        "e3b0c44298fc1c149afbf4c8996fb92427ae41e4649b934ca495991b7852b855"
    );
}

#[test]
fn merkle_root_of_empty_is_empty_hash() {
    let leaves: Vec<Vec<u8>> = Vec::new();
    let root = merkle_root(&leaves);
    let hex = semtrace::digest::hex_encode(root.as_slice());
    assert_eq!(
        hex,
        "e3b0c44298fc1c149afbf4c8996fb92427ae41e4649b934ca495991b7852b855"
    );
}

#[test]
fn triangle_universe_bound_20() {
    let ge = build_ge(20);
    assert_eq!(ge.len(), 825);
    for t in &ge {
        assert!(1 <= t.a && t.a <= t.b && t.b <= t.c && t.c <= 20);
        assert!(t.a + t.b > t.c);
    }
}

#[test]
fn triangle_new_sorts_and_checks() {
    assert_eq!(Tri::new(5, 3, 4), Some(Tri { a: 3, b: 4, c: 5 }));
    assert_eq!(Tri::new(1, 1, 2), None);
    assert_eq!(Tri::new(0, 4, 4), None);
}

#[test]
fn boolfun_order_is_unsigned_bits() {
    let v = build_boolfun(2);
    assert_eq!(v.len(), 16);
    for i in 0..v.len() {
        assert_eq!(v[i], BoolFun { n: 2, bits: i as u64 });
    }
    for w in v.windows(2) {
        assert!(matches!(
            semtrace::boolfun::canonical_cmp(&w[0], &w[1]),
            std::cmp::Ordering::Less
        ));
    }
}

#[test]
fn frac_reduction_and_order() {
    let f = Frac::new_reduced(14, 400);
    assert_eq!(f, Frac { num: 7, den: 200 });
    let g = Frac::new_reduced(-3, -9);
    assert_eq!(g, Frac { num: 1, den: 3 });
    let a = Frac { num: 1, den: 3 };
    let b = Frac { num: 1, den: 2 };
    assert!(matches!(
        semtrace::qe::canonical_cmp(&a, &b),
        std::cmp::Ordering::Less
    ));
}

#[test]
fn frac_string_round_trip() {
    let f = parse_frac("7/200").unwrap();
    assert_eq!(f, Frac { num: 7, den: 200 });
    let s = semtrace::exec::frac_to_string(&f);
    assert_eq!(s, "7/200");
    assert_eq!(parse_frac(&s), Some(f));
    assert_eq!(parse_frac("7/200/3"), None);
    assert_eq!(parse_frac("7/0"), None);
    assert_eq!(parse_frac("x/2"), None);
}

#[test]
fn boolfun_string_round_trip() {
    let f = parse_elem("0x00A5").unwrap();
    let s = semtrace::exec::boolfun_to_string(&f);
    assert_eq!(s, "0x00A5");
    assert_eq!(parse_elem(&s), Some(f));
    let g = BoolFun { n: 2, bits: 5 };
    assert_eq!(semtrace::exec::boolfun_to_string(&g), "u64:5");
}

#[test]
fn bit_legends_have_seven_entries() {
    let r = semtrace::semtrace::bit_legend();
    assert_eq!(r.len(), 7);
    assert_eq!(r[0], "positive");
    assert_eq!(r[2], "den<=6");
    let g = semtrace::semtrace::bit_legend_geom();
    assert_eq!(g.len(), 7);
    assert_eq!(g[4], "right");
}

#[test]
fn parse_elem_rejects_bad_forms() {
    assert_eq!(parse_elem("bin:012"), None);
    assert_eq!(parse_elem("bin:010"), None);
    assert_eq!(parse_elem("u16:abc"), None);
    assert_eq!(parse_elem("0xZZ"), None);
    assert_eq!(parse_elem("17"), None);
}
