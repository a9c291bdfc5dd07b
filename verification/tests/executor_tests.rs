use semtrace::exec::{
    elide_redundant_bits, execute_ops, initial_state, live_count, parse_op_to_semtrace,
    run_and_verify, witness_string, ExecError, ParsedOp,
};
use semtrace::qe::build_qe;
use semtrace::semtrace::{demo_trace, sig7, Constraint, Op};
use semtrace::verify::verify_records;

fn ops(v: &[&str]) -> Vec<String> {
    v.iter().map(|s| s.to_string()).collect()
}

#[test]
fn classic_rational_run() {
    let list = ops(&[
        "LOAD 7/200",
        "MASK_BIT bit=2 val=1",
        "WITNESS_NEAREST target=7/200",
        "RETURN_SET max_items=20 include_witness=true",
    ]);
    let (ex, valid) = run_and_verify(&list).unwrap();
    assert!(valid);
    assert!(!ex.empty_set);
    assert_eq!(ex.records.len(), 4);
    assert_eq!(live_count(&ex.state), 1523);
    assert!(live_count(&ex.state) > 0);
    // the exact minimum under the metric: 0/1 is nearer to 7/200 than any
    // other fraction with denominator at most 6
    assert_eq!(witness_string(&ex.state), Some("0/1".to_string()));
    assert_eq!(ex.state.max_items, 20);
    assert!(ex.state.include_witness);
}

#[test]
fn empty_set_aborts_at_failing_step() {
    // den <= 6 forced, proper forced, |num| <= 5 denied: no reduced fraction
    // has |num| >= 6 and |num| < den <= 6
    let list = ops(&[
        "LOAD 7/200",
        "MASK_BIT bit=2 val=1",
        "MASK_BIT bit=5 val=1",
        "MASK_BIT bit=6 val=0",
    ]);
    let (ex, valid) = run_and_verify(&list).unwrap();
    assert!(ex.empty_set);
    assert_eq!(ex.records.len(), 4);
    assert_eq!(ex.records.last().unwrap().post.count, 0);
    // a transcript that ends in an emptied set does not replay as valid
    assert!(!valid);
}

#[test]
fn boolean_topk_selection() {
    let list = ops(&[
        "SELECT_UNIVERSE universe=BOOLFUN n=4",
        "FILTER_WEIGHT min=1 max=3",
        "TOPK target_elem=0xBEEF k=5",
    ]);
    let (ex, valid) = run_and_verify(&list).unwrap();
    assert!(valid);
    assert_eq!(ex.records[1].post.count, 696);
    assert_eq!(live_count(&ex.state), 696);
    // minimum Hamming distance to 0xBEEF among weights 1..=3, ties canonical
    assert_eq!(witness_string(&ex.state), Some("0x0007".to_string()));
    // TOPK is a selection: digest and count unchanged
    assert_eq!(
        ex.records[2].post.set_digest,
        ex.records[1].post.set_digest
    );
    assert_eq!(ex.records[2].post.count, ex.records[1].post.count);
    assert_eq!(ex.records[2].pre.set_digest, ex.records[1].post.set_digest);
}

#[test]
fn triangle_projection_run() {
    let list = ops(&[
        "LOAD 3,4,5",
        "MASK_BIT bit=4 val=1",
        "WITNESS_NEAREST target_elem=3,4,5 metric=ABS_DIFF",
    ]);
    let (ex, valid) = run_and_verify(&list).unwrap();
    assert!(valid);
    // the right triangles with sides at most 20
    assert_eq!(live_count(&ex.state), 6);
    assert_eq!(witness_string(&ex.state), Some("3/5".to_string()));
}

#[test]
fn replay_rejects_tampered_digest() {
    let list = ops(&[
        "LOAD 7/200",
        "MASK_BIT bit=2 val=1",
        "WITNESS_NEAREST target=7/200",
    ]);
    let (ex, valid) = run_and_verify(&list).unwrap();
    assert!(valid);
    let mut records = ex.records.clone();
    let old = records[1].post.set_digest.clone().unwrap();
    let first = old.chars().next().unwrap();
    let flipped = if first == '0' { "1" } else { "0" };
    let tampered = format!("{}{}", flipped, &old[1..]);
    records[1].post.set_digest = Some(tampered);
    assert!(!verify_records(initial_state(), &records));
}

#[test]
fn chain_commits_to_the_path() {
    let a = ops(&["LOAD 7/200", "MASK_BIT bit=2 val=1"]);
    let b = ops(&["LOAD 1/3", "MASK_BIT bit=2 val=1"]);
    let (ea, va) = run_and_verify(&a).unwrap();
    let (eb, vb) = run_and_verify(&b).unwrap();
    assert!(va && vb);
    // the same final candidate set either way
    assert_eq!(
        ea.records[1].post.set_digest,
        eb.records[1].post.set_digest
    );
    assert_eq!(ea.records[1].post.count, eb.records[1].post.count);
    // but the chains differ: the commitment covers the path, not the endpoint
    assert_ne!(ea.records[1].step_digest, eb.records[1].step_digest);
}

#[test]
fn redundancy_elision_preserves_final_set() {
    let qe = build_qe();
    // forcing the reserved bit changes nothing: every rational has it set
    let pairs = vec![(1u8, 1u8), (2u8, 1u8)];
    let kept = elide_redundant_bits(&qe, &pairs);
    assert_eq!(kept, vec![(2u8, 1u8)]);
    // full and elided constraints filter to the same set
    let full = Constraint::empty().set_bit(1, 1).set_bit(2, 1);
    let kept_cst = Constraint::empty().set_bit(2, 1);
    let with_full = semtrace::exec::filter_qe(&qe, full);
    let with_kept = semtrace::exec::filter_qe(&qe, kept_cst);
    assert_eq!(with_full, with_kept);
}

#[test]
fn elision_handles_repeated_bits() {
    let qe = build_qe();
    // re-setting a bit to the same value never changes the set: dropped
    let pairs = vec![(2u8, 1u8), (2u8, 1u8)];
    assert_eq!(elide_redundant_bits(&qe, &pairs), vec![(2u8, 1u8)]);
    // re-setting it to the other value moves the set: a change, so kept
    let flip = vec![(2u8, 1u8), (2u8, 0u8)];
    assert_eq!(elide_redundant_bits(&qe, &flip), vec![(2u8, 1u8), (2u8, 0u8)]);
}

#[test]
fn elision_changes_the_chain_but_not_the_set() {
    let with_redundant = ops(&["LOAD 7/200", "MASK_BIT bit=1 val=1", "MASK_BIT bit=2 val=1"]);
    let without = ops(&["LOAD 7/200", "MASK_BIT bit=2 val=1"]);
    let (ea, _) = run_and_verify(&with_redundant).unwrap();
    let (eb, _) = run_and_verify(&without).unwrap();
    assert_eq!(
        ea.records.last().unwrap().post.set_digest,
        eb.records.last().unwrap().post.set_digest
    );
    assert_ne!(
        ea.records.last().unwrap().step_digest,
        eb.records.last().unwrap().step_digest
    );
}

#[test]
fn witness_is_order_independent() {
    // the same candidates in two different orders select the same witness
    let target = semtrace::qe::Frac { num: 7, den: 200 };
    let mut cands = vec![
        semtrace::qe::Frac { num: 0, den: 1 },
        semtrace::qe::Frac { num: 1, den: 6 },
        semtrace::qe::Frac { num: -1, den: 6 },
        semtrace::qe::Frac { num: 1, den: 5 },
    ];
    let w1 = semtrace::exec::witness_nearest(&cands, &target);
    cands.reverse();
    let w2 = semtrace::exec::witness_nearest(&cands, &target);
    assert_eq!(w1, w2);
    assert_eq!(w1, Some(semtrace::qe::Frac { num: 0, den: 1 }));
}

#[test]
fn unknown_ops_and_bad_args_are_fatal() {
    assert!(matches!(
        parse_op_to_semtrace("FOO bar=1"),
        Err(ExecError::Parse)
    ));
    assert!(matches!(parse_op_to_semtrace("LOAD "), Err(ExecError::Parse)));
    assert!(matches!(
        parse_op_to_semtrace("MASK_BIT bit=9 val=1"),
        Err(ExecError::Parse)
    ));
    assert!(matches!(
        parse_op_to_semtrace("SET_BIT i=2 b=1"),
        Ok(ParsedOp::SetBit { i: 2, b: 1 })
    ));
    let unknown_universe = ops(&["SELECT_UNIVERSE universe=PLUTO n=4"]);
    assert!(matches!(execute_ops(&unknown_universe), Err(ExecError::Schema)));
    let bad_metric = ops(&["LOAD 7/200", "WITNESS_NEAREST target=7/200 metric=EUCLID"]);
    assert!(matches!(execute_ops(&bad_metric), Err(ExecError::Schema)));
    let bad_elem = ops(&["LOAD seven"]);
    assert!(matches!(execute_ops(&bad_elem), Err(ExecError::Parse)));
    let arity_clash = ops(&[
        "SELECT_UNIVERSE universe=BOOLFUN n=4",
        "TOPK target_elem=bin:01 k=3",
    ]);
    assert!(matches!(execute_ops(&arity_clash), Err(ExecError::Schema)));
}

#[test]
fn signature_legend_on_examples() {
    // 7/200: positive, reserved, even numerator is false, den%3 false,
    // proper, |num| <= 5 false
    let f = semtrace::qe::Frac { num: 7, den: 200 };
    assert_eq!(sig7(&f), 0b0100011);
    let g = semtrace::qe::Frac { num: 0, den: 1 };
    assert_eq!(sig7(&g), 0b1101110);
    let t = semtrace::geom::Tri { a: 3, b: 4, c: 5 };
    assert_eq!(semtrace::semtrace::sig7_geom(&t), 0b0011001);
}

#[test]
fn demo_trace_is_the_classic_run() {
    let t = demo_trace();
    assert_eq!(t.semtrace_version, "0.0.1");
    assert_eq!(t.universe, "QE");
    assert_eq!(t.bits, 7);
    assert_eq!(t.ops.len(), 4);
    assert!(matches!(&t.ops[0], Op::StartElem { elem } if elem == "7/200"));
    assert!(matches!(&t.ops[1], Op::SetBit { i: 2, b: 1 }));
    assert!(
        matches!(&t.ops[2], Op::WitnessNearest { target_elem, metric }
            if target_elem == "7/200" && metric == "ABS_DIFF")
    );
    assert!(
        matches!(&t.ops[3], Op::ReturnSet { max_items: 20, include_witness: true })
    );
}

#[test]
fn record_fields_have_the_wire_shape() {
    let list = ops(&["LOAD 7/200", "MASK_BIT bit=2 val=1"]);
    let (ex, _) = run_and_verify(&list).unwrap();
    let r0 = &ex.records[0];
    assert_eq!(r0.step, 0);
    assert_eq!(r0.op, "START_ELEM");
    assert_eq!(r0.args, "{\"elem\":\"7/200\"}");
    assert_eq!(r0.pre.set_digest, None);
    assert_eq!(r0.pre.count, 0);
    assert_eq!(r0.pre.constraint_mask, 0);
    assert_eq!(r0.pre.constraint_value, 0);
    assert_eq!(r0.post.count, 48927);
    assert_eq!(r0.post.witness, Some("7/200".to_string()));
    assert_eq!(r0.post.set_digest.as_ref().unwrap().len(), 64);
    assert_eq!(r0.step_digest.len(), 64);
    let r1 = &ex.records[1];
    assert_eq!(r1.op, "SET_BIT");
    assert_eq!(r1.args, "{\"i\":2,\"b\":1}");
    assert_eq!(r1.pre.constraint_mask, 0);
    assert_eq!(r1.post.count, 1523);
}

#[test]
fn interpret_trace_renders_steps() {
    let list = ops(&["LOAD 7/200", "MASK_BIT bit=2 val=1", "RETURN_SET"]);
    let lines = semtrace::proposer::interpret_trace(&list);
    assert_eq!(lines.len(), 3);
    assert_eq!(lines[0], "Step 0: LOAD 7/200");
    assert_eq!(lines[1], "Step 1: MASK_BIT (den<=6 := true)");
    assert_eq!(lines[2], "Step 2: RETURN_SET");
}

#[test]
fn sample_respects_max_items() {
    let list = ops(&["LOAD 7/200", "MASK_BIT bit=2 val=1"]);
    let (ex, _) = run_and_verify(&list).unwrap();
    let sample = semtrace::exec::sample_strings(&ex.state, 3);
    assert_eq!(sample.len(), 3);
    // the canonical order starts at the most negative rational
    assert_eq!(sample[0], "-200/1");
}

#[test]
fn select_universe_switch_resets_state() {
    let list = ops(&[
        "LOAD 7/200",
        "MASK_BIT bit=2 val=1",
        "SELECT_UNIVERSE universe=BOOLFUN n=2",
    ]);
    let (ex, valid) = run_and_verify(&list).unwrap();
    assert!(valid);
    assert_eq!(live_count(&ex.state), 16);
    assert_eq!(ex.state.cst, Constraint { mask: 0, value: 0 });
    assert_eq!(witness_string(&ex.state), None);
}
