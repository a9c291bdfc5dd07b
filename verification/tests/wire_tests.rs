use semtrace::exec::{render_preimage, render_record, run_and_verify};

fn ops(v: &[&str]) -> Vec<String> {
    v.iter().map(|s| s.to_string()).collect()
}

#[test]
fn digest_preimage_byte_fixture() {
    // the canonical JSON preimage: fixed key order, no whitespace
    let chain: Vec<u8> = vec![0xab, 0xcd];
    let post: Vec<u8> = vec![0x01, 0x2f];
    let pre = render_preimage(&chain, "SET_BIT", "{\"i\":2,\"b\":1}", &post);
    assert_eq!(
        pre,
        "{\"pre\":\"abcd\",\"op\":\"SET_BIT\",\"args\":{\"i\":2,\"b\":1},\"post\":\"012f\"}"
    );
}

#[test]
fn record_line_byte_fixture() {
    let list = ops(&["LOAD 7/200", "MASK_BIT bit=2 val=1"]);
    let (ex, _) = run_and_verify(&list).unwrap();
    let line0 = render_record(&ex.records[0]);
    let expected_prefix = "{\"step\":0,\"op\":\"START_ELEM\",\"args\":{\"elem\":\"7/200\"},\
         \"pre\":{\"set_digest\":null,\"count\":0,\"constraint_mask\":0,\"constraint_value\":0},\
         \"post\":{\"set_digest\":\"";
    assert!(line0.starts_with(expected_prefix));
    assert!(line0.contains("\"count\":48927,\"witness\":\"7/200\"},\"step_digest\":\""));
    assert!(line0.ends_with("\"}"));
}

#[test]
fn record_lines_are_wellformed_json() {
    // an independent JSON reader agrees with the canonical renderer
    let list = ops(&[
        "LOAD 3,4,5",
        "MASK_BIT bit=4 val=1",
        "WITNESS_NEAREST target_elem=3,4,5 metric=ABS_DIFF",
        "RETURN_SET max_items=5 include_witness=true",
    ]);
    let (ex, valid) = run_and_verify(&list).unwrap();
    assert!(valid);
    for (k, rec) in ex.records.iter().enumerate() {
        let line = render_record(rec);
        let v: serde_json::Value = serde_json::from_str(&line).unwrap();
        assert_eq!(v["step"].as_u64().unwrap() as usize, k);
        assert_eq!(v["op"].as_str().unwrap(), rec.op);
        assert_eq!(
            v["post"]["count"].as_u64().unwrap() as usize,
            rec.post.count
        );
        assert_eq!(
            v["post"]["set_digest"].as_str().map(|s| s.to_string()),
            rec.post.set_digest
        );
        assert_eq!(
            v["step_digest"].as_str().unwrap(),
            rec.step_digest
        );
        assert_eq!(rec.step_digest.len(), 64);
        assert!(rec
            .step_digest
            .chars()
            .all(|c| c.is_ascii_hexdigit() && !c.is_ascii_uppercase()));
    }
}

#[test]
fn chain_seeds_from_the_empty_hash() {
    // the first step's digest preimage commits to SHA256("") as `pre`
    let list = ops(&["LOAD 7/200"]);
    let (ex, _) = run_and_verify(&list).unwrap();
    let seed = semtrace::digest::sha256_hex(&[]);
    let chain: Vec<u8> = (0..32)
        .map(|i| u8::from_str_radix(&seed[2 * i..2 * i + 2], 16).unwrap())
        .collect();
    let post_hex = ex.records[0].post.set_digest.clone().unwrap();
    let post: Vec<u8> = (0..32)
        .map(|i| u8::from_str_radix(&post_hex[2 * i..2 * i + 2], 16).unwrap())
        .collect();
    let preimage = render_preimage(&chain, "START_ELEM", "{\"elem\":\"7/200\"}", &post);
    let sd = semtrace::digest::sha256_hex(preimage.as_bytes());
    assert_eq!(sd, ex.records[0].step_digest);
}
