use ads::xtask::aggregate::{
    build_join_keys, ensure_strict_one_to_one_to_one, infer_payload, infer_variant,
    normalize_callgrind_workload, parse_dhat_join, split_function_taxonomy, tally_operations,
    text_starts_with, OperationTally,
};

fn pair(a: &str, b: &str) -> (String, String) {
    (a.to_string(), b.to_string())
}

#[test]
fn function_names_split_into_operation_and_implementation() {
    assert_eq!(split_function_taxonomy("contains_zipf_avl_arena"), pair("contains_zipf", "avl_arena"));
    assert_eq!(split_function_taxonomy("contains_rb_safe"), pair("contains", "rb_safe"));
    assert_eq!(split_function_taxonomy("bulk_insert_btree_raw"), pair("bulk_insert", "btree_raw"));
    assert_eq!(split_function_taxonomy("insert"), pair("unknown", "insert"));
    assert_eq!(split_function_taxonomy("lookup_x"), pair("unknown", "lookup_x"));
    assert_eq!(split_function_taxonomy("mix_"), pair("mix", ""));
}

#[test]
fn payload_and_variant_follow_the_names() {
    assert_eq!(infer_payload("micro_maps_Large_Payload", ""), "large_payload");
    assert_eq!(infer_payload("micro_maps", "insert_STRING"), "string");
    assert_eq!(infer_payload("micro_maps_u64", "insert"), "u64");
    assert_eq!(infer_variant("AVL_Safe"), "safe");
    assert_eq!(infer_variant("splay_raw"), "raw");
    assert_eq!(infer_variant("rb_arena"), "arena");
    assert_eq!(infer_variant("std_btreemap"), "std");
    assert_eq!(infer_variant("vec"), "other");
}

#[test]
fn callgrind_workloads_regain_their_payload() {
    assert_eq!(normalize_callgrind_workload("micro_maps", "u64"), "micro_maps_u64");
    assert_eq!(normalize_callgrind_workload("micro_maps", "string"), "micro_maps");
    assert_eq!(normalize_callgrind_workload("micro_sequences", "u64"), "micro_sequences");
}

#[test]
fn join_keys_are_joined_in_a_fixed_order() {
    let j = build_join_keys("w", "u64", "insert", "avl_safe", 20000, "safe");
    assert_eq!(j.join_key, "workload=w|payload=u64|op=insert|impl=avl_safe|size=20000|variant=safe");
    assert_eq!(j.size, 20000);
}

#[test]
fn dhat_file_names_give_join_keys() {
    let j = parse_dhat_join("dhat__workload_micro_maps_u64__op_insert__impl_avl_raw__size_1000.json")
        .unwrap();
    assert_eq!(j.workload, "micro_maps_u64");
    assert_eq!(j.payload, "u64");
    assert_eq!(j.operation, "insert");
    assert_eq!(j.implementation, "avl_raw");
    assert_eq!(j.size, 1000);
    assert_eq!(j.variant, "raw");
    let j = parse_dhat_join("dhat__payload_string__workload_w__op_o__impl_i__size_x").unwrap();
    assert_eq!(j.payload, "string");
    assert_eq!(j.size, 0);
    assert_eq!(j.variant, "other");
    assert!(parse_dhat_join("dhat__workload_w__op_o").is_none());
    assert!(parse_dhat_join("other__workload_w__op_o__impl_i").is_none());
    assert!(text_starts_with("dhat__x", "dhat__"));
}

fn tally(key: &str, c: usize, g: usize, d: usize) -> OperationTally {
    OperationTally { join_key: key.to_string(), criterion: c, callgrind: g, dhat: d }
}

#[test]
fn strict_mapping_accepts_one_of_each() {
    assert_eq!(ensure_strict_one_to_one_to_one(&[tally("a", 1, 1, 1), tally("b", 1, 1, 1)]), Ok(()));
    assert_eq!(ensure_strict_one_to_one_to_one(&[]), Ok(()));
}

#[test]
fn strict_mapping_reports_the_groups_that_break_it() {
    let e = ensure_strict_one_to_one_to_one(&[tally("a", 1, 1, 1), tally("b", 2, 0, 1)]).unwrap_err();
    assert_eq!(
        e,
        "aggregation requires strict 1:1:1 mapping (criterion/callgrind/dhat). found 1 invalid operation groups:\n- b: criterion=2, callgrind=0, dhat=1"
    );
    let many: Vec<OperationTally> = (0..23).map(|i| tally(&format!("k{i}"), 0, 1, 1)).collect();
    let e = ensure_strict_one_to_one_to_one(&many).unwrap_err();
    assert!(e.starts_with("aggregation requires strict 1:1:1 mapping (criterion/callgrind/dhat). found 23 invalid operation groups:\n- k0: criterion=0"));
    assert!(e.ends_with("\n- k19: criterion=0, callgrind=1, dhat=1\n- ... and 3 more"));
}

#[test]
fn records_are_grouped_by_join_key_in_order() {
    let c = vec!["b".to_string(), "a".to_string(), "b".to_string()];
    let g = vec![Some("a".to_string()), None, Some("c".to_string())];
    let d = vec![Some("b".to_string()), Some("a".to_string())];
    let t = tally_operations(&c, &g, &d);
    let rows: Vec<(String, usize, usize, usize)> =
        t.iter().map(|x| (x.join_key.clone(), x.criterion, x.callgrind, x.dhat)).collect();
    assert_eq!(
        rows,
        vec![
            ("a".to_string(), 1, 1, 1),
            ("b".to_string(), 2, 0, 1),
            ("c".to_string(), 0, 1, 0)
        ]
    );
    let e = ensure_strict_one_to_one_to_one(&t).unwrap_err();
    assert!(e.contains("found 2 invalid operation groups:\n- b: criterion=2, callgrind=0, dhat=1\n- c: criterion=0"));
    assert!(tally_operations(&[], &[None], &[]).is_empty());
}
