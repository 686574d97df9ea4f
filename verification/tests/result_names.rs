use ads::xtask::aggregate::{payload_of_lowered, variant_of_lowered};
use ads::xtask::result_names::{parse_callgrind_join, parse_criterion_path, parse_size_token};

#[test]
fn callgrind_current_name_splits_at_operation() {
    let j = parse_callgrind_join(
        "target/callgrind/callgrind.callgrind_micro_maps_insert_btree_safe.n1k.out",
        None,
    )
    .unwrap();
    assert_eq!(j.workload, "micro_maps_u64");
    assert_eq!(j.payload, "u64");
    assert_eq!(j.operation, "insert");
    assert_eq!(j.implementation, "btree_safe");
    assert_eq!(j.size, 1000);
    assert_eq!(j.variant, "safe");
    assert_eq!(
        j.join_key,
        "workload=micro_maps_u64|payload=u64|op=insert|impl=btree_safe|size=1000|variant=safe"
    );
}

#[test]
fn callgrind_name_with_run_suffix() {
    let j = parse_callgrind_join("callgrind.callgrind_heap_push_pop_binary_heap.n3.2.out.#1", None)
        .unwrap();
    assert_eq!(j.workload, "heap");
    assert_eq!(j.operation, "push_pop");
    assert_eq!(j.implementation, "binary_heap");
    assert_eq!(j.size, 3);
    assert_eq!(j.variant, "other");
}

#[test]
fn callgrind_first_operation_in_list_order_wins() {
    // `_contains_zipf_` is tried before `_insert_`, though it stands later in the name.
    let j = parse_callgrind_join("callgrind.callgrind_w_insert_x_contains_zipf_avl_raw.n8.out", None)
        .unwrap();
    assert_eq!(j.workload, "w_insert_x");
    assert_eq!(j.operation, "contains_zipf");
    assert_eq!(j.implementation, "avl_raw");
    assert_eq!(j.variant, "raw");
}

#[test]
fn callgrind_legacy_token_from_command() {
    let j = parse_callgrind_join(
        "results/callgrind.legacy.n500.out",
        Some("bench callgrind__workload_macro_read_heavy__payload_string__op_mix__impl_rb_arena --x"),
    )
    .unwrap();
    assert_eq!(j.workload, "macro_read_heavy");
    assert_eq!(j.payload, "string");
    assert_eq!(j.operation, "mix");
    assert_eq!(j.implementation, "rb_arena");
    assert_eq!(j.size, 500);
    assert_eq!(j.variant, "arena");
    assert_eq!(
        j.join_key,
        "workload=macro_read_heavy|payload=string|op=mix|impl=rb_arena|size=500|variant=arena"
    );
}

#[test]
fn callgrind_legacy_token_defaults() {
    let j = parse_callgrind_join(
        "out/callgrind__workload_micro_maps__op_insert__impl_std_btreemap",
        None,
    )
    .unwrap();
    assert_eq!(j.workload, "micro_maps_u64");
    assert_eq!(j.payload, "u64");
    assert_eq!(j.size, 0);
    assert_eq!(j.variant, "std");
}

#[test]
fn callgrind_last_legacy_token_wins() {
    let j = parse_callgrind_join(
        "callgrind__workload_a__op_x__impl_p_safe",
        Some("callgrind__workload_b__op_y__impl_q_raw"),
    )
    .unwrap();
    assert_eq!(j.workload, "b");
    assert_eq!(j.operation, "y");
    assert_eq!(j.variant, "raw");
}

#[test]
fn callgrind_unreadable_names() {
    assert!(parse_callgrind_join("foo.txt", None).is_none());
    assert!(parse_callgrind_join("callgrind.callgrind__x.n10.out", None).is_none());
    assert!(parse_callgrind_join("callgrind.callgrind_nothing_here.n10.out", None).is_none());
    assert!(parse_callgrind_join("callgrind__workload_a__op_b", None).is_none());
}

#[test]
fn size_tokens() {
    assert_eq!(parse_size_token("12k"), Some(12000));
    assert_eq!(parse_size_token("7"), Some(7));
    assert_eq!(parse_size_token("k"), None);
    assert_eq!(parse_size_token("x"), None);
    assert_eq!(parse_size_token("٣"), None);
}

#[test]
fn callgrind_non_ascii_digits_give_size_zero() {
    let j = parse_callgrind_join("callgrind.callgrind_w_mix_z.n٣.out", None).unwrap();
    assert_eq!(j.size, 0);
    assert_eq!(j.operation, "mix");
}

#[test]
fn criterion_path_parts() {
    let c = parse_criterion_path("micro_maps_u64/insert_btree_safe/1000/new/estimates.json")
        .unwrap();
    assert_eq!(c.path, "micro_maps_u64/insert_btree_safe/1000/new/estimates.json");
    assert_eq!(c.group, "micro_maps_u64");
    assert_eq!(c.function, "insert_btree_safe");
    assert_eq!(c.sample, "new");
    assert_eq!(c.join.operation, "insert");
    assert_eq!(c.join.implementation, "btree_safe");
    assert_eq!(c.join.size, 1000);
    assert_eq!(
        c.join.join_key,
        "workload=micro_maps_u64|payload=u64|op=insert|impl=btree_safe|size=1000|variant=safe"
    );
}

#[test]
fn criterion_path_with_backslashes_and_nested_group() {
    let c = parse_criterion_path("macro\\string_set\\f_x\\10\\new\\estimates.json").unwrap();
    assert_eq!(c.path, "macro/string_set/f_x/10/new/estimates.json");
    assert_eq!(c.group, "macro/string_set");
    assert_eq!(c.join.operation, "unknown");
    assert_eq!(c.join.implementation, "f_x");
    assert_eq!(c.join.payload, "string");
    assert_eq!(c.join.variant, "other");
}

#[test]
fn criterion_path_errors() {
    assert_eq!(
        parse_criterion_path("a/b/new/estimates.json").err().unwrap(),
        "unexpected criterion path format: a/b/new/estimates.json"
    );
    assert_eq!(
        parse_criterion_path("g/f/10/old/estimates.json").err().unwrap(),
        "unexpected criterion path format: g/f/10/old/estimates.json"
    );
    assert_eq!(
        parse_criterion_path("g/f/abc/new/estimates.json").err().unwrap(),
        "expected numeric size in criterion path, got: abc"
    );
    assert!(parse_criterion_path("g\nh/f/1/new/estimates.json").is_err());
}

#[test]
fn lowered_texts_name_payload_and_variant() {
    assert_eq!(payload_of_lowered("macro large_payload string"), "large_payload");
    assert_eq!(payload_of_lowered("string_set insert"), "string");
    assert_eq!(payload_of_lowered("STRING"), "u64");
    assert_eq!(variant_of_lowered("avl_safe_raw"), "safe");
    assert_eq!(variant_of_lowered("std_hashmap"), "std");
    assert_eq!(variant_of_lowered("AVL_SAFE"), "other");
}

#[test]
fn oversized_plain_sizes_read_as_no_number() {
    assert_eq!(parse_size_token("99999999999999999999999"), None);
    let j = parse_callgrind_join("callgrind.callgrind_w_mix_z.n99999999999999999999999.out", None)
        .unwrap();
    assert_eq!(j.size, 0);
}
