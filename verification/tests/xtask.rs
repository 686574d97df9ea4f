use ads::xtask::bench_runner::{
    format_duration, truncate_with_ellipsis, invocation_label, resolve_bench_invocations, normalize_token, text_contains, BenchInvocation,
    BenchSelectionRequest, BenchmarkQuery,
};
use ads::xtask::cli::{BenchFamily, BenchKind, Suite};

const ALL_KINDS: [BenchKind; 3] = [BenchKind::Criterion, BenchKind::Dhat, BenchKind::Callgrind];

fn request<'a>(
    suites: &'a [Suite],
    kinds: &'a [BenchKind],
    families: &'a [BenchFamily],
    subcategories: &'a [String],
    targets: &'a [String],
) -> BenchSelectionRequest<'a> {
    BenchSelectionRequest {
        suites,
        kinds,
        families,
        subcategories,
        targets,
        benchmark: None,
        workload: None,
        payload: None,
        operation: None,
        implementation: None,
        size: None,
        variant: None,
    }
}

fn targets_of(v: &[BenchInvocation]) -> Vec<String> {
    v.iter().map(|i| i.target.clone()).collect()
}

#[test]
fn default_selection_names_every_target_in_order() {
    let r = resolve_bench_invocations(&request(&[Suite::All], &ALL_KINDS, &[BenchFamily::All], &[], &[]))
        .unwrap();
    assert_eq!(r.len(), 26);
    let names = targets_of(&r);
    let mut sorted = names.clone();
    sorted.sort();
    assert_eq!(names, sorted);
    assert_eq!(names[0], "macro_read_heavy_callgrind");
    assert!(r.iter().all(|i| i.criterion_filter.is_none()));
}

#[test]
fn memory_suite_names_the_dhat_targets() {
    let r = resolve_bench_invocations(&request(&[Suite::Memory], &ALL_KINDS, &[], &[], &[])).unwrap();
    let names = targets_of(&r);
    assert_eq!(names.len(), 8);
    assert!(names.iter().all(|n| n.ends_with("_dhat")));
}

#[test]
fn subcategories_are_trimmed_and_lower_cased() {
    let subs = vec![" Micro_Maps ".to_string()];
    let r = resolve_bench_invocations(&request(&[], &[BenchKind::Criterion], &[], &subs, &[])).unwrap();
    assert_eq!(
        targets_of(&r),
        vec![
            "micro_maps_large_payload_criterion",
            "micro_maps_strings_criterion",
            "micro_maps_u64_criterion"
        ]
    );
}

#[test]
fn families_and_suites_combine() {
    let r = resolve_bench_invocations(&request(&[Suite::Callgrind], &[], &[BenchFamily::Sweeps], &[], &[]))
        .unwrap();
    assert_eq!(targets_of(&r), vec!["sweep_btree_cache_callgrind", "sweep_hash_collisions_callgrind"]);
}

#[test]
fn join_key_selector_builds_the_criterion_filter() {
    let mut req = request(&[], &[], &[], &[], &[]);
    req.benchmark = Some("workload=Micro_Maps_U64|op=insert|impl=avl_arena|size=20000");
    let r = resolve_bench_invocations(&req).unwrap();
    assert_eq!(r.len(), 1);
    assert_eq!(r[0].target, "micro_maps_u64_criterion");
    assert_eq!(r[0].criterion_filter.as_deref(), Some("micro_maps_u64/insert/avl_arena/20000"));
    assert_eq!(invocation_label(&r[0]), "micro_maps_u64_criterion [micro_maps_u64/insert/avl_arena/20000]");
}

#[test]
fn criterion_id_keeps_only_criterion_targets() {
    let mut req = request(&[], &[], &[], &[], &[]);
    req.benchmark = Some("micro_maps_u64/insert");
    let r = resolve_bench_invocations(&req).unwrap();
    assert_eq!(r.len(), 10);
    assert!(r.iter().all(|i| i.target.ends_with("_criterion")));
    assert!(r.iter().all(|i| i.criterion_filter.as_deref() == Some("micro_maps_u64/insert")));
}

#[test]
fn payload_filter_reads_the_workload_names() {
    let mut req = request(&[], &[], &[], &[], &[]);
    req.payload = Some("String");
    let r = resolve_bench_invocations(&req).unwrap();
    assert_eq!(targets_of(&r), vec!["micro_maps_strings_criterion"]);
    assert_eq!(r[0].criterion_filter, None);
}

#[test]
fn workload_filter_alone_keeps_every_kind() {
    let mut req = request(&[], &[], &[], &[], &[]);
    req.workload = Some("macro_read_heavy_u64");
    let r = resolve_bench_invocations(&req).unwrap();
    assert_eq!(
        targets_of(&r),
        vec!["macro_read_heavy_callgrind", "macro_read_heavy_criterion", "macro_read_heavy_dhat"]
    );
    assert_eq!(r[1].criterion_filter.as_deref(), Some("macro_read_heavy_u64"));
    assert_eq!(r[0].criterion_filter, None);
    assert_eq!(invocation_label(&r[0]), "macro_read_heavy_callgrind");
}

#[test]
fn unmatched_filters_are_refused() {
    let t = vec!["nonexistent".to_string()];
    let e = resolve_bench_invocations(&request(&[], &[], &[], &[], &t)).unwrap_err();
    assert_eq!(
        e,
        "no benchmark targets matched the provided filters (--suite/--kind/--family/--subcategory/--target/--benchmark)"
    );
}

#[test]
fn selector_pieces_override_in_order() {
    let mut req = request(&[], &[], &[], &[], &[]);
    req.workload = Some("ignored");
    req.benchmark = Some("size=12|junk|workload=a|size=x|variant= Raw ");
    let q = BenchmarkQuery::from_request(&req);
    assert_eq!(q.criterion_id, None);
    assert_eq!(q.workload.as_deref(), Some("a"));
    assert_eq!(q.size, None);
    assert_eq!(q.variant.as_deref(), Some("raw"));
    assert!(q.has_granular_filter());
    assert_eq!(q.criterion_filter().as_deref(), Some("a"));
}

#[test]
fn tokens_and_infixes() {
    assert_eq!(normalize_token("  MiXeD\t"), "mixed");
    assert!(text_contains("micro_maps_large_payload", "large_payload"));
    assert!(!text_contains("micro", "micro_maps"));
    assert!(text_contains("abc", ""));
}

#[test]
fn durations_print_in_hours_minutes_and_seconds() {
    assert_eq!(format_duration(5), "5s");
    assert_eq!(format_duration(65), "1m 05s");
    assert_eq!(format_duration(3600 + 2 * 60 + 3), "1h 02m 03s");
    assert_eq!(format_duration(7322), "2h 02m 02s");
    assert_eq!(format_duration(600), "10m 00s");
}

#[test]
fn long_labels_are_cut_with_an_ellipsis() {
    assert_eq!(truncate_with_ellipsis("benchmark", 0), "");
    assert_eq!(truncate_with_ellipsis("benchmark", 20), "benchmark");
    assert_eq!(truncate_with_ellipsis("benchmark", 1), "…");
    assert_eq!(truncate_with_ellipsis("benchmark", 5), "benc…");
    assert_eq!(truncate_with_ellipsis("äöüß", 3), "äö…");
}
