//! How the benchmark aggregator reads the names of benchmark results: the operation and
//! implementation in a Criterion function name, the payload and variant that names imply, and
//! the join keys in a dhat file name.
use vstd::prelude::*;

use crate::exercises::command::{parse_usize, usize_written};
use crate::exercises::names::{lemma_name_order, name_is, name_is_less, name_less};
use crate::exercises::text::{decimal_text, usize_text};
use crate::xtask::bench_runner::{bench_row, BenchKind, BENCH_COUNT, has_infix, infix_at, infix_here, lower_text, lowercase, text_contains};
use vstd::utf8::encode_utf8;

verus! {

/// `p` is a prefix of `s`.
pub open spec fn starts_with(s: Seq<char>, p: Seq<char>) -> bool {
    p.len() <= s.len() && s.take(p.len() as int) == p
}

/// Whether `p` is a prefix of `s`.
pub fn text_starts_with(s: &str, p: &str) -> (r: bool)
    ensures
        r == starts_with(s@, p@),
{
    let n = s.unicode_len();
    let m = p.unicode_len();
    if m > n {
        return false;
    }
    let r = infix_here(s, p, 0, m);
    proof {
        assert(s@.subrange(0, m as int) =~= s@.take(m as int));
    }
    r
}

/// The operations that a Criterion function name may start with, in the order they are tried.
pub open spec fn operation_prefix(i: int) -> Seq<char> {
    if i == 0 {
        "contains_temporal"@
    } else if i == 1 {
        "contains_zipf"@
    } else if i == 2 {
        "contains_mixed"@
    } else if i == 3 {
        "contains"@
    } else if i == 4 {
        "push_pop"@
    } else if i == 5 {
        "bulk_insert"@
    } else if i == 6 {
        "insert"@
    } else if i == 7 {
        "remove"@
    } else if i == 8 {
        "mix"@
    } else {
        "thrash"@
    }
}

fn operation_prefix_text(i: usize) -> (r: &'static str)
    requires
        i < 10,
    ensures
        r@ == operation_prefix(i as int),
{
    match i {
        0 => "contains_temporal",
        1 => "contains_zipf",
        2 => "contains_mixed",
        3 => "contains",
        4 => "push_pop",
        5 => "bulk_insert",
        6 => "insert",
        7 => "remove",
        8 => "mix",
        _ => "thrash",
    }
}

/// The operation and implementation in a function name, trying the prefixes from `i` on: the
/// first prefix that is followed by `_` gives the operation, and the rest the implementation.
pub open spec fn taxonomy_from(f: Seq<char>, i: int) -> (Seq<char>, Seq<char>)
    decreases 10 - i,
{
    if i >= 10 {
        ("unknown"@, f)
    } else {
        let p = operation_prefix(i);
        if starts_with(f, p) && p.len() < f.len() && f[p.len() as int] == '_' {
            (p, f.skip(p.len() as int + 1))
        } else {
            taxonomy_from(f, i + 1)
        }
    }
}

/// The operations that benchmark function names are built from.
pub open spec fn known_operation(p: Seq<char>) -> bool {
    ||| p == "contains"@
    ||| p == "contains_mixed"@
    ||| p == "contains_temporal"@
    ||| p == "contains_zipf"@
    ||| p == "push_pop"@
    ||| p == "bulk_insert"@
    ||| p == "insert"@
    ||| p == "remove"@
    ||| p == "mix"@
    ||| p == "thrash"@
}

/// The name `f` starts with the operation `p` followed by `_`.
pub open spec fn named_after(f: Seq<char>, p: Seq<char>) -> bool {
    starts_with(f, p + "_"@)
}

/// A text that differs from `p` at `k`, or is shorter than `p`, does not start with `p`.
proof fn lemma_not_prefix(s: Seq<char>, p: Seq<char>, k: int)
    requires
        p.len() > s.len() || (0 <= k < p.len() && k < s.len() && s[k] != p[k]),
    ensures
        !starts_with(s, p),
{
    if starts_with(s, p) {
        assert(s.take(p.len() as int)[k] == s[k]);
    }
}

/// Two prefixes of one text: the shorter is a prefix of the longer.
proof fn lemma_prefix_of_prefix(f: Seq<char>, a: Seq<char>, b: Seq<char>)
    requires
        starts_with(f, a),
        starts_with(f, b),
        a.len() <= b.len(),
    ensures
        starts_with(b, a),
{
    assert(b.take(a.len() as int) =~= f.take(a.len() as int));
}

/// `operation_prefix(i)` followed by `_` starts `f` exactly when the scan's test at `i` holds.
proof fn lemma_named_after_test(f: Seq<char>, p: Seq<char>)
    ensures
        named_after(f, p) <==> (starts_with(f, p) && p.len() < f.len() && f[p.len() as int] == '_'),
{
    reveal_strlit("_");
    let n = p.len() as int;
    let q = p + "_"@;
    assert(q.len() == n + 1);
    assert(q[n] == '_');
    assert(q.take(n) =~= p);
    if named_after(f, p) {
        assert(f.take(n + 1) == q);
        assert(f.take(n) =~= f.take(n + 1).take(n));
        assert(f.take(n + 1)[n] == f[n]);
    }
    if starts_with(f, p) && p.len() < f.len() && f[p.len() as int] == '_' {
        assert(f.take(p.len() as int + 1) =~= p + "_"@);
    }
}

/// The scan order of the operations: they are the known operations, no two are equal, and no
/// operation followed by `_` starts an operation tried after it, so a more specific operation
/// is always tried before any operation that starts it.
proof fn lemma_operation_order()
    ensures
        forall|i: int| 0 <= i < 10 ==> known_operation(#[trigger] operation_prefix(i)),
        forall|p: Seq<char>| known_operation(p) ==> exists|i: int| 0 <= i < 10 && #[trigger] operation_prefix(i) == p,
        forall|i: int, j: int|
            0 <= i < j < 10 ==> #[trigger] operation_prefix(i) != #[trigger] operation_prefix(j) && !starts_with(
                operation_prefix(j),
                operation_prefix(i) + "_"@,
            ),
{
    reveal_strlit("contains_temporal");
    reveal_strlit("contains_zipf");
    reveal_strlit("contains_mixed");
    reveal_strlit("contains");
    reveal_strlit("push_pop");
    reveal_strlit("bulk_insert");
    reveal_strlit("insert");
    reveal_strlit("remove");
    reveal_strlit("mix");
    reveal_strlit("thrash");
    reveal_strlit("_");
    assert forall|p: Seq<char>| known_operation(p) implies exists|i: int| 0 <= i < 10 && #[trigger] operation_prefix(i) == p by {
        if p == "contains_temporal"@ {
            assert(operation_prefix(0) == p);
        } else if p == "contains_zipf"@ {
            assert(operation_prefix(1) == p);
        } else if p == "contains_mixed"@ {
            assert(operation_prefix(2) == p);
        } else if p == "contains"@ {
            assert(operation_prefix(3) == p);
        } else if p == "push_pop"@ {
            assert(operation_prefix(4) == p);
        } else if p == "bulk_insert"@ {
            assert(operation_prefix(5) == p);
        } else if p == "insert"@ {
            assert(operation_prefix(6) == p);
        } else if p == "remove"@ {
            assert(operation_prefix(7) == p);
        } else if p == "mix"@ {
            assert(operation_prefix(8) == p);
        } else {
            assert(operation_prefix(9) == p);
        }
    }
    assert forall|i: int, j: int| 0 <= i < j < 10 implies #[trigger] operation_prefix(i) != #[trigger] operation_prefix(j)
        && !starts_with(operation_prefix(j), operation_prefix(i) + "_"@) by {
        let a = operation_prefix(i);
        let b = operation_prefix(j);
        let p = a + "_"@;
        if a[0] != b[0] {
            assert(p[0] == a[0]);
            lemma_not_prefix(b, p, 0);
        } else if p.len() > b.len() {
            lemma_not_prefix(b, p, 0);
            assert(a.len() != b.len() || a[9] != b[9]);
        } else {
            assert(p[9] == a[9]);
            lemma_not_prefix(b, p, 9);
        }
    }
}

/// The scan from `i` on, when the operation at `j` names `f` and no operation tried in between
/// that also names `f` is longer, gives the operation at `j`.
proof fn lemma_scan_finds(f: Seq<char>, i: int, j: int)
    requires
        0 <= i <= j < 10,
        named_after(f, operation_prefix(j)),
        forall|k: int|
            i <= k < j && named_after(f, #[trigger] operation_prefix(k)) ==> operation_prefix(k).len()
                <= operation_prefix(j).len(),
    ensures
        taxonomy_from(f, i) == (operation_prefix(j), f.skip(operation_prefix(j).len() as int + 1)),
    decreases j - i,
{
    reveal_strlit("_");
    lemma_named_after_test(f, operation_prefix(i));
    if i < j {
        lemma_operation_order();
        let a = operation_prefix(i);
        let b = operation_prefix(j);
        if named_after(f, a) {
            lemma_prefix_of_prefix(f, a + "_"@, b + "_"@);
            assert(starts_with(b + "_"@, a + "_"@));
            if a.len() == b.len() {
                assert(a =~= b) by {
                    assert forall|k: int| 0 <= k < a.len() implies a[k] == b[k] by {
                        assert((b + "_"@).take((a + "_"@).len() as int)[k] == (a + "_"@)[k]);
                    }
                }
            } else {
                assert(a.len() <= b.len());
                assert(a.len() < b.len());
                assert(starts_with(b, a + "_"@)) by {
                    assert forall|k: int| 0 <= k < (a + "_"@).len() implies #[trigger] b.take((a + "_"@).len() as int)[k]
                        == (b + "_"@).take((a + "_"@).len() as int)[k] by {
                        assert(k < b.len());
                    }
                    assert(b.take((a + "_"@).len() as int) =~= (b + "_"@).take((a + "_"@).len() as int));
                }
            }
        }
        lemma_scan_finds(f, i + 1, j);
    }
}

/// The scan from `i` on, when no operation from `i` on names `f`, gives `unknown` and `f`.
proof fn lemma_scan_none(f: Seq<char>, i: int)
    requires
        0 <= i <= 10,
        forall|k: int| i <= k < 10 ==> !named_after(f, #[trigger] operation_prefix(k)),
    ensures
        taxonomy_from(f, i) == ("unknown"@, f),
    decreases 10 - i,
{
    if i < 10 {
        lemma_named_after_test(f, operation_prefix(i));
        lemma_scan_none(f, i + 1);
    }
}

/// Splitting a function name `<operation>_<implementation>`: the longest known operation that
/// the name starts with, followed by `_`, is the operation, and the rest the implementation; a
/// name that starts with no known operation followed by `_` is `unknown` with the whole name.
pub proof fn law_taxonomy_longest_operation(f: Seq<char>, p: Seq<char>)
    ensures
        known_operation(p) && named_after(f, p) && (forall|q: Seq<char>|
            known_operation(q) && named_after(f, q) ==> q.len() <= p.len()) ==> taxonomy_from(f, 0) == (
            p,
            f.skip(p.len() as int + 1),
        ),
        (forall|q: Seq<char>| known_operation(q) ==> !named_after(f, q)) ==> taxonomy_from(f, 0) == (
            "unknown"@,
            f,
        ),
{
    lemma_operation_order();
    if known_operation(p) && named_after(f, p) && (forall|q: Seq<char>|
        known_operation(q) && named_after(f, q) ==> q.len() <= p.len()) {
        let j = choose|j: int| 0 <= j < 10 && operation_prefix(j) == p;
        assert forall|k: int| 0 <= k < j && named_after(f, #[trigger] operation_prefix(k)) implies operation_prefix(
            k,
        ).len() <= operation_prefix(j).len() by {
            assert(known_operation(operation_prefix(k)));
        }
        lemma_scan_finds(f, 0, j);
    }
    if forall|q: Seq<char>| known_operation(q) ==> !named_after(f, q) {
        assert forall|k: int| 0 <= k < 10 implies !named_after(f, #[trigger] operation_prefix(k)) by {
            assert(known_operation(operation_prefix(k)));
        }
        lemma_scan_none(f, 0);
    }
}

/// `law_taxonomy_longest_operation` for every operation at once.
proof fn lemma_taxonomy_all(f: Seq<char>)
    ensures
        forall|p: Seq<char>|
            known_operation(p) && named_after(f, p) && (forall|q: Seq<char>|
                known_operation(q) && named_after(f, q) ==> q.len() <= p.len()) ==> taxonomy_from(f, 0) == (
                p,
                f.skip(p.len() as int + 1),
            ),
        (forall|q: Seq<char>| known_operation(q) ==> !named_after(f, q)) ==> taxonomy_from(f, 0) == ("unknown"@, f),
{
    assert forall|p: Seq<char>|
        known_operation(p) && named_after(f, p) && (forall|q: Seq<char>|
            known_operation(q) && named_after(f, q) ==> q.len() <= p.len()) implies taxonomy_from(f, 0) == (
        p,
        f.skip(p.len() as int + 1),
    ) by {
        law_taxonomy_longest_operation(f, p);
    }
    law_taxonomy_longest_operation(f, "unknown"@);
}

/// Splits a Criterion function name into its operation and its implementation, or gives
/// `unknown` and the whole name.
pub fn split_function_taxonomy(function: &str) -> (r: (String, String))
    ensures
        (r.0@, r.1@) == taxonomy_from(function@, 0),
        forall|p: Seq<char>|
            known_operation(p) && named_after(function@, p) && (forall|q: Seq<char>|
                known_operation(q) && named_after(function@, q) ==> q.len() <= p.len()) ==> r.0@ == p && r.1@
                == function@.skip(p.len() as int + 1),
        (forall|q: Seq<char>| known_operation(q) ==> !named_after(function@, q)) ==> r.0@ == "unknown"@ && r.1@
            == function@,
{
    let n = function.unicode_len();
    let mut i: usize = 0;
    while i < 10
        invariant
            n == function@.len(),
            i <= 10,
            taxonomy_from(function@, 0) == taxonomy_from(function@, i as int),
        decreases 10 - i,
    {
        let p = operation_prefix_text(i);
        let m = p.unicode_len();
        if text_starts_with(function, p) && m < n && function.get_char(m) == '_' {
            let rest = function.substring_char(m + 1, n);
            proof {
                assert(function@.subrange(m + 1, n as int) =~= function@.skip(m + 1));
            }
            proof {
                lemma_taxonomy_all(function@);
            }
            return (String::from_str(p), String::from_str(rest));
        }
        i = i + 1;
    }
    proof {
        lemma_taxonomy_all(function@);
    }
    (String::from_str("unknown"), String::from_str(function))
}

/// The payload that a text tells: `large_payload`, `string`, or `u64`.
pub open spec fn payload_named(t: Seq<char>) -> Seq<char> {
    if has_infix(t, "large_payload"@) {
        "large_payload"@
    } else if has_infix(t, "string"@) {
        "string"@
    } else {
        "u64"@
    }
}

/// The payload of a workload and function: what their lower-case text, joined by a space,
/// tells.
pub fn infer_payload(workload: &str, function: &str) -> (r: String)
    ensures
        r@ == payload_named(lowercase(workload@ + seq![' '] + function@)),
{
    proof {
        reveal_strlit(" ");
    }
    let mut blob = String::from_str(workload);
    blob.append(" ");
    blob.append(function);
    proof {
        assert(" "@ =~= seq![' ']);
        assert(blob@ =~= workload@ + seq![' '] + function@);
    }
    let blob = lower_text(blob.as_str());
    payload_of_lowered(blob.as_str())
}

/// The payload that a lower-case text tells (see `payload_named`).
pub fn payload_of_lowered(blob: &str) -> (r: String)
    ensures
        r@ == payload_named(blob@),
{
    if text_contains(blob, "large_payload") {
        String::from_str("large_payload")
    } else if text_contains(blob, "string") {
        String::from_str("string")
    } else {
        String::from_str("u64")
    }
}

/// The variant that an implementation's lower-case name tells.
pub open spec fn variant_named(t: Seq<char>) -> Seq<char> {
    if has_infix(t, "_safe"@) {
        "safe"@
    } else if has_infix(t, "_raw"@) {
        "raw"@
    } else if has_infix(t, "_arena"@) {
        "arena"@
    } else if has_infix(t, "std_"@) {
        "std"@
    } else {
        "other"@
    }
}

/// The variant of an implementation: `safe`, `raw`, `arena`, `std` or `other`.
pub fn infer_variant(implementation: &str) -> (r: String)
    ensures
        r@ == variant_named(lowercase(implementation@)),
{
    let normalized = lower_text(implementation);
    variant_of_lowered(normalized.as_str())
}

/// The variant that a lower-case implementation name tells (see `variant_named`).
pub fn variant_of_lowered(t: &str) -> (r: String)
    ensures
        r@ == variant_named(t@),
{
    if text_contains(t, "_safe") {
        String::from_str("safe")
    } else if text_contains(t, "_raw") {
        String::from_str("raw")
    } else if text_contains(t, "_arena") {
        String::from_str("arena")
    } else if text_contains(t, "std_") {
        String::from_str("std")
    } else {
        String::from_str("other")
    }
}

/// The workloads whose Callgrind names leave out the `_u64` of their payload.
pub open spec fn bare_u64_workload(w: Seq<char>) -> bool {
    ||| w == "micro_maps"@
    ||| w == "micro_heaps"@
    ||| w == "macro_read_heavy"@
    ||| w == "macro_write_heavy"@
    ||| w == "macro_thrashing"@
    ||| w == "sweep_btree_cache"@
    ||| w == "sweep_hash_collisions"@
}

/// A Callgrind workload with its `_u64` put back where the name left it out.
pub open spec fn callgrind_workload(w: Seq<char>, payload: Seq<char>) -> Seq<char> {
    if payload == "u64"@ && bare_u64_workload(w) {
        w + "_u64"@
    } else {
        w
    }
}

/// A Callgrind target is named after its workload without the `_u64` payload that its Criterion
/// and dhat results carry. For each Callgrind target of the benchmark table, the normalised
/// workload of its subcategory with payload `u64` is the workload tag its results join on:
/// `<subcategory>_u64` where the table lists that tag, the subcategory itself where it lists
/// that. Any other payload leaves a workload as it is.
pub proof fn law_callgrind_workload_joins(i: int, w: Seq<char>, payload: Seq<char>)
    ensures
        0 <= i < BENCH_COUNT && bench_row(i).1 == BenchKind::Callgrind && bench_row(i).4.contains(
            bench_row(i).3 + "_u64"@,
        ) ==> callgrind_workload(bench_row(i).3, "u64"@) == bench_row(i).3 + "_u64"@,
        0 <= i < BENCH_COUNT && bench_row(i).1 == BenchKind::Callgrind && bench_row(i).4.contains(
            bench_row(i).3,
        ) ==> callgrind_workload(bench_row(i).3, "u64"@) == bench_row(i).3,
        payload != "u64"@ ==> callgrind_workload(w, payload) == w,
{
    reveal_strlit("_u64");
    reveal_strlit("u64");
    reveal_strlit("micro_maps");
    reveal_strlit("micro_maps_u64");
    reveal_strlit("micro_maps_strings");
    reveal_strlit("micro_maps_large_payload");
    reveal_strlit("micro_sequences");
    reveal_strlit("micro_heaps");
    reveal_strlit("micro_heaps_u64");
    reveal_strlit("macro_read_heavy");
    reveal_strlit("macro_read_heavy_u64");
    reveal_strlit("macro_write_heavy");
    reveal_strlit("macro_write_heavy_u64");
    reveal_strlit("macro_thrashing");
    reveal_strlit("macro_thrashing_u64");
    reveal_strlit("sweep_btree_cache");
    reveal_strlit("sweep_btree_cache_u64");
    reveal_strlit("sweep_hash_collisions");
    reveal_strlit("sweep_hash_collisions_u64");
    if 0 <= i < BENCH_COUNT && bench_row(i).1 == BenchKind::Callgrind {
        let r = bench_row(i);
        assert(18 <= i);
        assert(r.3 + "_u64"@ != r.3);
        if i == 19 {
            assert(r.4 == seq!["micro_sequences"@]);
            assert(r.3 == "micro_sequences"@);
            assert(r.3 != "macro_thrashing"@) by {
                assert(r.3[1] != "macro_thrashing"@[1]);
            }
            assert(r.3.len() != "micro_maps"@.len() && r.3.len() != "micro_heaps"@.len() && r.3.len()
                != "macro_read_heavy"@.len() && r.3.len() != "macro_write_heavy"@.len() && r.3.len()
                != "sweep_btree_cache"@.len() && r.3.len() != "sweep_hash_collisions"@.len());
            assert(!bare_u64_workload(r.3));
            assert(!r.4.contains(r.3 + "_u64"@)) by {
                assert(r.4[0] != r.3 + "_u64"@);
            }
        } else {
            assert(bare_u64_workload(r.3));
            assert(!r.4.contains(r.3)) by {
                if i == 18 {
                    assert(r.4[0] != r.3 && r.4[1] != r.3 && r.4[2] != r.3);
                } else {
                    assert(r.4.len() == 1 && r.4[0] != r.3);
                }
            }
        }
    }
}

/// Puts the `_u64` back into a Callgrind workload name that leaves it out.
pub fn normalize_callgrind_workload(workload: &str, payload: &str) -> (r: String)
    ensures
        r@ == callgrind_workload(workload@, payload@),
{
    let bare = name_is(workload, "micro_maps") || name_is(workload, "micro_heaps") || name_is(
        workload,
        "macro_read_heavy",
    ) || name_is(workload, "macro_write_heavy") || name_is(workload, "macro_thrashing")
        || name_is(workload, "sweep_btree_cache") || name_is(workload, "sweep_hash_collisions");
    if name_is(payload, "u64") && bare {
        let mut r = String::from_str(workload);
        r.append("_u64");
        r
    } else {
        String::from_str(workload)
    }
}

/// The keys that join the results of the three kinds of benchmark for one operation.
#[derive(Clone, Debug)]
pub struct JoinKeys {
    pub workload: String,
    pub payload: String,
    pub operation: String,
    pub implementation: String,
    pub size: usize,
    pub variant: String,
    pub join_key: String,
}

/// Join keys as plain values: workload, payload, operation, implementation, size, variant and
/// the joined key.
pub type JoinModel = (Seq<char>, Seq<char>, Seq<char>, Seq<char>, usize, Seq<char>, Seq<char>);

impl View for JoinKeys {
    type V = JoinModel;

    open spec fn view(&self) -> JoinModel {
        (
            self.workload@,
            self.payload@,
            self.operation@,
            self.implementation@,
            self.size,
            self.variant@,
            self.join_key@,
        )
    }
}

/// The joined key: `workload=..|payload=..|op=..|impl=..|size=..|variant=..`.
pub open spec fn join_key_text(
    w: Seq<char>,
    p: Seq<char>,
    o: Seq<char>,
    i: Seq<char>,
    size: usize,
    v: Seq<char>,
) -> Seq<char> {
    "workload="@ + w + "|payload="@ + p + "|op="@ + o + "|impl="@ + i + "|size="@ + decimal_text(
        size as int,
    ) + "|variant="@ + v
}

/// The join keys of an operation.
pub fn build_join_keys(
    workload: &str,
    payload: &str,
    operation: &str,
    implementation: &str,
    size: usize,
    variant: &str,
) -> (r: JoinKeys)
    ensures
        r@ == (
            workload@,
            payload@,
            operation@,
            implementation@,
            size,
            variant@,
            join_key_text(workload@, payload@, operation@, implementation@, size, variant@),
        ),
{
    let mut key = String::from_str("workload=");
    key.append(workload);
    key.append("|payload=");
    key.append(payload);
    key.append("|op=");
    key.append(operation);
    key.append("|impl=");
    key.append(implementation);
    key.append("|size=");
    let s = usize_text(size);
    key.append(s.as_str());
    key.append("|variant=");
    key.append(variant);
    JoinKeys {
        workload: String::from_str(workload),
        payload: String::from_str(payload),
        operation: String::from_str(operation),
        implementation: String::from_str(implementation),
        size,
        variant: String::from_str(variant),
        join_key: key,
    }
}

/// `ps` with `x` put before its first piece.
pub open spec fn prepend_first(x: Seq<char>, ps: Seq<Seq<char>>) -> Seq<Seq<char>> {
    ps.update(0, x + ps[0])
}

/// The pieces of `s` between the `__` separators, found from left to right without overlap,
/// empty ones included, as `split("__")` gives them.
pub open spec fn split_pairs(s: Seq<char>) -> Seq<Seq<char>>
    decreases s.len(),
{
    if s.len() == 0 {
        seq![Seq::empty()]
    } else if s.len() >= 2 && s[0] == '_' && s[1] == '_' {
        seq![Seq::<char>::empty()] + split_pairs(s.skip(2))
    } else {
        prepend_first(seq![s[0]], split_pairs(s.skip(1)))
    }
}

proof fn lemma_split_pairs_len(s: Seq<char>)
    ensures
        split_pairs(s).len() >= 1,
    decreases s.len(),
{
    if s.len() >= 2 && s[0] == '_' && s[1] == '_' {
        lemma_split_pairs_len(s.skip(2));
    } else if s.len() > 0 {
        lemma_split_pairs_len(s.skip(1));
    }
}

/// The fields that the segments of a dhat file name set: workload, payload, operation,
/// implementation and size.
pub type DhatFields = (
    Option<Seq<char>>,
    Option<Seq<char>>,
    Option<Seq<char>>,
    Option<Seq<char>>,
    Option<usize>,
);

/// One segment of a dhat file name applied to the fields: `workload_`, `payload_`, `op_`,
/// `impl_` and `size_` set a field to what follows; other segments change nothing.
pub open spec fn apply_segment(f: DhatFields, seg: Seq<char>) -> DhatFields {
    if starts_with(seg, "workload_"@) {
        (Some(seg.skip(9)), f.1, f.2, f.3, f.4)
    } else if starts_with(seg, "payload_"@) {
        (f.0, Some(seg.skip(8)), f.2, f.3, f.4)
    } else if starts_with(seg, "op_"@) {
        (f.0, f.1, Some(seg.skip(3)), f.3, f.4)
    } else if starts_with(seg, "impl_"@) {
        (f.0, f.1, f.2, Some(seg.skip(5)), f.4)
    } else if starts_with(seg, "size_"@) {
        (f.0, f.1, f.2, f.3, usize_written(encode_utf8(seg.skip(5))))
    } else {
        f
    }
}

/// The segments applied in order.
pub open spec fn apply_segments(f: DhatFields, segs: Seq<Seq<char>>) -> DhatFields
    decreases segs.len(),
{
    if segs.len() == 0 {
        f
    } else {
        apply_segments(apply_segment(f, segs[0]), segs.drop_first())
    }
}

/// The fields that the `__` segments of `stem` set, applied from left to right (see
/// `apply_segments`).
pub fn segment_fields(stem: &str) -> (r: (
    Option<String>,
    Option<String>,
    Option<String>,
    Option<String>,
    Option<usize>,
))
    ensures
        (
            crate::xtask::bench_runner::text_opt(r.0),
            crate::xtask::bench_runner::text_opt(r.1),
            crate::xtask::bench_runner::text_opt(r.2),
            crate::xtask::bench_runner::text_opt(r.3),
            r.4,
        ) == apply_segments((None, None, None, None, None), split_pairs(stem@)),
{
    let n = stem.unicode_len();
    let ghost st = stem@;
    let mut b = DhatFieldsBuilder {
        workload: None,
        payload: None,
        operation: None,
        implementation: None,
        size: None,
    };
    let ghost goal = apply_segments((None, None, None, None, None), split_pairs(st));
    let mut start: usize = 0;
    let mut i: usize = 0;
    proof {
        lemma_split_pairs_len(st);
        assert(st.subrange(0, 0) =~= Seq::<char>::empty());
        assert(st.skip(0) =~= st);
        assert(prepend_first(Seq::<char>::empty(), split_pairs(st)) =~= split_pairs(st));
    }
    while i < n
        invariant
            n == st.len(),
            st == stem@,
            start <= i <= n,
            goal == apply_segments(
                b.fields(),
                prepend_first(st.subrange(start as int, i as int), split_pairs(st.skip(i as int))),
            ),
        decreases n - i,
    {
        let ghost rest = st.skip(i as int);
        let ghost cur = st.subrange(start as int, i as int);
        proof {
            lemma_split_pairs_len(rest);
        }
        if i + 1 < n && stem.get_char(i) == '_' && stem.get_char(i + 1) == '_' {
            let seg = stem.substring_char(start, i);
            b.apply(seg);
            proof {
                let later = split_pairs(st.skip(i + 2));
                lemma_split_pairs_len(st.skip(i + 2));
                assert(rest.skip(2) =~= st.skip(i + 2));
                assert(split_pairs(rest) == seq![Seq::<char>::empty()] + later);
                assert(prepend_first(cur, split_pairs(rest)) =~= seq![cur] + later);
                assert((seq![cur] + later).drop_first() =~= later);
                assert(prepend_first(Seq::<char>::empty(), later) =~= later);
                assert(st.subrange(i + 2, i + 2) =~= Seq::<char>::empty());
            }
            start = i + 2;
            i = i + 2;
        } else {
            proof {
                let later = split_pairs(st.skip(i + 1));
                lemma_split_pairs_len(st.skip(i + 1));
                assert(rest.skip(1) =~= st.skip(i + 1));
                assert(rest[0] == st[i as int]);
                if i + 1 < n {
                    assert(rest[1] == st[i + 1]);
                }
                assert(split_pairs(rest) == prepend_first(seq![st[i as int]], later));
                assert(st.subrange(start as int, i + 1) =~= cur.push(st[i as int]));
                assert(cur + (seq![st[i as int]] + later[0]) =~= cur.push(st[i as int]) + later[0]);
                assert(prepend_first(cur, split_pairs(rest)) =~= prepend_first(
                    st.subrange(start as int, i + 1),
                    later,
                ));
            }
            i = i + 1;
        }
    }
    let seg = stem.substring_char(start, n);
    let ghost bf = b.fields();
    proof {
        assert(st.skip(n as int) =~= Seq::<char>::empty());
        let last = st.subrange(start as int, n as int);
        assert(prepend_first(last, seq![Seq::<char>::empty()]) =~= seq![last]);
        assert(seq![last].drop_first() =~= Seq::<Seq<char>>::empty());
        assert(goal == apply_segments(bf, seq![last]));
        assert(apply_segments(bf, seq![last]) == apply_segments(
            apply_segment(bf, last),
            Seq::<Seq<char>>::empty(),
        ));
    }
    b.apply(seg);
    proof {
        assert(goal == b.fields());
    }
    let DhatFieldsBuilder { workload, payload, operation, implementation, size } = b;
    (workload, payload, operation, implementation, size)
}

/// The join keys that a dhat file name holds: a name that starts with `dhat__`, less a `.json`
/// ending, split at `__` into segments that give the workload, operation and implementation
/// (all three needed) and the payload (`u64` when absent) and size (0 when absent or not a
/// number); the variant follows from the implementation.
pub open spec fn dhat_join_of(name: Seq<char>) -> Option<JoinModel> {
    if !starts_with(name, "dhat__"@) {
        None
    } else {
        let stem = if name.len() >= 5 && name.skip(name.len() - 5) == ".json"@ {
            name.take(name.len() - 5)
        } else {
            name
        };
        let f = apply_segments((None, None, None, None, None), split_pairs(stem));
        if f.0 is Some && f.2 is Some && f.3 is Some {
            let w = f.0->0;
            let p = match f.1 {
                Some(x) => x,
                None => "u64"@,
            };
            let o = f.2->0;
            let i = f.3->0;
            let size = match f.4 {
                Some(n) => n,
                None => 0,
            };
            let v = variant_named(lowercase(i));
            Some((w, p, o, i, size, v, join_key_text(w, p, o, i, size, v)))
        } else {
            None
        }
    }
}

/// The fields of a dhat file name, gathered segment by segment.
struct DhatFieldsBuilder {
    workload: Option<String>,
    payload: Option<String>,
    operation: Option<String>,
    implementation: Option<String>,
    size: Option<usize>,
}

impl DhatFieldsBuilder {
    spec fn fields(&self) -> DhatFields {
        (
            crate::xtask::bench_runner::text_opt(self.workload),
            crate::xtask::bench_runner::text_opt(self.payload),
            crate::xtask::bench_runner::text_opt(self.operation),
            crate::xtask::bench_runner::text_opt(self.implementation),
            self.size,
        )
    }

    fn apply(&mut self, seg: &str)
        ensures
            final(self).fields() == apply_segment(old(self).fields(), seg@),
    {
        let n = seg.unicode_len();
        if text_starts_with(seg, "workload_") {
            proof {
                reveal_strlit("workload_");
                assert(seg@.subrange(9, n as int) =~= seg@.skip(9));
            }
            self.workload = Some(String::from_str(seg.substring_char(9, n)));
        } else if text_starts_with(seg, "payload_") {
            proof {
                reveal_strlit("payload_");
                assert(seg@.subrange(8, n as int) =~= seg@.skip(8));
            }
            self.payload = Some(String::from_str(seg.substring_char(8, n)));
        } else if text_starts_with(seg, "op_") {
            proof {
                reveal_strlit("op_");
                assert(seg@.subrange(3, n as int) =~= seg@.skip(3));
            }
            self.operation = Some(String::from_str(seg.substring_char(3, n)));
        } else if text_starts_with(seg, "impl_") {
            proof {
                reveal_strlit("impl_");
                assert(seg@.subrange(5, n as int) =~= seg@.skip(5));
            }
            self.implementation = Some(String::from_str(seg.substring_char(5, n)));
        } else if text_starts_with(seg, "size_") {
            proof {
                reveal_strlit("size_");
                assert(seg@.subrange(5, n as int) =~= seg@.skip(5));
            }
            self.size = parse_usize(seg.substring_char(5, n));
        }
    }
}

/// The join keys that a dhat file name holds (see `dhat_join_of`).
pub fn parse_dhat_join(name: &str) -> (r: Option<JoinKeys>)
    ensures
        match r {
            Some(j) => dhat_join_of(name@) == Some(j@),
            None => dhat_join_of(name@) is None,
        },
{
    if !text_starts_with(name, "dhat__") {
        return None;
    }
    proof {
        reveal_strlit(".json");
    }
    let total = name.unicode_len();
    let mut n = total;
    if total >= 5 && infix_here(name, ".json", total - 5, 5) {
        n = total - 5;
    }
    proof {
        reveal_strlit(".json");
        assert(name@.subrange(total - 5, total as int) =~= name@.skip(total - 5)) by {
            if total >= 5 {
            }
        };
    }
    let stem = name.substring_char(0, n);
    let ghost st = stem@;
    proof {
        if n == total {
            assert(st =~= name@);
        } else {
            assert(st =~= name@.take(n as int));
        }
    }
    let (workload, payload, operation, implementation, size) = segment_fields(stem);
    proof {
        let stem_spec = if name@.len() >= 5 && name@.skip(name@.len() - 5) == ".json"@ {
            name@.take(name@.len() - 5)
        } else {
            name@
        };
        assert(stem_spec == st);
    }
    match (workload, operation, implementation) {
        (Some(w), Some(o), Some(im)) => {
            let p = match payload {
                Some(x) => x,
                None => String::from_str("u64"),
            };
            let z = match size {
                Some(x) => x,
                None => 0,
            };
            let v = infer_variant(im.as_str());
            Some(build_join_keys(w.as_str(), p.as_str(), o.as_str(), im.as_str(), z, v.as_str()))
        },
        _ => None,
    }
}

/// How many measurements of each kind an operation group gathered, under its join key.
pub struct OperationTally {
    pub join_key: String,
    pub criterion: usize,
    pub callgrind: usize,
    pub dhat: usize,
}

/// A tally as plain values: join key and the three counts.
pub type TallyModel = (Seq<char>, usize, usize, usize);

impl View for OperationTally {
    type V = TallyModel;

    open spec fn view(&self) -> TallyModel {
        (self.join_key@, self.criterion, self.callgrind, self.dhat)
    }
}

/// The tallies as plain values.
pub open spec fn tally_views(ts: Seq<OperationTally>) -> Seq<TallyModel> {
    ts.map_values(|t: OperationTally| t@)
}

/// A group has exactly one measurement of each kind.
pub open spec fn tally_ok(t: TallyModel) -> bool {
    t.1 == 1 && t.2 == 1 && t.3 == 1
}

/// The groups that break the one-to-one-to-one mapping, in order.
pub open spec fn violations(ts: Seq<TallyModel>) -> Seq<TallyModel>
    decreases ts.len(),
{
    if ts.len() == 0 {
        Seq::empty()
    } else if tally_ok(ts.last()) {
        violations(ts.drop_last())
    } else {
        violations(ts.drop_last()).push(ts.last())
    }
}

/// The line that reports one group.
pub open spec fn violation_line(t: TallyModel) -> Seq<char> {
    "\n- "@ + t.0 + ": criterion="@ + decimal_text(t.1 as int) + ", callgrind="@ + decimal_text(
        t.2 as int,
    ) + ", dhat="@ + decimal_text(t.3 as int)
}

/// The lines that report groups.
pub open spec fn violation_lines(vs: Seq<TallyModel>) -> Seq<char>
    decreases vs.len(),
{
    if vs.len() == 0 {
        Seq::empty()
    } else {
        violation_lines(vs.drop_last()) + violation_line(vs.last())
    }
}

/// The message for groups that break the mapping: their number, the first twenty of them, and
/// how many more there are.
pub open spec fn strict_mapping_message(vs: Seq<TallyModel>) -> Seq<char> {
    let shown = if vs.len() > 20 {
        vs.take(20)
    } else {
        vs
    };
    let more = if vs.len() > 20 {
        "\n- ... and "@ + decimal_text(vs.len() - 20) + " more"@
    } else {
        Seq::empty()
    };
    "aggregation requires strict 1:1:1 mapping (criterion/callgrind/dhat). found "@ + decimal_text(
        vs.len() as int,
    ) + " invalid operation groups:"@ + violation_lines(shown) + more
}

/// The strict check accepts the groups exactly when each has one Criterion, one Callgrind and
/// one dhat measurement: every group with any other count of any kind is reported, and only
/// such groups are.
pub proof fn law_strict_mapping_needs_all_three(ts: Seq<TallyModel>)
    ensures
        violations(ts).len() == 0 <==> (forall|i: int|
            0 <= i < ts.len() ==> ts[i].1 == 1 && ts[i].2 == 1 && ts[i].3 == 1),
        forall|i: int|
            0 <= i < ts.len() && !(ts[i].1 == 1 && ts[i].2 == 1 && ts[i].3 == 1) ==> violations(
                ts,
            ).contains(ts[i]),
        forall|t: TallyModel| #[trigger]
            violations(ts).contains(t) ==> ts.contains(t) && !(t.1 == 1 && t.2 == 1 && t.3 == 1),
    decreases ts.len(),
{
    if ts.len() > 0 {
        let init = ts.drop_last();
        law_strict_mapping_needs_all_three(init);
        assert forall|i: int| 0 <= i < init.len() implies #[trigger] init[i] == ts[i] by {}
        let v0 = violations(init);
        let l = ts.last();
        if !(l.1 == 1 && l.2 == 1 && l.3 == 1) {
            assert(violations(ts) == v0.push(l));
            assert(violations(ts)[v0.len() as int] == l);
            assert forall|i: int|
                0 <= i < ts.len() && !(ts[i].1 == 1 && ts[i].2 == 1 && ts[i].3 == 1) implies violations(
                    ts,
                ).contains(ts[i]) by {
                if i < init.len() {
                    assert(v0.contains(init[i]));
                    let k = choose|k: int| 0 <= k < v0.len() && v0[k] == init[i];
                    assert(violations(ts)[k] == v0[k]);
                }
            }
            assert forall|t: TallyModel| #[trigger] violations(ts).contains(t) implies ts.contains(t) && !(
            t.1 == 1 && t.2 == 1 && t.3 == 1) by {
                let k = choose|k: int| 0 <= k < violations(ts).len() && violations(ts)[k] == t;
                if k < v0.len() {
                    assert(v0[k] == t);
                    assert(v0.contains(t));
                    let m = choose|m: int| 0 <= m < init.len() && init[m] == t;
                    assert(ts[m] == t);
                } else {
                    assert(ts[ts.len() - 1] == t);
                }
            }
        } else {
            assert(violations(ts) == v0);
            assert forall|i: int|
                0 <= i < ts.len() && !(ts[i].1 == 1 && ts[i].2 == 1 && ts[i].3 == 1) implies violations(
                    ts,
                ).contains(ts[i]) by {
                if i < init.len() {
                    assert(v0.contains(init[i]));
                }
            }
            assert forall|t: TallyModel| #[trigger] violations(ts).contains(t) implies ts.contains(t) && !(
            t.1 == 1 && t.2 == 1 && t.3 == 1) by {
                assert(v0.contains(t));
                let m = choose|m: int| 0 <= m < init.len() && init[m] == t;
                assert(ts[m] == t);
            }
        }
        if violations(ts).len() == 0 {
            assert forall|i: int| 0 <= i < ts.len() implies ts[i].1 == 1 && ts[i].2 == 1 && ts[i].3 == 1 by {
                if !(ts[i].1 == 1 && ts[i].2 == 1 && ts[i].3 == 1) {
                    assert(violations(ts).contains(ts[i]));
                }
            }
        }
        if forall|i: int| 0 <= i < ts.len() ==> ts[i].1 == 1 && ts[i].2 == 1 && ts[i].3 == 1 {
            assert(l == ts[ts.len() - 1]);
            assert forall|i: int| 0 <= i < init.len() implies init[i].1 == 1 && init[i].2 == 1 && init[i].3 == 1 by {
                assert(init[i] == ts[i]);
            }
        }
    }
}

/// Checks that every operation group has one Criterion, one Callgrind and one dhat measurement;
/// otherwise reports the groups that do not.
pub fn ensure_strict_one_to_one_to_one(operations: &[OperationTally]) -> (r: Result<(), String>)
    ensures
        r is Ok <==> (forall|i: int|
            0 <= i < operations@.len() ==> operations@[i].criterion == 1 && operations@[i].callgrind == 1
                && operations@[i].dhat == 1),
        match r {
            Ok(()) => violations(tally_views(operations@)).len() == 0,
            Err(e) => violations(tally_views(operations@)).len() > 0 && e@ == strict_mapping_message(
                violations(tally_views(operations@)),
            ),
        },
{
    let ghost all = tally_views(operations@);
    let mut bad: Vec<usize> = Vec::new();
    let mut i: usize = 0;
    while i < operations.len()
        invariant
            all == tally_views(operations@),
            i <= operations@.len(),
            bad@.len() == violations(all.take(i as int)).len(),
            forall|j: int|
                0 <= j < bad@.len() ==> #[trigger] bad@[j] < operations@.len() && operations@[bad@[j] as int]@ == violations(all.take(i as int))[j],
        decreases operations@.len() - i,
    {
        let o = &operations[i];
        proof {
            assert(all.take(i + 1).drop_last() =~= all.take(i as int));
            assert(all.take(i + 1).last() == o@);
        }
        let ghost vi = violations(all.take(i as int));
        let ghost b0 = bad@;
        if !(o.criterion == 1 && o.callgrind == 1 && o.dhat == 1) {
            bad.push(i);
            proof {
                assert(violations(all.take(i + 1)) == vi.push(o@));
                assert forall|j: int| 0 <= j < bad@.len() implies #[trigger] bad@[j]
                    < operations@.len() && operations@[bad@[j] as int]@ == violations(
                    all.take(i + 1),
                )[j] by {
                    if j < bad@.len() - 1 {
                        assert(bad@[j] == b0[j]);
                    }
                }
            }
        } else {
            proof {
                assert(violations(all.take(i + 1)) == vi);
            }
        }
        i = i + 1;
    }
    proof {
        assert(all.take(operations@.len() as int) =~= all);
    }
    let ghost vs = violations(all);
    proof {
        law_strict_mapping_needs_all_three(all);
        assert forall|i: int| 0 <= i < operations@.len() implies #[trigger] all[i] == operations@[i]@ by {}
    }
    if bad.len() == 0 {
        proof {
            assert forall|i: int| 0 <= i < operations@.len() implies operations@[i].criterion == 1
                && operations@[i].callgrind == 1 && operations@[i].dhat == 1 by {
                assert(all[i] == operations@[i]@);
            }
        }
        return Ok(());
    }
    proof {
        reveal_strlit("\n- ");
        reveal_strlit(": criterion=");
        reveal_strlit(", callgrind=");
        reveal_strlit(", dhat=");
    }
    let mut preview = String::new();
    let shown: usize = if bad.len() > 20 {
        20
    } else {
        bad.len()
    };
    let mut k: usize = 0;
    while k < shown
        invariant
            shown <= bad@.len(),
            bad@.len() == vs.len(),
            forall|j: int|
                0 <= j < bad@.len() ==> #[trigger] bad@[j] < operations@.len() && operations@[bad@[j] as int]@ == vs[j],
            k <= shown,
            preview@ == violation_lines(vs.take(k as int)),
        decreases shown - k,
    {
        let o = &operations[bad[k]];
        preview.append("\n- ");
        preview.append(o.join_key.as_str());
        preview.append(": criterion=");
        preview.append(usize_text(o.criterion).as_str());
        preview.append(", callgrind=");
        preview.append(usize_text(o.callgrind).as_str());
        preview.append(", dhat=");
        preview.append(usize_text(o.dhat).as_str());
        proof {
            assert(o@ == vs[k as int]);
            assert(vs.take(k + 1).drop_last() =~= vs.take(k as int));
            assert(preview@ =~= violation_lines(vs.take(k + 1)));
        }
        k = k + 1;
    }
    proof {
        if vs.len() <= 20 {
            assert(vs.take(vs.len() as int) =~= vs);
        }
    }
    if bad.len() > 20 {
        preview.append("\n- ... and ");
        preview.append(usize_text(bad.len() - 20).as_str());
        preview.append(" more");
    }
    let mut msg = String::from_str(
        "aggregation requires strict 1:1:1 mapping (criterion/callgrind/dhat). found ",
    );
    msg.append(usize_text(bad.len()).as_str());
    msg.append(" invalid operation groups:");
    msg.append(preview.as_str());
    proof {
        assert(msg@ =~= strict_mapping_message(vs));
    }
    Err(msg)
}

/// How many texts of `s` are `k`.
pub open spec fn count_text(s: Seq<Seq<char>>, k: Seq<char>) -> nat
    decreases s.len(),
{
    if s.len() == 0 {
        0
    } else {
        count_text(s.drop_last(), k) + if s.last() == k {
            1nat
        } else {
            0nat
        }
    }
}

/// How many entries of `s` hold the text `k`.
pub open spec fn count_opt(s: Seq<Option<Seq<char>>>, k: Seq<char>) -> nat
    decreases s.len(),
{
    if s.len() == 0 {
        0
    } else {
        count_opt(s.drop_last(), k) + if s.last() == Some(k) {
            1nat
        } else {
            0nat
        }
    }
}

/// The join keys of a list of records, present or not.
pub open spec fn opt_texts(v: Seq<Option<String>>) -> Seq<Option<Seq<char>>> {
    v.map_values(|o: Option<String>| crate::xtask::bench_runner::text_opt(o))
}

/// The tallies of the join keys seen in `c` (Criterion), `g` (Callgrind) and `d` (dhat):
/// ordered by join key without repeats, each with the number of records of each kind under
/// its key, and a tally for every key that some record has.
pub open spec fn tallies_of(
    t: Seq<TallyModel>,
    c: Seq<Seq<char>>,
    g: Seq<Option<Seq<char>>>,
    d: Seq<Option<Seq<char>>>,
) -> bool {
    &&& forall|i: int, j: int| 0 <= i < j < t.len() ==> name_less(#[trigger] t[i].0, #[trigger] t[j].0)
    &&& forall|i: int|
        0 <= i < t.len() ==> (#[trigger] t[i]).1 == count_text(c, t[i].0) && t[i].2 == count_opt(
            g,
            t[i].0,
        ) && t[i].3 == count_opt(d, t[i].0)
    &&& forall|k: Seq<char>|
        count_text(c, k) > 0 || count_opt(g, k) > 0 || count_opt(d, k) > 0 ==> exists|i: int|
            0 <= i < t.len() && (#[trigger] t[i]).0 == k
}

proof fn lemma_count_text_le(s: Seq<Seq<char>>, k: Seq<char>)
    ensures
        count_text(s, k) <= s.len(),
    decreases s.len(),
{
    if s.len() > 0 {
        lemma_count_text_le(s.drop_last(), k);
    }
}

proof fn lemma_count_opt_le(s: Seq<Option<Seq<char>>>, k: Seq<char>)
    ensures
        count_opt(s, k) <= s.len(),
    decreases s.len(),
{
    if s.len() > 0 {
        lemma_count_opt_le(s.drop_last(), k);
    }
}

/// The list `s` after one more record of kind `kind` when `kind` is `which`.
pub open spec fn grown_text(s: Seq<Seq<char>>, kind: u8, key: Seq<char>) -> Seq<Seq<char>> {
    if kind == 0 {
        s.push(key)
    } else {
        s
    }
}

/// The list `s` of kind `which` after one more record of kind `kind`.
pub open spec fn grown_opt(s: Seq<Option<Seq<char>>>, kind: u8, which: u8, key: Seq<char>) -> Seq<
    Option<Seq<char>>,
> {
    if kind == which {
        s.push(Some(key))
    } else {
        s
    }
}

/// One more record changes only the counts of its own key and kind, by one.
proof fn lemma_counts_grow(
    c: Seq<Seq<char>>,
    g: Seq<Option<Seq<char>>>,
    d: Seq<Option<Seq<char>>>,
    kind: u8,
    key: Seq<char>,
)
    ensures
        forall|k: Seq<char>|
            #![trigger count_text(grown_text(c, kind, key), k)]
            count_text(grown_text(c, kind, key), k) == count_text(c, k) + (if kind == 0 && k == key {
                1int
            } else {
                0int
            }),
        forall|k: Seq<char>|
            #![trigger count_opt(grown_opt(g, kind, 1, key), k)]
            count_opt(grown_opt(g, kind, 1, key), k) == count_opt(g, k) + (if kind == 1 && k == key {
                1int
            } else {
                0int
            }),
        forall|k: Seq<char>|
            #![trigger count_opt(grown_opt(d, kind, 2, key), k)]
            count_opt(grown_opt(d, kind, 2, key), k) == count_opt(d, k) + (if kind == 2 && k == key {
                1int
            } else {
                0int
            }),
{
    if kind == 0 {
        assert(grown_text(c, kind, key).drop_last() =~= c);
    }
    if kind == 1 {
        assert(grown_opt(g, kind, 1, key).drop_last() =~= g);
    }
    if kind == 2 {
        assert(grown_opt(d, kind, 2, key).drop_last() =~= d);
    }
}

/// Counts one more record of kind `kind` (0 Criterion, 1 Callgrind, 2 dhat) under `key` in
/// the tallies of the records seen so far.
#[verifier::rlimit(60)]
fn add_record(
    out: &mut Vec<OperationTally>,
    key: &str,
    kind: u8,
    Ghost(c): Ghost<Seq<Seq<char>>>,
    Ghost(g): Ghost<Seq<Option<Seq<char>>>>,
    Ghost(d): Ghost<Seq<Option<Seq<char>>>>,
)
    requires
        kind < 3,
        tallies_of(tally_views(old(out)@), c, g, d),
        c.len() < usize::MAX,
        g.len() < usize::MAX,
        d.len() < usize::MAX,
    ensures
        tallies_of(
            tally_views(final(out)@),
            grown_text(c, kind, key@),
            grown_opt(g, kind, 1, key@),
            grown_opt(d, kind, 2, key@),
        ),
{
    let ghost o = tally_views(out@);
    let ghost c2 = grown_text(c, kind, key@);
    let ghost g2 = grown_opt(g, kind, 1, key@);
    let ghost d2 = grown_opt(d, kind, 2, key@);
    proof {
        lemma_counts_grow(c, g, d, kind, key@);
    }
    let mut p: usize = 0;
    while p < out.len()
        invariant
            o == tally_views(out@),
            p <= out@.len(),
            forall|j: int| 0 <= j < p ==> name_less(#[trigger] o[j].0, key@),
        ensures
            p <= out@.len(),
            forall|j: int| 0 <= j < p ==> name_less(#[trigger] o[j].0, key@),
            p == out@.len() || !name_less(o[p as int].0, key@),
        decreases out@.len() - p,
    {
        if !name_is_less(out[p].join_key.as_str(), key) {
            break;
        }
        p = p + 1;
    }
    if p < out.len() && name_is(out[p].join_key.as_str(), key) {
        proof {
            lemma_count_text_le(c, key@);
            lemma_count_opt_le(g, key@);
            lemma_count_opt_le(d, key@);
            assert(o[p as int] == out@[p as int]@);
        }
        let t = out.remove(p);
        let OperationTally { join_key, criterion, callgrind, dhat } = t;
        let nt = if kind == 0 {
            OperationTally { join_key, criterion: criterion + 1, callgrind, dhat }
        } else if kind == 1 {
            OperationTally { join_key, criterion, callgrind: callgrind + 1, dhat }
        } else {
            OperationTally { join_key, criterion, callgrind, dhat: dhat + 1 }
        };
        out.insert(p, nt);
        proof {
            let n = tally_views(out@);
            assert(n =~= o.update(p as int, n[p as int]));
            assert forall|i: int| 0 <= i < o.len() && i != p implies o[i].0 != key@ by {
                if i < p {
                    lemma_name_order(o[i].0, key@, key@);
                } else {
                    lemma_name_order(o[p as int].0, o[i].0, o[i].0);
                }
            }
            assert forall|k: Seq<char>|
                count_text(c2, k) > 0 || count_opt(g2, k) > 0 || count_opt(d2, k) > 0 implies exists|i: int|
                0 <= i < n.len() && (#[trigger] n[i]).0 == k by {
                if k == key@ {
                    assert(n[p as int].0 == k);
                } else {
                    assert(count_text(c, k) > 0 || count_opt(g, k) > 0 || count_opt(d, k) > 0);
                    let i = choose|i: int| 0 <= i < o.len() && (#[trigger] o[i]).0 == k;
                    assert(n[i].0 == k);
                }
            }
        }
    } else {
        proof {
            assert(p < o.len() ==> o[p as int].0 != key@ && name_less(key@, o[p as int].0)) by {
                if p < o.len() {
                    assert(o[p as int] == out@[p as int]@);
                    lemma_name_order(o[p as int].0, key@, key@);
                }
            }
            assert forall|j: int| 0 <= j < o.len() implies (#[trigger] o[j]).0 != key@ by {
                if j < p {
                    lemma_name_order(o[j].0, key@, key@);
                } else if j > p {
                    lemma_name_order(key@, o[p as int].0, o[j].0);
                    lemma_name_order(key@, o[j].0, key@);
                }
            }
            assert(count_text(c, key@) == 0 && count_opt(g, key@) == 0 && count_opt(d, key@) == 0) by {
                if count_text(c, key@) > 0 || count_opt(g, key@) > 0 || count_opt(d, key@) > 0 {
                    let i = choose|i: int| 0 <= i < o.len() && (#[trigger] o[i]).0 == key@;
                }
            }
        }
        out.insert(
            p,
            OperationTally {
                join_key: String::from_str(key),
                criterion: if kind == 0 {
                    1
                } else {
                    0
                },
                callgrind: if kind == 1 {
                    1
                } else {
                    0
                },
                dhat: if kind == 2 {
                    1
                } else {
                    0
                },
            },
        );
        proof {
            let n = tally_views(out@);
            assert(n =~= o.insert(p as int, n[p as int]));
            assert forall|i: int, j: int| 0 <= i < j < n.len() implies name_less(
                #[trigger] n[i].0,
                #[trigger] n[j].0,
            ) by {
                if i < p && j == p {
                } else if i == p && j > p {
                    if j - 1 > p {
                        lemma_name_order(key@, o[p as int].0, o[j - 1].0);
                    }
                    lemma_name_order(key@, o[p as int].0, key@);
                    lemma_name_order(o[p as int].0, key@, key@);
                    assert(key@ != o[p as int].0);
                } else if i < p && j > p {
                    assert(name_less(o[i].0, o[j - 1].0));
                } else if j < p {
                    assert(name_less(o[i].0, o[j].0));
                } else {
                    assert(name_less(o[i - 1].0, o[j - 1].0));
                }
            }
            assert forall|k: Seq<char>|
                count_text(c2, k) > 0 || count_opt(g2, k) > 0 || count_opt(d2, k) > 0 implies exists|i: int|
                0 <= i < n.len() && (#[trigger] n[i]).0 == k by {
                if k == key@ {
                    assert(n[p as int].0 == k);
                } else {
                    let i = choose|i: int| 0 <= i < o.len() && (#[trigger] o[i]).0 == k;
                    if i < p {
                        assert(n[i].0 == k);
                    } else {
                        assert(n[i + 1].0 == k);
                    }
                }
            }
        }
    }
}

/// A `None` entry changes no count.
proof fn lemma_count_none(s: Seq<Option<Seq<char>>>)
    ensures
        forall|k: Seq<char>| #[trigger] count_opt(s.push(None), k) == count_opt(s, k),
{
    assert(s.push(None).drop_last() =~= s);
}

/// The operation groups of the aggregated results: the join keys that the Criterion,
/// Callgrind and dhat records carry (a Callgrind or dhat record without join keys is left
/// out), in order of join key, each with the number of records of each kind (see
/// `tallies_of`).
pub fn tally_operations(
    criterion: &[String],
    callgrind: &[Option<String>],
    dhat: &[Option<String>],
) -> (r: Vec<OperationTally>)
    requires
        criterion@.len() < usize::MAX,
        callgrind@.len() < usize::MAX,
        dhat@.len() < usize::MAX,
    ensures
        tallies_of(
            tally_views(r@),
            crate::xtask::bench_runner::texts(criterion@),
            opt_texts(callgrind@),
            opt_texts(dhat@),
        ),
{
    let ghost c = crate::xtask::bench_runner::texts(criterion@);
    let ghost g = opt_texts(callgrind@);
    let ghost d = opt_texts(dhat@);
    let ghost none: Seq<Option<Seq<char>>> = Seq::empty();
    let mut out: Vec<OperationTally> = Vec::new();
    let mut i: usize = 0;
    proof {
        assert(c.take(0) =~= Seq::<Seq<char>>::empty());
    }
    while i < criterion.len()
        invariant
            c == crate::xtask::bench_runner::texts(criterion@),
            criterion@.len() < usize::MAX,
            i <= criterion@.len(),
            none == Seq::<Option<Seq<char>>>::empty(),
            tallies_of(tally_views(out@), c.take(i as int), none, none),
        decreases criterion@.len() - i,
    {
        add_record(&mut out, criterion[i].as_str(), 0, Ghost(c.take(i as int)), Ghost(none), Ghost(none));
        proof {
            assert(c.take(i as int).push(criterion@[i as int]@) =~= c.take(i + 1));
        }
        i = i + 1;
    }
    proof {
        assert(c.take(criterion@.len() as int) =~= c);
        assert(g.take(0) =~= none);
    }
    let mut i: usize = 0;
    while i < callgrind.len()
        invariant
            c == crate::xtask::bench_runner::texts(criterion@),
            g == opt_texts(callgrind@),
            callgrind@.len() < usize::MAX,
            c.len() < usize::MAX,
            i <= callgrind@.len(),
            none == Seq::<Option<Seq<char>>>::empty(),
            tallies_of(tally_views(out@), c, g.take(i as int), none),
        decreases callgrind@.len() - i,
    {
        proof {
            assert(g.take(i + 1) =~= g.take(i as int).push(g[i as int]));
        }
        match &callgrind[i] {
            Some(k) => {
                add_record(&mut out, k.as_str(), 1, Ghost(c), Ghost(g.take(i as int)), Ghost(none));
            },
            None => {
                proof {
                    lemma_count_none(g.take(i as int));
                }
            },
        }
        i = i + 1;
    }
    proof {
        assert(g.take(callgrind@.len() as int) =~= g);
        assert(d.take(0) =~= none);
    }
    let mut i: usize = 0;
    while i < dhat.len()
        invariant
            c == crate::xtask::bench_runner::texts(criterion@),
            g == opt_texts(callgrind@),
            d == opt_texts(dhat@),
            dhat@.len() < usize::MAX,
            c.len() < usize::MAX,
            g.len() < usize::MAX,
            i <= dhat@.len(),
            tallies_of(tally_views(out@), c, g, d.take(i as int)),
        decreases dhat@.len() - i,
    {
        proof {
            assert(d.take(i + 1) =~= d.take(i as int).push(d[i as int]));
        }
        match &dhat[i] {
            Some(k) => {
                add_record(&mut out, k.as_str(), 2, Ghost(c), Ghost(g), Ghost(d.take(i as int)));
            },
            None => {
                proof {
                    lemma_count_none(d.take(i as int));
                }
            },
        }
        i = i + 1;
    }
    proof {
        assert(d.take(dhat@.len() as int) =~= d);
    }
    out
}

} // verus!
