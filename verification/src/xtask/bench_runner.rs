//! Which benchmark targets a selection request names, and with which Criterion filter.
use vstd::prelude::*;

use crate::exercises::command::{is_ws, parse_usize, usize_written};
use crate::xtask::result_names::white_space;
use crate::exercises::names::{lemma_name_order, name_is, name_is_less, name_less};
use crate::exercises::text::{decimal_text, u64_text, usize_text};
use vstd::string::StringSliceAdditionalSpecFns;
use vstd::utf8::encode_utf8;
use crate::xtask::cli::{BenchFamily, BenchKind as CliBenchKind, Suite};

verus! {

/// The kind of a benchmark target.
#[derive(Clone, Copy, Debug, PartialEq, Eq, Structural)]
pub enum BenchKind {
    Criterion,
    Dhat,
    Callgrind,
}

/// The family of a benchmark target.
#[derive(Clone, Copy, Debug, PartialEq, Eq, Structural)]
pub enum BenchFamilyGroup {
    Micro,
    Macro,
    Sweeps,
}

/// The number of benchmark targets that the project defines.
pub const BENCH_COUNT: usize = 26;

/// A benchmark target: its name, kind, family, subcategory and the workloads it runs.
pub struct BenchSpec {
    pub target: &'static str,
    pub kind: BenchKind,
    pub family: BenchFamilyGroup,
    pub subcategory: &'static str,
    pub workload_tags: Vec<&'static str>,
}

/// A benchmark target as plain values: name, kind, family, subcategory, workloads.
pub type BenchRow = (Seq<char>, BenchKind, BenchFamilyGroup, Seq<char>, Seq<Seq<char>>);

impl BenchSpec {
    pub open spec fn row(&self) -> BenchRow {
        (
            self.target@,
            self.kind,
            self.family,
            self.subcategory@,
            self.workload_tags@.map_values(|t: &'static str| t@),
        )
    }
}

/// The benchmark target at position `i` of the project's table.
pub open spec fn bench_row(i: int) -> BenchRow {
    if i == 0 {
        (
            "micro_maps_u64_criterion"@,
            BenchKind::Criterion,
            BenchFamilyGroup::Micro,
            "micro_maps"@,
            seq!["micro_maps_u64"@],
        )
    } else if i == 1 {
        (
            "micro_maps_strings_criterion"@,
            BenchKind::Criterion,
            BenchFamilyGroup::Micro,
            "micro_maps"@,
            seq!["micro_maps_strings"@],
        )
    } else if i == 2 {
        (
            "micro_maps_large_payload_criterion"@,
            BenchKind::Criterion,
            BenchFamilyGroup::Micro,
            "micro_maps"@,
            seq!["micro_maps_large_payload"@],
        )
    } else if i == 3 {
        (
            "micro_sequences_criterion"@,
            BenchKind::Criterion,
            BenchFamilyGroup::Micro,
            "micro_sequences"@,
            seq!["micro_sequences"@],
        )
    } else if i == 4 {
        (
            "micro_heaps_criterion"@,
            BenchKind::Criterion,
            BenchFamilyGroup::Micro,
            "micro_heaps"@,
            seq!["micro_heaps_u64"@],
        )
    } else if i == 5 {
        (
            "macro_read_heavy_criterion"@,
            BenchKind::Criterion,
            BenchFamilyGroup::Macro,
            "macro_read_heavy"@,
            seq!["macro_read_heavy_u64"@],
        )
    } else if i == 6 {
        (
            "macro_write_heavy_criterion"@,
            BenchKind::Criterion,
            BenchFamilyGroup::Macro,
            "macro_write_heavy"@,
            seq!["macro_write_heavy_u64"@],
        )
    } else if i == 7 {
        (
            "macro_thrashing_criterion"@,
            BenchKind::Criterion,
            BenchFamilyGroup::Macro,
            "macro_thrashing"@,
            seq!["macro_thrashing_u64"@],
        )
    } else if i == 8 {
        (
            "sweep_btree_cache_criterion"@,
            BenchKind::Criterion,
            BenchFamilyGroup::Sweeps,
            "sweep_btree_cache"@,
            seq!["sweep_btree_cache_u64"@],
        )
    } else if i == 9 {
        (
            "sweep_hash_collisions_criterion"@,
            BenchKind::Criterion,
            BenchFamilyGroup::Sweeps,
            "sweep_hash_collisions"@,
            seq!["sweep_hash_collisions_u64"@],
        )
    } else if i == 10 {
        (
            "micro_maps_dhat"@,
            BenchKind::Dhat,
            BenchFamilyGroup::Micro,
            "micro_maps"@,
            seq!["micro_maps_u64"@, "micro_maps_strings"@, "micro_maps_large_payload"@],
        )
    } else if i == 11 {
        (
            "micro_sequences_dhat"@,
            BenchKind::Dhat,
            BenchFamilyGroup::Micro,
            "micro_sequences"@,
            seq!["micro_sequences"@],
        )
    } else if i == 12 {
        (
            "micro_heaps_dhat"@,
            BenchKind::Dhat,
            BenchFamilyGroup::Micro,
            "micro_heaps"@,
            seq!["micro_heaps_u64"@],
        )
    } else if i == 13 {
        (
            "macro_read_heavy_dhat"@,
            BenchKind::Dhat,
            BenchFamilyGroup::Macro,
            "macro_read_heavy"@,
            seq!["macro_read_heavy_u64"@],
        )
    } else if i == 14 {
        (
            "macro_write_heavy_dhat"@,
            BenchKind::Dhat,
            BenchFamilyGroup::Macro,
            "macro_write_heavy"@,
            seq!["macro_write_heavy_u64"@],
        )
    } else if i == 15 {
        (
            "macro_thrashing_dhat"@,
            BenchKind::Dhat,
            BenchFamilyGroup::Macro,
            "macro_thrashing"@,
            seq!["macro_thrashing_u64"@],
        )
    } else if i == 16 {
        (
            "sweep_btree_cache_dhat"@,
            BenchKind::Dhat,
            BenchFamilyGroup::Sweeps,
            "sweep_btree_cache"@,
            seq!["sweep_btree_cache_u64"@],
        )
    } else if i == 17 {
        (
            "sweep_hash_collisions_dhat"@,
            BenchKind::Dhat,
            BenchFamilyGroup::Sweeps,
            "sweep_hash_collisions"@,
            seq!["sweep_hash_collisions_u64"@],
        )
    } else if i == 18 {
        (
            "micro_maps_callgrind"@,
            BenchKind::Callgrind,
            BenchFamilyGroup::Micro,
            "micro_maps"@,
            seq!["micro_maps_u64"@, "micro_maps_strings"@, "micro_maps_large_payload"@],
        )
    } else if i == 19 {
        (
            "micro_sequences_callgrind"@,
            BenchKind::Callgrind,
            BenchFamilyGroup::Micro,
            "micro_sequences"@,
            seq!["micro_sequences"@],
        )
    } else if i == 20 {
        (
            "micro_heaps_callgrind"@,
            BenchKind::Callgrind,
            BenchFamilyGroup::Micro,
            "micro_heaps"@,
            seq!["micro_heaps_u64"@],
        )
    } else if i == 21 {
        (
            "macro_read_heavy_callgrind"@,
            BenchKind::Callgrind,
            BenchFamilyGroup::Macro,
            "macro_read_heavy"@,
            seq!["macro_read_heavy_u64"@],
        )
    } else if i == 22 {
        (
            "macro_write_heavy_callgrind"@,
            BenchKind::Callgrind,
            BenchFamilyGroup::Macro,
            "macro_write_heavy"@,
            seq!["macro_write_heavy_u64"@],
        )
    } else if i == 23 {
        (
            "macro_thrashing_callgrind"@,
            BenchKind::Callgrind,
            BenchFamilyGroup::Macro,
            "macro_thrashing"@,
            seq!["macro_thrashing_u64"@],
        )
    } else if i == 24 {
        (
            "sweep_btree_cache_callgrind"@,
            BenchKind::Callgrind,
            BenchFamilyGroup::Sweeps,
            "sweep_btree_cache"@,
            seq!["sweep_btree_cache_u64"@],
        )
    } else {
        (
            "sweep_hash_collisions_callgrind"@,
            BenchKind::Callgrind,
            BenchFamilyGroup::Sweeps,
            "sweep_hash_collisions"@,
            seq!["sweep_hash_collisions_u64"@],
        )
    }
}

/// The benchmark target at position `i` of the project's table.
pub fn bench_spec(i: usize) -> (r: BenchSpec)
    requires
        i < BENCH_COUNT,
    ensures
        r.row() == bench_row(i as int),
{
    let r = match i {
        0 => BenchSpec {
            target: "micro_maps_u64_criterion",
            kind: BenchKind::Criterion,
            family: BenchFamilyGroup::Micro,
            subcategory: "micro_maps",
            workload_tags: vec!["micro_maps_u64"],
        },
        1 => BenchSpec {
            target: "micro_maps_strings_criterion",
            kind: BenchKind::Criterion,
            family: BenchFamilyGroup::Micro,
            subcategory: "micro_maps",
            workload_tags: vec!["micro_maps_strings"],
        },
        2 => BenchSpec {
            target: "micro_maps_large_payload_criterion",
            kind: BenchKind::Criterion,
            family: BenchFamilyGroup::Micro,
            subcategory: "micro_maps",
            workload_tags: vec!["micro_maps_large_payload"],
        },
        3 => BenchSpec {
            target: "micro_sequences_criterion",
            kind: BenchKind::Criterion,
            family: BenchFamilyGroup::Micro,
            subcategory: "micro_sequences",
            workload_tags: vec!["micro_sequences"],
        },
        4 => BenchSpec {
            target: "micro_heaps_criterion",
            kind: BenchKind::Criterion,
            family: BenchFamilyGroup::Micro,
            subcategory: "micro_heaps",
            workload_tags: vec!["micro_heaps_u64"],
        },
        5 => BenchSpec {
            target: "macro_read_heavy_criterion",
            kind: BenchKind::Criterion,
            family: BenchFamilyGroup::Macro,
            subcategory: "macro_read_heavy",
            workload_tags: vec!["macro_read_heavy_u64"],
        },
        6 => BenchSpec {
            target: "macro_write_heavy_criterion",
            kind: BenchKind::Criterion,
            family: BenchFamilyGroup::Macro,
            subcategory: "macro_write_heavy",
            workload_tags: vec!["macro_write_heavy_u64"],
        },
        7 => BenchSpec {
            target: "macro_thrashing_criterion",
            kind: BenchKind::Criterion,
            family: BenchFamilyGroup::Macro,
            subcategory: "macro_thrashing",
            workload_tags: vec!["macro_thrashing_u64"],
        },
        8 => BenchSpec {
            target: "sweep_btree_cache_criterion",
            kind: BenchKind::Criterion,
            family: BenchFamilyGroup::Sweeps,
            subcategory: "sweep_btree_cache",
            workload_tags: vec!["sweep_btree_cache_u64"],
        },
        9 => BenchSpec {
            target: "sweep_hash_collisions_criterion",
            kind: BenchKind::Criterion,
            family: BenchFamilyGroup::Sweeps,
            subcategory: "sweep_hash_collisions",
            workload_tags: vec!["sweep_hash_collisions_u64"],
        },
        10 => BenchSpec {
            target: "micro_maps_dhat",
            kind: BenchKind::Dhat,
            family: BenchFamilyGroup::Micro,
            subcategory: "micro_maps",
            workload_tags: vec!["micro_maps_u64", "micro_maps_strings", "micro_maps_large_payload"],
        },
        11 => BenchSpec {
            target: "micro_sequences_dhat",
            kind: BenchKind::Dhat,
            family: BenchFamilyGroup::Micro,
            subcategory: "micro_sequences",
            workload_tags: vec!["micro_sequences"],
        },
        12 => BenchSpec {
            target: "micro_heaps_dhat",
            kind: BenchKind::Dhat,
            family: BenchFamilyGroup::Micro,
            subcategory: "micro_heaps",
            workload_tags: vec!["micro_heaps_u64"],
        },
        13 => BenchSpec {
            target: "macro_read_heavy_dhat",
            kind: BenchKind::Dhat,
            family: BenchFamilyGroup::Macro,
            subcategory: "macro_read_heavy",
            workload_tags: vec!["macro_read_heavy_u64"],
        },
        14 => BenchSpec {
            target: "macro_write_heavy_dhat",
            kind: BenchKind::Dhat,
            family: BenchFamilyGroup::Macro,
            subcategory: "macro_write_heavy",
            workload_tags: vec!["macro_write_heavy_u64"],
        },
        15 => BenchSpec {
            target: "macro_thrashing_dhat",
            kind: BenchKind::Dhat,
            family: BenchFamilyGroup::Macro,
            subcategory: "macro_thrashing",
            workload_tags: vec!["macro_thrashing_u64"],
        },
        16 => BenchSpec {
            target: "sweep_btree_cache_dhat",
            kind: BenchKind::Dhat,
            family: BenchFamilyGroup::Sweeps,
            subcategory: "sweep_btree_cache",
            workload_tags: vec!["sweep_btree_cache_u64"],
        },
        17 => BenchSpec {
            target: "sweep_hash_collisions_dhat",
            kind: BenchKind::Dhat,
            family: BenchFamilyGroup::Sweeps,
            subcategory: "sweep_hash_collisions",
            workload_tags: vec!["sweep_hash_collisions_u64"],
        },
        18 => BenchSpec {
            target: "micro_maps_callgrind",
            kind: BenchKind::Callgrind,
            family: BenchFamilyGroup::Micro,
            subcategory: "micro_maps",
            workload_tags: vec!["micro_maps_u64", "micro_maps_strings", "micro_maps_large_payload"],
        },
        19 => BenchSpec {
            target: "micro_sequences_callgrind",
            kind: BenchKind::Callgrind,
            family: BenchFamilyGroup::Micro,
            subcategory: "micro_sequences",
            workload_tags: vec!["micro_sequences"],
        },
        20 => BenchSpec {
            target: "micro_heaps_callgrind",
            kind: BenchKind::Callgrind,
            family: BenchFamilyGroup::Micro,
            subcategory: "micro_heaps",
            workload_tags: vec!["micro_heaps_u64"],
        },
        21 => BenchSpec {
            target: "macro_read_heavy_callgrind",
            kind: BenchKind::Callgrind,
            family: BenchFamilyGroup::Macro,
            subcategory: "macro_read_heavy",
            workload_tags: vec!["macro_read_heavy_u64"],
        },
        22 => BenchSpec {
            target: "macro_write_heavy_callgrind",
            kind: BenchKind::Callgrind,
            family: BenchFamilyGroup::Macro,
            subcategory: "macro_write_heavy",
            workload_tags: vec!["macro_write_heavy_u64"],
        },
        23 => BenchSpec {
            target: "macro_thrashing_callgrind",
            kind: BenchKind::Callgrind,
            family: BenchFamilyGroup::Macro,
            subcategory: "macro_thrashing",
            workload_tags: vec!["macro_thrashing_u64"],
        },
        24 => BenchSpec {
            target: "sweep_btree_cache_callgrind",
            kind: BenchKind::Callgrind,
            family: BenchFamilyGroup::Sweeps,
            subcategory: "sweep_btree_cache",
            workload_tags: vec!["sweep_btree_cache_u64"],
        },
        _ => BenchSpec {
            target: "sweep_hash_collisions_callgrind",
            kind: BenchKind::Callgrind,
            family: BenchFamilyGroup::Sweeps,
            subcategory: "sweep_hash_collisions",
            workload_tags: vec!["sweep_hash_collisions_u64"],
        },
    };
    proof {
        assert(r.workload_tags@.map_values(|t: &'static str| t@) =~= bench_row(i as int).4);
    }
    r
}

/// A command-line kind names the kind `k`.
pub open spec fn cli_kind_is(c: CliBenchKind, k: BenchKind) -> bool {
    match c {
        CliBenchKind::Criterion => k == BenchKind::Criterion,
        CliBenchKind::Dhat => k == BenchKind::Dhat,
        CliBenchKind::Callgrind => k == BenchKind::Callgrind,
    }
}

/// The kinds asked for admit kind `k`: none was named, or one of them is `k`.
pub open spec fn kind_ok(kinds: Seq<CliBenchKind>, k: BenchKind) -> bool {
    kinds.len() == 0 || exists|i: int| 0 <= i < kinds.len() && cli_kind_is(#[trigger] kinds[i], k)
}

/// A command-line family names the family `g`.
pub open spec fn family_is(f: BenchFamily, g: BenchFamilyGroup) -> bool {
    match f {
        BenchFamily::All => false,
        BenchFamily::Micro => g == BenchFamilyGroup::Micro,
        BenchFamily::Macro => g == BenchFamilyGroup::Macro,
        BenchFamily::Sweeps => g == BenchFamilyGroup::Sweeps,
    }
}

/// The families asked for admit family `g`: none was named, `All` was, or `g` was.
pub open spec fn family_ok(families: Seq<BenchFamily>, g: BenchFamilyGroup) -> bool {
    families.len() == 0 || exists|i: int|
        0 <= i < families.len() && (families[i] == BenchFamily::All || family_is(
            #[trigger] families[i],
            g,
        ))
}

/// A suite covers the targets of family `g` and kind `k`.
pub open spec fn suite_covers(s: Suite, g: BenchFamilyGroup, k: BenchKind) -> bool {
    match s {
        Suite::All => true,
        Suite::Micro => g == BenchFamilyGroup::Micro,
        Suite::Macro => g == BenchFamilyGroup::Macro,
        Suite::Sweeps => g == BenchFamilyGroup::Sweeps,
        Suite::Memory => k == BenchKind::Dhat,
        Suite::Callgrind => k == BenchKind::Callgrind,
    }
}

/// The suites asked for admit family `g` and kind `k`: none was named, or one covers them.
pub open spec fn suite_ok(suites: Seq<Suite>, g: BenchFamilyGroup, k: BenchKind) -> bool {
    suites.len() == 0 || exists|i: int| 0 <= i < suites.len() && suite_covers(#[trigger] suites[i], g, k)
}

/// What each suite selects: `micro`, `macro` and `sweeps` admit every target of their family,
/// of any kind (Criterion, dhat or Callgrind); `memory` admits every dhat target and
/// `callgrind` every Callgrind target, of any family; `all`, or no suite at all, admits every
/// target. Naming one more suite adds what it admits and drops nothing.
pub proof fn law_suite_selection(suites: Seq<Suite>, s: Suite, g: BenchFamilyGroup, k: BenchKind)
    ensures
        suite_ok(seq![Suite::Micro], g, k) <==> g == BenchFamilyGroup::Micro,
        suite_ok(seq![Suite::Macro], g, k) <==> g == BenchFamilyGroup::Macro,
        suite_ok(seq![Suite::Sweeps], g, k) <==> g == BenchFamilyGroup::Sweeps,
        suite_ok(seq![Suite::Memory], g, k) <==> k == BenchKind::Dhat,
        suite_ok(seq![Suite::Callgrind], g, k) <==> k == BenchKind::Callgrind,
        suite_ok(seq![Suite::All], g, k),
        suite_ok(Seq::<Suite>::empty(), g, k),
        suite_ok(suites.push(s), g, k) <==> (suites.len() > 0 && suite_ok(suites, g, k)) || suite_ok(
            seq![s],
            g,
            k,
        ),
{
    assert(seq![Suite::Micro][0] == Suite::Micro);
    assert(seq![Suite::Macro][0] == Suite::Macro);
    assert(seq![Suite::Sweeps][0] == Suite::Sweeps);
    assert(seq![Suite::Memory][0] == Suite::Memory);
    assert(seq![Suite::Callgrind][0] == Suite::Callgrind);
    assert(seq![Suite::All][0] == Suite::All);
    assert(seq![s][0] == s);
    let t = suites.push(s);
    assert(t[suites.len() as int] == s);
    if suite_ok(t, g, k) && !(suites.len() > 0 && suite_ok(suites, g, k)) {
        let i = choose|i: int| 0 <= i < t.len() && suite_covers(#[trigger] t[i], g, k);
        if i < suites.len() {
            assert(t[i] == suites[i]);
        }
    }
    if suites.len() > 0 && suite_ok(suites, g, k) {
        let i = choose|i: int| 0 <= i < suites.len() && suite_covers(#[trigger] suites[i], g, k);
        assert(t[i] == suites[i]);
    }
}

fn kind_matches(spec: &BenchSpec, kinds: &[CliBenchKind]) -> (r: bool)
    ensures
        r == kind_ok(kinds@, spec.kind),
{
    if kinds.len() == 0 {
        return true;
    }
    let mut i: usize = 0;
    while i < kinds.len()
        invariant
            i <= kinds@.len(),
            forall|j: int| 0 <= j < i ==> !cli_kind_is(#[trigger] kinds@[j], spec.kind),
        decreases kinds@.len() - i,
    {
        let hit = match (kinds[i], spec.kind) {
            (CliBenchKind::Criterion, BenchKind::Criterion) => true,
            (CliBenchKind::Dhat, BenchKind::Dhat) => true,
            (CliBenchKind::Callgrind, BenchKind::Callgrind) => true,
            _ => false,
        };
        if hit {
            return true;
        }
        i = i + 1;
    }
    false
}

fn family_matches(spec: &BenchSpec, families: &[BenchFamily]) -> (r: bool)
    ensures
        r == family_ok(families@, spec.family),
{
    if families.len() == 0 {
        return true;
    }
    let mut i: usize = 0;
    while i < families.len()
        invariant
            i <= families@.len(),
            forall|j: int|
                0 <= j < i ==> !(families@[j] == BenchFamily::All || family_is(
                    #[trigger] families@[j],
                    spec.family,
                )),
        decreases families@.len() - i,
    {
        let hit = match (families[i], spec.family) {
            (BenchFamily::All, _) => true,
            (BenchFamily::Micro, BenchFamilyGroup::Micro) => true,
            (BenchFamily::Macro, BenchFamilyGroup::Macro) => true,
            (BenchFamily::Sweeps, BenchFamilyGroup::Sweeps) => true,
            _ => false,
        };
        if hit {
            return true;
        }
        i = i + 1;
    }
    false
}

fn suite_matches(spec: &BenchSpec, suites: &[Suite]) -> (r: bool)
    ensures
        r == suite_ok(suites@, spec.family, spec.kind),
{
    if suites.len() == 0 {
        return true;
    }
    let mut i: usize = 0;
    while i < suites.len()
        invariant
            i <= suites@.len(),
            forall|j: int| 0 <= j < i ==> !suite_covers(#[trigger] suites@[j], spec.family, spec.kind),
        decreases suites@.len() - i,
    {
        let hit = match (suites[i], spec.family, spec.kind) {
            (Suite::All, _, _) => true,
            (Suite::Micro, BenchFamilyGroup::Micro, _) => true,
            (Suite::Macro, BenchFamilyGroup::Macro, _) => true,
            (Suite::Sweeps, BenchFamilyGroup::Sweeps, _) => true,
            (Suite::Memory, _, BenchKind::Dhat) => true,
            (Suite::Callgrind, _, BenchKind::Callgrind) => true,
            _ => false,
        };
        if hit {
            return true;
        }
        i = i + 1;
    }
    false
}

/// `s` without the white space at its start.
pub open spec fn trim_start(s: Seq<char>) -> Seq<char>
    decreases s.len(),
{
    if s.len() > 0 && is_ws(s[0]) {
        trim_start(s.drop_first())
    } else {
        s
    }
}

/// `s` without the white space at its end.
pub open spec fn trim_end(s: Seq<char>) -> Seq<char>
    decreases s.len(),
{
    if s.len() > 0 && is_ws(s.last()) {
        trim_end(s.drop_last())
    } else {
        s
    }
}

/// `s` without white space at either end.
pub open spec fn trimmed(s: Seq<char>) -> Seq<char> {
    trim_end(trim_start(s))
}

/// The sub-slice of `s` without the white space at either end, as `str::trim` gives it.
fn trim_text(s: &str) -> (r: &str)
    ensures
        r@ == trimmed(s@),
{
    let n = s.unicode_len();
    let mut a: usize = 0;
    proof {
        assert(s@.skip(0) =~= s@);
    }
    while a < n && white_space(s.get_char(a))
        invariant
            n == s@.len(),
            a <= n,
            trim_start(s@) == trim_start(s@.skip(a as int)),
        decreases n - a,
    {
        proof {
            assert(s@.skip(a as int).drop_first() =~= s@.skip(a + 1));
        }
        a = a + 1;
    }
    let ghost t = s@.skip(a as int);
    proof {
        assert(trim_start(t) == t);
        assert(s@.subrange(a as int, n as int) =~= t);
    }
    let mut b: usize = n;
    while b > a && white_space(s.get_char(b - 1))
        invariant
            n == s@.len(),
            a <= b <= n,
            trim_end(t) == trim_end(s@.subrange(a as int, b as int)),
        decreases b,
    {
        proof {
            assert(s@.subrange(a as int, b as int).drop_last() =~= s@.subrange(a as int, b - 1));
        }
        b = b - 1;
    }
    s.substring_char(a, b)
}

/// What `str::to_lowercase` gives for a text: each character replaced by its lower-case form
/// under Unicode's `Lowercase` mapping.
pub uninterp spec fn lowercase(s: Seq<char>) -> Seq<char>;

/// `str::to_lowercase`: a new string with the Unicode lower-case form of `s`.
#[verifier::external_body]
pub(crate) fn lower_text(s: &str) -> (r: String)
    ensures
        r@ == lowercase(s@),
{
    s.to_lowercase()
}

/// A token as the selection compares it: trimmed and in lower case.
pub open spec fn normalized(s: Seq<char>) -> Seq<char> {
    lowercase(trimmed(s))
}

/// Trims a token and puts it in lower case.
pub fn normalize_token(value: &str) -> (r: String)
    ensures
        r@ == normalized(value@),
{
    lower_text(trim_text(value))
}

/// `p` occurs in `s` at position `i`.
pub open spec fn infix_at(s: Seq<char>, p: Seq<char>, i: int) -> bool {
    0 <= i && i + p.len() <= s.len() && s.subrange(i, i + p.len()) == p
}

/// `p` occurs somewhere in `s`.
pub open spec fn has_infix(s: Seq<char>, p: Seq<char>) -> bool {
    exists|i: int| #[trigger] infix_at(s, p, i)
}

/// Whether `pat` occurs in `s` at position `i`.
pub(crate) fn infix_here(s: &str, pat: &str, i: usize, m: usize) -> (r: bool)
    requires
        m == pat@.len(),
        i + m <= s@.len(),
        s@.len() <= usize::MAX,
    ensures
        r == infix_at(s@, pat@, i as int),
{
    let mut j: usize = 0;
    while j < m
        invariant
            m == pat@.len(),
            i + m <= s@.len(),
            s@.len() <= usize::MAX,
            j <= m,
            forall|l: int| 0 <= l < j ==> s@[i + l] == pat@[l],
        decreases m - j,
    {
        if s.get_char(i + j) != pat.get_char(j) {
            proof {
                assert(s@.subrange(i as int, i + m)[j as int] == s@[i + j]);
            }
            return false;
        }
        j = j + 1;
    }
    proof {
        assert(s@.subrange(i as int, i + m) =~= pat@);
    }
    true
}

/// Whether `pat` occurs in `s`.
pub fn text_contains(s: &str, pat: &str) -> (r: bool)
    ensures
        r == has_infix(s@, pat@),
{
    let n = s.unicode_len();
    let m = pat.unicode_len();
    if m > n {
        proof {
            assert forall|i: int| !infix_at(s@, pat@, i) by {}
        }
        return false;
    }
    let last = n - m;
    let mut i: usize = 0;
    while i < last
        invariant
            n == s@.len(),
            m == pat@.len(),
            last == n - m,
            i <= last,
            forall|k: int| 0 <= k < i ==> !#[trigger] infix_at(s@, pat@, k),
        decreases last - i,
    {
        if infix_here(s, pat, i, m) {
            return true;
        }
        i = i + 1;
    }
    if infix_here(s, pat, last, m) {
        return true;
    }
    proof {
        assert forall|k: int| !infix_at(s@, pat@, k) by {
            if 0 <= k < i {
            }
        }
    }
    false
}

/// The payload that a workload's name tells: `large_payload`, `string`, or `u64`.
pub open spec fn payload_of(workload: Seq<char>) -> Seq<char> {
    if has_infix(workload, "large_payload"@) {
        "large_payload"@
    } else if has_infix(workload, "string"@) {
        "string"@
    } else {
        "u64"@
    }
}

/// The payload read from a workload name: `large_payload` wherever the name mentions it, so
/// any name ending in `large_payload` (such as `micro_maps_large_payload`) is read as that
/// payload; otherwise `string` where the name mentions it, and `u64` for the rest.
pub proof fn law_payload_of_workload(w: Seq<char>, stem: Seq<char>)
    ensures
        has_infix(w, "large_payload"@) ==> payload_of(w) == "large_payload"@,
        payload_of(stem + "large_payload"@) == "large_payload"@,
        !has_infix(w, "large_payload"@) && has_infix(w, "string"@) ==> payload_of(w) == "string"@,
        !has_infix(w, "large_payload"@) && !has_infix(w, "string"@) ==> payload_of(w) == "u64"@,
{
    let n = stem + "large_payload"@;
    assert(n.subrange(stem.len() as int, stem.len() + "large_payload"@.len() as int) =~= "large_payload"@);
    assert(infix_at(n, "large_payload"@, stem.len() as int));
}

fn infer_payload_from_workload(workload: &str) -> (r: &'static str)
    ensures
        r@ == payload_of(workload@),
{
    if text_contains(workload, "large_payload") {
        "large_payload"
    } else if text_contains(workload, "string") {
        "string"
    } else {
        "u64"
    }
}

/// What a user asks of the benchmark selection.
pub struct BenchSelectionRequest<'a> {
    pub suites: &'a [Suite],
    pub kinds: &'a [CliBenchKind],
    pub families: &'a [BenchFamily],
    pub subcategories: &'a [String],
    pub targets: &'a [String],
    pub benchmark: Option<&'a str>,
    pub workload: Option<&'a str>,
    pub payload: Option<&'a str>,
    pub operation: Option<&'a str>,
    pub implementation: Option<&'a str>,
    pub size: Option<usize>,
    pub variant: Option<&'a str>,
}

/// The filters that narrow a selection down to single Criterion benchmarks.
#[derive(Clone, Debug)]
pub struct BenchmarkQuery {
    pub criterion_id: Option<String>,
    pub workload: Option<String>,
    pub payload: Option<String>,
    pub operation: Option<String>,
    pub implementation: Option<String>,
    pub size: Option<usize>,
    pub variant: Option<String>,
}

/// A query as plain values: Criterion id, workload, payload, operation, implementation, size
/// and variant.
pub type QueryModel = (
    Option<Seq<char>>,
    Option<Seq<char>>,
    Option<Seq<char>>,
    Option<Seq<char>>,
    Option<Seq<char>>,
    Option<usize>,
    Option<Seq<char>>,
);

/// The text of an optional string.
pub open spec fn text_opt(o: Option<String>) -> Option<Seq<char>> {
    match o {
        Some(s) => Some(s@),
        None => None,
    }
}

/// The text of an optional string slice.
pub open spec fn str_opt(o: Option<&str>) -> Option<Seq<char>> {
    match o {
        Some(s) => Some(s@),
        None => None,
    }
}

/// An optional token, normalized.
pub open spec fn norm_opt(o: Option<Seq<char>>) -> Option<Seq<char>> {
    match o {
        Some(s) => Some(normalized(s)),
        None => None,
    }
}

impl View for BenchmarkQuery {
    type V = QueryModel;

    open spec fn view(&self) -> QueryModel {
        (
            text_opt(self.criterion_id),
            text_opt(self.workload),
            text_opt(self.payload),
            text_opt(self.operation),
            text_opt(self.implementation),
            self.size,
            text_opt(self.variant),
        )
    }
}

/// The pieces of `s` between the `|` characters, empty ones included, as `split('|')` gives
/// them.
pub open spec fn split_bars(s: Seq<char>) -> Seq<Seq<char>>
    decreases s.len(),
{
    if s.len() == 0 {
        seq![Seq::empty()]
    } else {
        let prev = split_bars(s.drop_last());
        if s.last() == '|' {
            prev.push(Seq::empty())
        } else {
            prev.update(prev.len() - 1, prev.last().push(s.last()))
        }
    }
}

proof fn lemma_split_bars_len(s: Seq<char>)
    ensures
        split_bars(s).len() >= 1,
    decreases s.len(),
{
    if s.len() > 0 {
        lemma_split_bars_len(s.drop_last());
    }
}

/// The position of the first `c` in `s`, or its length when there is none.
pub open spec fn char_pos(s: Seq<char>, c: char) -> int
    decreases s.len(),
{
    if s.len() == 0 {
        0
    } else if s[0] == c {
        0
    } else {
        1 + char_pos(s.drop_first(), c)
    }
}

proof fn lemma_char_pos(s: Seq<char>, c: char, i: int)
    requires
        0 <= i <= s.len(),
        forall|j: int| 0 <= j < i ==> s[j] != c,
        i == s.len() || s[i] == c,
    ensures
        char_pos(s, c) == i,
    decreases s.len(),
{
    if s.len() > 0 && i > 0 {
        lemma_char_pos(s.drop_first(), c, i - 1);
    }
}

/// One `key=value` piece of a benchmark selector applied to a query; a piece without `=`, or
/// with an unknown key, changes nothing.
pub open spec fn apply_piece(q: QueryModel, piece: Seq<char>) -> QueryModel {
    if !piece.contains('=') {
        q
    } else {
        let p = char_pos(piece, '=');
        let key = normalized(piece.take(p));
        let value = normalized(piece.skip(p + 1));
        if key == "workload"@ {
            (q.0, Some(value), q.2, q.3, q.4, q.5, q.6)
        } else if key == "payload"@ {
            (q.0, q.1, Some(value), q.3, q.4, q.5, q.6)
        } else if key == "op"@ || key == "operation"@ {
            (q.0, q.1, q.2, Some(value), q.4, q.5, q.6)
        } else if key == "impl"@ || key == "implementation"@ {
            (q.0, q.1, q.2, q.3, Some(value), q.5, q.6)
        } else if key == "size"@ {
            (q.0, q.1, q.2, q.3, q.4, usize_written(encode_utf8(value)), q.6)
        } else if key == "variant"@ {
            (q.0, q.1, q.2, q.3, q.4, q.5, Some(value))
        } else {
            q
        }
    }
}

/// The pieces applied in order.
pub open spec fn apply_pieces(q: QueryModel, pieces: Seq<Seq<char>>) -> QueryModel
    decreases pieces.len(),
{
    if pieces.len() == 0 {
        q
    } else {
        apply_piece(apply_pieces(q, pieces.drop_last()), pieces.last())
    }
}

/// The query that a request asks for: its filters, normalized, with the benchmark selector as
/// a Criterion id; a selector that holds both `=` and `|` is read as `key=value` pieces
/// separated by `|` instead, and names no Criterion id.
pub open spec fn query_of(r: BenchSelectionRequest) -> QueryModel {
    let b = (
        str_opt(r.benchmark),
        norm_opt(str_opt(r.workload)),
        norm_opt(str_opt(r.payload)),
        norm_opt(str_opt(r.operation)),
        norm_opt(str_opt(r.implementation)),
        r.size,
        norm_opt(str_opt(r.variant)),
    );
    match r.benchmark {
        Some(raw) => if raw@.contains('=') && raw@.contains('|') {
            apply_pieces((None, b.1, b.2, b.3, b.4, b.5, b.6), split_bars(raw@))
        } else {
            b
        },
        None => b,
    }
}

/// Whether `c` occurs in `s`.
fn has_char(s: &str, c: char) -> (r: bool)
    ensures
        r == s@.contains(c),
{
    let n = s.unicode_len();
    let mut i: usize = 0;
    while i < n
        invariant
            n == s@.len(),
            i <= n,
            forall|j: int| 0 <= j < i ==> s@[j] != c,
        decreases n - i,
    {
        if s.get_char(i) == c {
            return true;
        }
        i = i + 1;
    }
    false
}

/// The normalized form of an optional token.
fn normalize_opt(o: Option<&str>) -> (r: Option<String>)
    ensures
        text_opt(r) == norm_opt(str_opt(o)),
{
    match o {
        Some(s) => Some(normalize_token(s)),
        None => None,
    }
}

impl BenchmarkQuery {
    /// Applies one `key=value` piece of a benchmark selector.
    fn apply_piece(&mut self, piece: &str)
        ensures
            final(self)@ == apply_piece(old(self)@, piece@),
    {
        let n = piece.unicode_len();
        let mut p: usize = 0;
        while p < n
            invariant
                n == piece@.len(),
                p <= n,
                forall|j: int| 0 <= j < p ==> piece@[j] != '=',
            ensures
                p <= n,
                forall|j: int| 0 <= j < p ==> piece@[j] != '=',
                p == n || piece@[p as int] == '=',
            decreases n - p,
        {
            if piece.get_char(p) == '=' {
                break;
            }
            p = p + 1;
        }
        if p == n {
            proof {
                assert(!piece@.contains('='));
            }
            return;
        }
        proof {
            lemma_char_pos(piece@, '=', p as int);
            assert(piece@.contains('='));
        }
        let key = normalize_token(piece.substring_char(0, p));
        let value = normalize_token(piece.substring_char(p + 1, n));
        proof {
            assert(piece@.subrange(0, p as int) =~= piece@.take(p as int));
            assert(piece@.subrange(p + 1, n as int) =~= piece@.skip(p + 1));
        }
        let k = key.as_str();
        if name_is(k, "workload") {
            self.workload = Some(value);
        } else if name_is(k, "payload") {
            self.payload = Some(value);
        } else if name_is(k, "op") || name_is(k, "operation") {
            self.operation = Some(value);
        } else if name_is(k, "impl") || name_is(k, "implementation") {
            self.implementation = Some(value);
        } else if name_is(k, "size") {
            self.size = parse_usize(value.as_str());
        } else if name_is(k, "variant") {
            self.variant = Some(value);
        }
    }

    /// The query that a request asks for (see `query_of`).
    pub fn from_request(request: &BenchSelectionRequest) -> (r: BenchmarkQuery)
        ensures
            r@ == query_of(*request),
    {
        let mut query = BenchmarkQuery {
            criterion_id: match request.benchmark {
                Some(s) => Some(String::from_str(s)),
                None => None,
            },
            workload: normalize_opt(request.workload),
            payload: normalize_opt(request.payload),
            operation: normalize_opt(request.operation),
            implementation: normalize_opt(request.implementation),
            size: request.size,
            variant: normalize_opt(request.variant),
        };
        if let Some(raw) = request.benchmark {
            if has_char(raw, '=') && has_char(raw, '|') {
                query.criterion_id = None;
                let ghost q0 = query@;
                let n = raw.unicode_len();
                let mut start: usize = 0;
                let mut i: usize = 0;
                proof {
                    assert(raw@.take(0) =~= Seq::<char>::empty());
                    assert(split_bars(raw@.take(0)).drop_last() =~= Seq::<Seq<char>>::empty());
                    assert(raw@.subrange(0, 0) =~= Seq::<char>::empty());
                }
                while i < n
                    invariant
                        n == raw@.len(),
                        start <= i <= n,
                        split_bars(raw@.take(i as int)).len() >= 1,
                        split_bars(raw@.take(i as int)).last() == raw@.subrange(
                            start as int,
                            i as int,
                        ),
                        query@ == apply_pieces(q0, split_bars(raw@.take(i as int)).drop_last()),
                    decreases n - i,
                {
                    let ghost prev = split_bars(raw@.take(i as int));
                    let c = raw.get_char(i);
                    proof {
                        let t = raw@.take(i + 1);
                        assert(t.drop_last() =~= raw@.take(i as int));
                        assert(t.last() == c);
                        lemma_split_bars_len(raw@.take(i as int));
                    }
                    if c == '|' {
                        query.apply_piece(raw.substring_char(start, i));
                        proof {
                            let now = split_bars(raw@.take(i + 1));
                            assert(now == prev.push(Seq::<char>::empty()));
                            assert(now.drop_last() =~= prev);
                            assert(prev =~= prev.drop_last().push(prev.last()));
                            assert(raw@.subrange(i + 1, i + 1) =~= Seq::<char>::empty());
                        }
                        start = i + 1;
                    } else {
                        proof {
                            let now = split_bars(raw@.take(i + 1));
                            assert(now == prev.update(prev.len() - 1, prev.last().push(c)));
                            assert(now.drop_last() =~= prev.drop_last());
                            assert(raw@.subrange(start as int, i + 1) =~= raw@.subrange(
                                start as int,
                                i as int,
                            ).push(c));
                        }
                    }
                    i = i + 1;
                }
                query.apply_piece(raw.substring_char(start, n));
                proof {
                    let all = split_bars(raw@);
                    assert(raw@.take(n as int) =~= raw@);
                    assert(all =~= all.drop_last().push(all.last()));
                }
            }
        }
        query
    }
}

/// The Criterion filter pieces of a query, in order: workload, operation, implementation, size.
pub open spec fn filter_pieces(q: QueryModel) -> Seq<Seq<char>> {
    let w = match q.1 {
        Some(x) => seq![x],
        None => Seq::empty(),
    };
    let o = match q.3 {
        Some(x) => seq![x],
        None => Seq::empty(),
    };
    let m = match q.4 {
        Some(x) => seq![x],
        None => Seq::empty(),
    };
    let z = match q.5 {
        Some(n) => seq![decimal_text(n as int)],
        None => Seq::empty(),
    };
    w + o + m + z
}

/// Texts joined with `/` between them.
pub open spec fn joined_slash(ps: Seq<Seq<char>>) -> Seq<char>
    decreases ps.len(),
{
    if ps.len() == 0 {
        Seq::empty()
    } else if ps.len() == 1 {
        ps[0]
    } else {
        joined_slash(ps.drop_last()) + seq!['/'] + ps.last()
    }
}

/// The Criterion filter of a query: its Criterion id, or else its pieces joined with `/`, or
/// none when it has neither.
pub open spec fn filter_of(q: QueryModel) -> Option<Seq<char>> {
    match q.0 {
        Some(id) => Some(id),
        None => if filter_pieces(q).len() == 0 {
            None
        } else {
            Some(joined_slash(filter_pieces(q)))
        },
    }
}

/// A query narrows down to single Criterion benchmarks: it names a Criterion id, a payload, an
/// operation, an implementation, a size or a variant.
pub open spec fn granular(q: QueryModel) -> bool {
    q.0 is Some || q.2 is Some || q.3 is Some || q.4 is Some || q.5 is Some || q.6 is Some
}

impl BenchmarkQuery {
    /// Whether the query narrows down to single Criterion benchmarks.
    pub fn has_granular_filter(&self) -> (r: bool)
        ensures
            r == granular(self@),
    {
        self.criterion_id.is_some() || self.payload.is_some() || self.operation.is_some()
            || self.implementation.is_some() || self.size.is_some() || self.variant.is_some()
    }

    /// The filter handed to Criterion benchmarks (see `filter_of`).
    pub fn criterion_filter(&self) -> (r: Option<String>)
        ensures
            text_opt(r) == filter_of(self@),
    {
        if let Some(id) = &self.criterion_id {
            return Some(id.clone());
        }
        let mut pieces: Vec<String> = Vec::new();
        if let Some(workload) = &self.workload {
            pieces.push(workload.clone());
        }
        if let Some(op) = &self.operation {
            pieces.push(op.clone());
        }
        if let Some(implementation) = &self.implementation {
            pieces.push(implementation.clone());
        }
        if let Some(size) = self.size {
            pieces.push(usize_text(size));
        }
        let ghost ps = filter_pieces(self@);
        proof {
            assert(pieces@.map_values(|x: String| x@) =~= ps);
        }
        if pieces.len() == 0 {
            return None;
        }
        proof {
            reveal_strlit("/");
        }
        let mut out = String::new();
        let mut i: usize = 0;
        while i < pieces.len()
            invariant
                i <= pieces@.len(),
                pieces@.map_values(|x: String| x@) == ps,
                out@ == joined_slash(ps.take(i as int)),
            decreases pieces@.len() - i,
        {
            proof {
                reveal_strlit("/");
            }
            if i > 0 {
                out.append("/");
            }
            out.append(pieces[i].as_str());
            proof {
                let t = ps.take(i + 1);
                assert(t.drop_last() =~= ps.take(i as int));
                assert(t.last() == pieces@[i as int]@);
                if i == 0 {
                    assert(out@ =~= joined_slash(t));
                } else {
                    assert(out@ =~= joined_slash(t));
                }
            }
            i = i + 1;
        }
        proof {
            assert(ps.take(ps.len() as int) =~= ps);
        }
        Some(out)
    }
}

/// A benchmark invocation: a target, with the filter handed to Criterion when it is one.
#[derive(Clone, Debug)]
pub struct BenchInvocation {
    pub target: String,
    pub criterion_filter: Option<String>,
}

impl View for BenchInvocation {
    type V = (Seq<char>, Option<Seq<char>>);

    open spec fn view(&self) -> (Seq<char>, Option<Seq<char>>) {
        (self.target@, text_opt(self.criterion_filter))
    }
}

/// The views of invocations.
pub open spec fn inv_views(v: Seq<BenchInvocation>) -> Seq<(Seq<char>, Option<Seq<char>>)> {
    v.map_values(|x: BenchInvocation| x@)
}

/// The texts of strings.
pub open spec fn texts(v: Seq<String>) -> Seq<Seq<char>> {
    v.map_values(|s: String| s@)
}

/// The filters of a selection, as plain values: suites, kinds, families, subcategories and
/// targets (normalized), and the query.
pub type SelectionModel = (
    Seq<Suite>,
    Seq<CliBenchKind>,
    Seq<BenchFamily>,
    Seq<Seq<char>>,
    Seq<Seq<char>>,
    QueryModel,
);

/// A list of names admits `x`: it is empty, or it holds `x`.
pub open spec fn listed_in(list: Seq<Seq<char>>, x: Seq<char>) -> bool {
    list.len() == 0 || list.contains(x)
}

/// The workloads of a target pass the query's workload and payload filters.
pub open spec fn tags_ok(q: QueryModel, tags: Seq<Seq<char>>) -> bool {
    &&& match q.1 {
        Some(w) => tags.contains(w),
        None => true,
    }
    &&& match q.2 {
        Some(p) => exists|i: int| 0 <= i < tags.len() && payload_of(#[trigger] tags[i]) == p,
        None => true,
    }
}

/// A target passes every filter of a selection.
pub open spec fn row_selected(f: SelectionModel, row: BenchRow) -> bool {
    &&& suite_ok(f.0, row.2, row.1)
    &&& kind_ok(f.1, row.1)
    &&& family_ok(f.2, row.2)
    &&& listed_in(f.3, row.3)
    &&& listed_in(f.4, row.0)
    &&& tags_ok(f.5, row.4)
    &&& granular(f.5) ==> row.1 == BenchKind::Criterion
}

/// The invocation of a selected target.
pub open spec fn invocation_of(q: QueryModel, row: BenchRow) -> (Seq<char>, Option<Seq<char>>) {
    (
        row.0,
        if row.1 == BenchKind::Criterion {
            filter_of(q)
        } else {
            None
        },
    )
}

/// The invocations of the selected targets among the first `n` of the table, in table order.
pub open spec fn picked(f: SelectionModel, n: int) -> Seq<(Seq<char>, Option<Seq<char>>)>
    decreases n,
{
    if n <= 0 {
        Seq::empty()
    } else if row_selected(f, bench_row(n - 1)) {
        picked(f, n - 1).push(invocation_of(f.5, bench_row(n - 1)))
    } else {
        picked(f, n - 1)
    }
}

/// The invocations that a selection names, in table order.
pub open spec fn selection_of(f: SelectionModel) -> Seq<(Seq<char>, Option<Seq<char>>)> {
    picked(f, BENCH_COUNT as int)
}

/// Invocations in order of target name, with no two neighbours the same.
pub open spec fn sorted_invocations(v: Seq<(Seq<char>, Option<Seq<char>>)>) -> bool {
    &&& forall|i: int, j: int| 0 <= i < j < v.len() ==> !name_less(#[trigger] v[j].0, #[trigger] v[i].0)
    &&& forall|i: int| 0 <= i < v.len() - 1 ==> v[i] != #[trigger] v[i + 1]
}

/// The message for a selection that names no target.
pub open spec fn no_match_message() -> Seq<char> {
    "no benchmark targets matched the provided filters (--suite/--kind/--family/--subcategory/--target/--benchmark)"@
}

/// Whether `x` is in `list`, or `list` is empty.
fn listed(list: &[String], x: &str) -> (r: bool)
    ensures
        r == listed_in(texts(list@), x@),
{
    if list.len() == 0 {
        return true;
    }
    let mut i: usize = 0;
    while i < list.len()
        invariant
            i <= list@.len(),
            forall|j: int| 0 <= j < i ==> list@[j]@ != x@,
        decreases list@.len() - i,
    {
        if name_is(list[i].as_str(), x) {
            proof {
                assert(texts(list@)[i as int] == x@);
            }
            return true;
        }
        i = i + 1;
    }
    proof {
        if texts(list@).contains(x@) {
            let j = choose|j: int| 0 <= j < texts(list@).len() && texts(list@)[j] == x@;
            assert(list@[j]@ == x@);
        }
    }
    false
}

/// Whether the workloads of a target pass the query's workload and payload filters.
fn tags_match(spec: &BenchSpec, query: &BenchmarkQuery) -> (r: bool)
    ensures
        r == tags_ok(query@, spec.row().4),
{
    let ghost tags = spec.row().4;
    if let Some(w) = &query.workload {
        let mut found = false;
        let mut i: usize = 0;
        while i < spec.workload_tags.len()
            invariant
                tags == spec.workload_tags@.map_values(|t: &'static str| t@),
                i <= tags.len(),
                found == exists|j: int| 0 <= j < i && tags[j] == w@,
            decreases tags.len() - i,
        {
            if name_is(spec.workload_tags[i], w.as_str()) {
                found = true;
            }
            proof {
                assert(tags[i as int] == spec.workload_tags@[i as int]@);
            }
            i = i + 1;
        }
        if !found {
            proof {
                if tags.contains(w@) {
                    let j = choose|j: int| 0 <= j < tags.len() && tags[j] == w@;
                    assert(tags[j] == w@);
                }
            }
            return false;
        }
    }
    if let Some(p) = &query.payload {
        let mut found = false;
        let mut i: usize = 0;
        while i < spec.workload_tags.len()
            invariant
                tags == spec.workload_tags@.map_values(|t: &'static str| t@),
                i <= tags.len(),
                found == exists|j: int| 0 <= j < i && payload_of(#[trigger] tags[j]) == p@,
            decreases tags.len() - i,
        {
            let inferred = infer_payload_from_workload(spec.workload_tags[i]);
            if name_is(inferred, p.as_str()) {
                found = true;
            }
            proof {
                assert(tags[i as int] == spec.workload_tags@[i as int]@);
            }
            i = i + 1;
        }
        return found;
    }
    true
}

/// Whether two invocations are the same.
fn same_invocation(a: &BenchInvocation, b: &BenchInvocation) -> (r: bool)
    ensures
        r == (a@ == b@),
{
    if !name_is(a.target.as_str(), b.target.as_str()) {
        return false;
    }
    match (&a.criterion_filter, &b.criterion_filter) {
        (None, None) => true,
        (Some(x), Some(y)) => name_is(x.as_str(), y.as_str()),
        _ => false,
    }
}

/// Puts an invocation into a list ordered by target name, after those with the same name, and
/// leaves it out when the one it would follow is the same.
fn insert_sorted(out: &mut Vec<BenchInvocation>, inv: BenchInvocation)
    requires
        sorted_invocations(inv_views(old(out)@)),
    ensures
        sorted_invocations(inv_views(final(out)@)),
        forall|x: (Seq<char>, Option<Seq<char>>)|
            #[trigger] inv_views(final(out)@).contains(x) <==> (inv_views(old(out)@).contains(x) || x
                == inv@),
{
    let ghost v0 = inv_views(out@);
    let mut p: usize = 0;
    while p < out.len()
        invariant
            v0 == inv_views(out@),
            p <= out@.len(),
            forall|j: int| 0 <= j < p ==> !name_less(inv@.0, #[trigger] v0[j].0),
        ensures
            p <= out@.len(),
            forall|j: int| 0 <= j < p ==> !name_less(inv@.0, #[trigger] v0[j].0),
            p == out@.len() || name_less(inv@.0, v0[p as int].0),
        decreases out@.len() - p,
    {
        if name_is_less(inv.target.as_str(), out[p].target.as_str()) {
            break;
        }
        p = p + 1;
    }
    if p > 0 && same_invocation(&out[p - 1], &inv) {
        proof {
            assert(v0[p - 1] == inv@);
        }
        return;
    }
    out.insert(p, inv);
    proof {
        let v1 = inv_views(out@);
        assert(v1 =~= v0.insert(p as int, inv@));
        assert forall|i: int, j: int| 0 <= i < j < v1.len() implies !name_less(
            #[trigger] v1[j].0,
            #[trigger] v1[i].0,
        ) by {
            if i < p && j == p {
            } else if i == p && j > p {
                lemma_name_order(inv@.0, v0[p as int].0, v0[j - 1].0);
                lemma_name_order(v0[j - 1].0, v0[p as int].0, inv@.0);
                if j - 1 > p {
                    assert(!name_less(v0[j - 1].0, v0[p as int].0));
                    lemma_name_order(v0[j - 1].0, inv@.0, v0[p as int].0);
                }
            } else if i < p && j > p {
                assert(!name_less(v0[j - 1].0, v0[i].0));
            } else if j < p {
                assert(!name_less(v0[j].0, v0[i].0));
            } else {
                assert(!name_less(v0[j - 1].0, v0[i - 1].0));
            }
        }
        assert forall|i: int| 0 <= i < v1.len() - 1 implies v1[i] != #[trigger] v1[i + 1] by {
            if i == p {
                lemma_name_order(inv@.0, v0[p as int].0, inv@.0);
            } else if i + 1 == p {
            } else if i < p {
                assert(v0[i] != v0[i + 1]);
            } else {
                let k = i - 1;
                assert(v0[k] != v0[k + 1]);
            }
        }
        assert forall|x: (Seq<char>, Option<Seq<char>>)| v1.contains(x) <==> (v0.contains(x) || x
            == inv@) by {
            if v1.contains(x) {
                let k = choose|k: int| 0 <= k < v1.len() && v1[k] == x;
                if k < p {
                    assert(v0[k] == x);
                } else if k > p {
                    assert(v0[k - 1] == x);
                }
            }
            if v0.contains(x) {
                let k = choose|k: int| 0 <= k < v0.len() && v0[k] == x;
                if k < p {
                    assert(v1[k] == x);
                } else {
                    assert(v1[k + 1] == x);
                }
            }
            if x == inv@ {
                assert(v1[p as int] == x);
            }
        }
    }
}

/// The normalized texts of strings.
pub open spec fn normalized_texts(v: Seq<String>) -> Seq<Seq<char>> {
    v.map_values(|s: String| normalized(s@))
}

/// The filters that a request sets: its lists, the names normalized, and its query.
pub open spec fn request_model(r: BenchSelectionRequest) -> SelectionModel {
    (
        r.suites@,
        r.kinds@,
        r.families@,
        normalized_texts(r.subcategories@),
        normalized_texts(r.targets@),
        query_of(r),
    )
}

/// What a selection gives: the invocations that it names (see `selection_of`), ordered by
/// target name with no two neighbours the same, or the message when it names none.
pub open spec fn selection_result(f: SelectionModel, r: Result<Vec<BenchInvocation>, String>) -> bool {
    match r {
        Ok(v) => {
            &&& selection_of(f).len() > 0
            &&& sorted_invocations(inv_views(v@))
            &&& forall|x: (Seq<char>, Option<Seq<char>>)|
                #[trigger] inv_views(v@).contains(x) <==> selection_of(f).contains(x)
        },
        Err(e) => selection_of(f).len() == 0 && e@ == no_match_message(),
    }
}

/// The invocations of the targets that pass the filters, whose subcategory and target lists
/// are already normalized.
pub fn select_invocations(
    suites: &[Suite],
    kinds: &[CliBenchKind],
    families: &[BenchFamily],
    subcategories: &[String],
    targets: &[String],
    query: &BenchmarkQuery,
) -> (r: Result<Vec<BenchInvocation>, String>)
    ensures
        selection_result(
            (suites@, kinds@, families@, texts(subcategories@), texts(targets@), query@),
            r,
        ),
{
    let ghost f = (suites@, kinds@, families@, texts(subcategories@), texts(targets@), query@);
    let narrow = query.has_granular_filter();
    let filter = query.criterion_filter();
    let mut out: Vec<BenchInvocation> = Vec::new();
    let mut i: usize = 0;
    while i < BENCH_COUNT
        invariant
            f == (suites@, kinds@, families@, texts(subcategories@), texts(targets@), query@),
            narrow == granular(query@),
            text_opt(filter) == filter_of(query@),
            i <= BENCH_COUNT,
            sorted_invocations(inv_views(out@)),
            forall|x: (Seq<char>, Option<Seq<char>>)|
                #[trigger] inv_views(out@).contains(x) <==> picked(f, i as int).contains(x),
        decreases BENCH_COUNT - i,
    {
        let spec = bench_spec(i);
        let ghost row = bench_row(i as int);
        let ghost before = inv_views(out@);
        if suite_matches(&spec, suites) && kind_matches(&spec, kinds) && family_matches(
            &spec,
            families,
        ) && listed(subcategories, spec.subcategory) && listed(targets, spec.target) && tags_match(
            &spec,
            query,
        ) && (!narrow || spec.kind == BenchKind::Criterion) {
            let cf = match spec.kind {
                BenchKind::Criterion => match &filter {
                    Some(x) => Some(x.clone()),
                    None => None,
                },
                _ => None,
            };
            let inv = BenchInvocation { target: String::from_str(spec.target), criterion_filter: cf };
            proof {
                assert(row_selected(f, row));
                assert(inv@ == invocation_of(f.5, row));
            }
            insert_sorted(&mut out, inv);
            proof {
                assert(picked(f, i + 1) == picked(f, i as int).push(invocation_of(f.5, row)));
                assert forall|x: (Seq<char>, Option<Seq<char>>)|
                    #[trigger] inv_views(out@).contains(x) <==> picked(f, i + 1).contains(x) by {
                    let pv = picked(f, i as int);
                    if pv.push(invocation_of(f.5, row)).contains(x) && x != invocation_of(f.5, row) {
                        let k = choose|k: int|
                            0 <= k < pv.len() + 1 && pv.push(invocation_of(f.5, row))[k] == x;
                        assert(pv[k] == x);
                        assert(pv.contains(x));
                    }
                    if pv.contains(x) {
                        let k = choose|k: int| 0 <= k < pv.len() && pv[k] == x;
                        assert(pv.push(invocation_of(f.5, row))[k] == x);
                    }
                    if x == invocation_of(f.5, row) {
                        assert(pv.push(invocation_of(f.5, row))[pv.len() as int] == x);
                    }
                }
            }
        } else {
            proof {
                assert(!row_selected(f, row));
                assert(picked(f, i + 1) == picked(f, i as int));
            }
        }
        i = i + 1;
    }
    if out.len() == 0 {
        proof {
            if selection_of(f).len() > 0 {
                assert(selection_of(f).contains(selection_of(f)[0]));
                assert(inv_views(out@).contains(selection_of(f)[0]));
            }
        }
        return Err(
            String::from_str(
                "no benchmark targets matched the provided filters (--suite/--kind/--family/--subcategory/--target/--benchmark)",
            ),
        );
    }
    proof {
        assert(inv_views(out@).contains(inv_views(out@)[0]));
        assert(selection_of(f).contains(inv_views(out@)[0]));
    }
    Ok(out)
}

/// The normalized forms of a list of names.
fn normalize_all(v: &[String]) -> (r: Vec<String>)
    ensures
        texts(r@) == normalized_texts(v@),
{
    let mut r: Vec<String> = Vec::new();
    let mut i: usize = 0;
    while i < v.len()
        invariant
            i <= v@.len(),
            r@.len() == i,
            forall|j: int| 0 <= j < i ==> (#[trigger] r@[j])@ == normalized(v@[j]@),
        decreases v@.len() - i,
    {
        r.push(normalize_token(v[i].as_str()));
        i = i + 1;
    }
    proof {
        assert(texts(r@) =~= normalized_texts(v@));
    }
    r
}

/// The benchmark invocations that a request names: the targets of the table that pass its
/// suite, kind, family, subcategory, target, workload and payload filters (and, for a query that
/// narrows down to single benchmarks, only Criterion targets), each Criterion target with the
/// query's filter, ordered by target name; or the message when none passes.
pub fn resolve_bench_invocations(request: &BenchSelectionRequest) -> (r: Result<
    Vec<BenchInvocation>,
    String,
>)
    ensures
        selection_result(request_model(*request), r),
{
    let subcategories = normalize_all(request.subcategories);
    let targets = normalize_all(request.targets);
    let query = BenchmarkQuery::from_request(request);
    select_invocations(
        request.suites,
        request.kinds,
        request.families,
        &subcategories,
        &targets,
        &query,
    )
}

/// The text that names an invocation: its target, then its filter in brackets when it has one.
pub open spec fn label_of(v: (Seq<char>, Option<Seq<char>>)) -> Seq<char> {
    match v.1 {
        Some(f) => v.0 + seq![' ', '['] + f + seq![']'],
        None => v.0,
    }
}

/// The text that names an invocation (see `label_of`).
pub fn invocation_label(invocation: &BenchInvocation) -> (r: String)
    ensures
        r@ == label_of(invocation@),
{
    if let Some(filter) = &invocation.criterion_filter {
        proof {
            reveal_strlit(" [");
            reveal_strlit("]");
        }
        let mut out = invocation.target.clone();
        out.append(" [");
        out.append(filter.as_str());
        out.append("]");
        out
    } else {
        invocation.target.clone()
    }
}

/// A number below 100 written with at least two digits.
pub open spec fn two_digits(n: int) -> Seq<char> {
    if n < 10 {
        seq!['0'] + decimal_text(n)
    } else {
        decimal_text(n)
    }
}

/// A duration of `s` seconds as `1h 02m 03s`, `2m 03s` or `3s`.
pub open spec fn duration_text(s: int) -> Seq<char> {
    let h = s / 3600;
    let m = (s % 3600) / 60;
    let x = s % 60;
    if h > 0 {
        decimal_text(h) + "h "@ + two_digits(m) + "m "@ + two_digits(x) + "s"@
    } else if m > 0 {
        decimal_text(m) + "m "@ + two_digits(x) + "s"@
    } else {
        decimal_text(x) + "s"@
    }
}

fn two_digit_text(n: u64) -> (r: String)
    requires
        n < 100,
    ensures
        r@ == two_digits(n as int),
{
    if n < 10 {
        proof {
            reveal_strlit("0");
        }
        let mut r = String::from_str("0");
        r.append(u64_text(n).as_str());
        r
    } else {
        u64_text(n)
    }
}

/// A duration given in whole seconds as hours, minutes and seconds (see `duration_text`).
pub fn format_duration(total_seconds: u64) -> (r: String)
    ensures
        r@ == duration_text(total_seconds as int),
{
    let hours = total_seconds / 3600;
    let minutes = (total_seconds % 3600) / 60;
    let seconds = total_seconds % 60;
    if hours > 0 {
        let mut r = u64_text(hours);
        r.append("h ");
        r.append(two_digit_text(minutes).as_str());
        r.append("m ");
        r.append(two_digit_text(seconds).as_str());
        r.append("s");
        r
    } else if minutes > 0 {
        let mut r = u64_text(minutes);
        r.append("m ");
        r.append(two_digit_text(seconds).as_str());
        r.append("s");
        r
    } else {
        let mut r = u64_text(seconds);
        r.append("s");
        r
    }
}

/// `value` cut to at most `max` characters, its last kept character replaced by `…` when it
/// was longer.
pub open spec fn truncated(value: Seq<char>, max: int) -> Seq<char> {
    if max == 0 {
        Seq::empty()
    } else if value.len() <= max {
        value
    } else if max == 1 {
        seq!['…']
    } else {
        value.take(max - 1).push('…')
    }
}

/// Cuts a text to at most `max_chars` characters, ending it with `…` when it was longer.
pub fn truncate_with_ellipsis(value: &str, max_chars: usize) -> (r: String)
    ensures
        r@ == truncated(value@, max_chars as int),
{
    proof {
        reveal_strlit("…");
    }
    if max_chars == 0 {
        return String::new();
    }
    let len = value.unicode_len();
    if len <= max_chars {
        return String::from_str(value);
    }
    if max_chars == 1 {
        return String::from_str("…");
    }
    let mut out = String::from_str(value.substring_char(0, max_chars - 1));
    out.append("…");
    proof {
        assert(value@.subrange(0, max_chars - 1) =~= value@.take(max_chars - 1));
        assert(out@ =~= value@.take(max_chars - 1).push('…'));
    }
    out
}

} // verus!
