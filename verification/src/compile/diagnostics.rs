//! Checks on the tensors of a compiled image: values that are no numbers or
//! infinite, and how long each layer took.

use vstd::prelude::*;

use crate::float_bits;

verus! {

/// What was found in one layer. Real numbers are held as the bit patterns of
/// 64-bit floats.
#[derive(Debug)]
pub struct LayerFinding {
    pub layer_index: u32,
    pub attention_kind: String,
    pub has_nan: bool,
    pub has_inf: bool,
    pub norm_bits: u64,
    pub min_bits: u64,
    pub max_bits: u64,
    pub elapsed_ms: u64,
}

/// What is reported of one layer.
#[derive(Debug)]
pub struct LayerDiagnostic {
    pub layer_index: u32,
    pub attention_kind: String,
    pub hidden_norm_bits: u64,
    pub hidden_finite: bool,
    pub hidden_min_bits: u64,
    pub hidden_max_bits: u64,
    pub entropy_bits: u64,
    pub elapsed_ms: u64,
}

/// What is reported of all layers together.
#[derive(Debug, Clone, Copy, PartialEq, Eq, Structural)]
pub struct GlobalDiagnostic {
    pub total_layers: usize,
    pub nan_layers: usize,
    pub inf_layers: usize,
    pub max_runtime_ms: u64,
    pub total_runtime_ms: u64,
    pub memory_peak_bytes: u64,
}

impl Default for GlobalDiagnostic {
    fn default() -> (r: Self)
        ensures
            r == (GlobalDiagnostic {
                total_layers: 0,
                nan_layers: 0,
                inf_layers: 0,
                max_runtime_ms: 0,
                total_runtime_ms: 0,
                memory_peak_bytes: 0,
            }),
    {
        GlobalDiagnostic {
            total_layers: 0,
            nan_layers: 0,
            inf_layers: 0,
            max_runtime_ms: 0,
            total_runtime_ms: 0,
            memory_peak_bytes: 0,
        }
    }
}

/// Something wrong with a layer. Real numbers are held as the bit patterns of
/// 64-bit floats.
#[derive(Debug, Clone, Copy, PartialEq, Eq, Structural)]
pub enum DiagnosticIssue {
    NanInLayer(u32),
    InfInLayer(u32),
    ExplodingActivation { layer: u32, norm_bits: u64 },
    VanishingActivation { layer: u32, norm_bits: u64 },
    EntropyExtreme { layer: u32, entropy_bits: u64 },
}

/// The outcome of the checks on an image.
#[derive(Debug)]
pub struct DiagnosticReport {
    pub passed: bool,
    pub layers: Vec<LayerDiagnostic>,
    pub global: GlobalDiagnostic,
    pub issues: Vec<DiagnosticIssue>,
}

/// Whether one of the values is no number.
pub open spec fn any_nan(values: Seq<u32>) -> bool {
    exists|i: int| 0 <= i < values.len() && float_bits::is_nan(#[trigger] values[i])
}

/// Whether one of the values is infinite.
pub open spec fn any_infinite(values: Seq<u32>) -> bool {
    exists|i: int| 0 <= i < values.len() && float_bits::is_infinite(#[trigger] values[i])
}

/// Whether one of the values is no number, and whether one is infinite.
pub fn scan_values(values: &[u32]) -> (r: (bool, bool))
    ensures
        r.0 == any_nan(values@),
        r.1 == any_infinite(values@),
{
    let mut nan: bool = false;
    let mut infinite: bool = false;
    let mut i: usize = 0;
    while i < values.len()
        invariant
            i <= values@.len(),
            nan == (exists|j: int| 0 <= j < i && float_bits::is_nan(#[trigger] values@[j])),
            infinite == (exists|j: int|
                0 <= j < i && float_bits::is_infinite(#[trigger] values@[j])),
        decreases values@.len() - i,
    {
        let bits: u32 = values[i] % 0x8000_0000;
        assert(float_bits::is_nan(values@[i as int]) == (bits > 0x7F80_0000));
        assert(float_bits::is_infinite(values@[i as int]) == (bits == 0x7F80_0000));
        if bits > 0x7F80_0000 {
            nan = true;
        }
        if bits == 0x7F80_0000 {
            infinite = true;
        }
        i = i + 1;
    }
    (nan, infinite)
}

/// The issues of one layer.
pub open spec fn issues_of(f: LayerFinding) -> Seq<DiagnosticIssue> {
    let first = if f.has_nan {
        seq![DiagnosticIssue::NanInLayer(f.layer_index)]
    } else {
        Seq::empty()
    };
    if f.has_inf {
        first.push(DiagnosticIssue::InfInLayer(f.layer_index))
    } else {
        first
    }
}

/// The issues of layers, one layer after the other.
pub open spec fn all_issues(findings: Seq<LayerFinding>) -> Seq<DiagnosticIssue>
    decreases findings.len(),
{
    if findings.len() == 0 {
        Seq::empty()
    } else {
        all_issues(findings.drop_last()) + issues_of(findings.last())
    }
}

/// The time that layers took together.
pub open spec fn total_time(findings: Seq<LayerFinding>) -> nat
    decreases findings.len(),
{
    if findings.len() == 0 {
        0
    } else {
        total_time(findings.drop_last()) + findings.last().elapsed_ms as nat
    }
}

/// The longest time that a layer took.
pub open spec fn longest_time(findings: Seq<LayerFinding>) -> u64
    decreases findings.len(),
{
    if findings.len() == 0 {
        0
    } else if findings.last().elapsed_ms > longest_time(findings.drop_last()) {
        findings.last().elapsed_ms
    } else {
        longest_time(findings.drop_last())
    }
}

/// The number of layers with values that are no numbers.
pub open spec fn nan_count(findings: Seq<LayerFinding>) -> nat
    decreases findings.len(),
{
    if findings.len() == 0 {
        0
    } else {
        nan_count(findings.drop_last()) + if findings.last().has_nan {
            1nat
        } else {
            0
        }
    }
}

/// The number of layers with infinite values.
pub open spec fn inf_count(findings: Seq<LayerFinding>) -> nat
    decreases findings.len(),
{
    if findings.len() == 0 {
        0
    } else {
        inf_count(findings.drop_last()) + if findings.last().has_inf {
            1nat
        } else {
            0
        }
    }
}

/// Whether what is reported of a layer is what was found.
pub open spec fn is_diagnostic_of(d: LayerDiagnostic, f: LayerFinding) -> bool {
    &&& d.layer_index == f.layer_index
    &&& d.attention_kind@ == f.attention_kind@
    &&& d.hidden_norm_bits == f.norm_bits
    &&& d.hidden_finite == (!f.has_nan && !f.has_inf)
    &&& d.hidden_min_bits == f.min_bits
    &&& d.hidden_max_bits == f.max_bits
    &&& d.entropy_bits == 0
    &&& d.elapsed_ms == f.elapsed_ms
}

proof fn lemma_time_grows(findings: Seq<LayerFinding>, k: int)
    requires
        0 <= k <= findings.len(),
    ensures
        total_time(findings.take(k)) <= total_time(findings),
    decreases findings.len() - k,
{
    if k < findings.len() {
        assert(findings.take(k + 1).drop_last() =~= findings.take(k));
        lemma_time_grows(findings, k + 1);
    } else {
        assert(findings.take(k) =~= findings);
    }
}

/// Reports what was found in the layers of an image. It passes where no value is
/// infinite or no number.
pub fn report_findings(findings: &Vec<LayerFinding>, memory_peak_bytes: u64) -> (r: DiagnosticReport)
    requires
        total_time(findings@) <= u64::MAX,
    ensures
        r.passed == (forall|i: int|
            0 <= i < findings@.len() ==> !(#[trigger] findings@[i]).has_nan
                && !findings@[i].has_inf),
        r.layers@.len() == findings@.len(),
        forall|i: int|
            0 <= i < findings@.len() ==> is_diagnostic_of(#[trigger] r.layers@[i], findings@[i]),
        r.issues@ == all_issues(findings@),
        r.global == (GlobalDiagnostic {
            total_layers: findings@.len() as usize,
            nan_layers: nan_count(findings@) as usize,
            inf_layers: inf_count(findings@) as usize,
            max_runtime_ms: longest_time(findings@),
            total_runtime_ms: total_time(findings@) as u64,
            memory_peak_bytes,
        }),
{
    let mut passed: bool = true;
    let mut layers: Vec<LayerDiagnostic> = Vec::new();
    let mut issues: Vec<DiagnosticIssue> = Vec::new();
    let mut global: GlobalDiagnostic = GlobalDiagnostic::default();
    let mut i: usize = 0;
    assert(findings@.take(0) =~= Seq::<LayerFinding>::empty());
    while i < findings.len()
        invariant
            i <= findings@.len(),
            total_time(findings@) <= u64::MAX,
            passed == (forall|j: int|
                0 <= j < i ==> !(#[trigger] findings@[j]).has_nan && !findings@[j].has_inf),
            layers@.len() == i,
            forall|j: int|
                0 <= j < i ==> is_diagnostic_of(#[trigger] layers@[j], findings@[j]),
            issues@ == all_issues(findings@.take(i as int)),
            global.nan_layers == nan_count(findings@.take(i as int)),
            global.inf_layers == inf_count(findings@.take(i as int)),
            global.nan_layers <= i,
            global.inf_layers <= i,
            global.max_runtime_ms == longest_time(findings@.take(i as int)),
            global.total_runtime_ms == total_time(findings@.take(i as int)),
        decreases findings@.len() - i,
    {
        let f: &LayerFinding = &findings[i];
        let ghost before = issues@;
        proof {
            assert(findings@.take(i + 1).drop_last() =~= findings@.take(i as int));
            lemma_time_grows(findings@, i + 1);
        }
        layers.push(
            LayerDiagnostic {
                layer_index: f.layer_index,
                attention_kind: f.attention_kind.clone(),
                hidden_norm_bits: f.norm_bits,
                hidden_finite: !f.has_nan && !f.has_inf,
                hidden_min_bits: f.min_bits,
                hidden_max_bits: f.max_bits,
                entropy_bits: 0,
                elapsed_ms: f.elapsed_ms,
            },
        );
        if f.has_nan {
            issues.push(DiagnosticIssue::NanInLayer(f.layer_index));
            global.nan_layers = global.nan_layers + 1;
            passed = false;
        }
        if f.has_inf {
            issues.push(DiagnosticIssue::InfInLayer(f.layer_index));
            global.inf_layers = global.inf_layers + 1;
            passed = false;
        }
        if f.elapsed_ms > global.max_runtime_ms {
            global.max_runtime_ms = f.elapsed_ms;
        }
        global.total_runtime_ms = global.total_runtime_ms + f.elapsed_ms;
        assert(issues@ =~= before + issues_of(*f));
        i = i + 1;
    }
    assert(findings@.take(findings@.len() as int) =~= findings@);
    global.total_layers = findings.len();
    global.memory_peak_bytes = memory_peak_bytes;
    DiagnosticReport { passed, layers, global, issues }
}

proof fn lemma_issues_empty(findings: Seq<LayerFinding>)
    ensures
        all_issues(findings).len() == nan_count(findings) + inf_count(findings),
        (nan_count(findings) == 0 && inf_count(findings) == 0) <==> (forall|i: int|
            0 <= i < findings.len() ==> !(#[trigger] findings[i]).has_nan && !findings[i].has_inf),
    decreases findings.len(),
{
    if findings.len() > 0 {
        let rest = findings.drop_last();
        lemma_issues_empty(rest);
        assert(forall|i: int| 0 <= i < rest.len() ==> rest[i] == #[trigger] findings[i]);
        assert(findings[findings.len() - 1] == findings.last());
        if forall|i: int|
            0 <= i < rest.len() ==> !(#[trigger] rest[i]).has_nan && !rest[i].has_inf {
            assert forall|i: int|
                0 <= i < findings.len() && !findings.last().has_nan
                    && !findings.last().has_inf implies !(#[trigger] findings[i]).has_nan
                && !findings[i].has_inf by {
                if i < rest.len() {
                    assert(rest[i] == findings[i]);
                }
            }
        }
        if forall|i: int|
            0 <= i < findings.len() ==> !(#[trigger] findings[i]).has_nan && !findings[i].has_inf {
            assert forall|i: int| 0 <= i < rest.len() implies !(#[trigger] rest[i]).has_nan
                && !rest[i].has_inf by {
                assert(rest[i] == findings[i]);
            }
        }
    }
}

/// The checks pass exactly where no issue is reported, and the issues are as
/// many as the layers counted for them.
pub proof fn law_passed_means_no_issues(findings: Seq<LayerFinding>)
    ensures
        all_issues(findings).len() == nan_count(findings) + inf_count(findings),
        all_issues(findings).len() == 0 <==> (forall|i: int|
            0 <= i < findings.len() ==> !(#[trigger] findings[i]).has_nan && !findings[i].has_inf),
{
    lemma_issues_empty(findings);
}

proof fn lemma_counts_are_sums(findings: Seq<LayerFinding>)
    ensures
        total_time(findings) == findings.fold_left(
            0int,
            |n: int, f: LayerFinding| n + f.elapsed_ms,
        ),
        nan_count(findings) == findings.fold_left(
            0int,
            |n: int, f: LayerFinding|
                n + if f.has_nan {
                    1int
                } else {
                    0
                },
        ),
        inf_count(findings) == findings.fold_left(
            0int,
            |n: int, f: LayerFinding|
                n + if f.has_inf {
                    1int
                } else {
                    0
                },
        ),
        nan_count(findings) <= findings.len(),
        inf_count(findings) <= findings.len(),
        forall|i: int|
            0 <= i < findings.len() ==> (#[trigger] findings[i]).elapsed_ms <= longest_time(
                findings,
            ),
        findings.len() > 0 ==> exists|i: int|
            0 <= i < findings.len() && (#[trigger] findings[i]).elapsed_ms == longest_time(
                findings,
            ),
    decreases findings.len(),
{
    if findings.len() > 0 {
        let rest = findings.drop_last();
        let last = findings.len() - 1;
        lemma_counts_are_sums(rest);
        assert(findings[last] == findings.last());
        assert forall|i: int| 0 <= i < findings.len() implies (#[trigger] findings[i]).elapsed_ms
            <= longest_time(findings) by {
            if i < last {
                assert(rest[i] == findings[i]);
            }
        }
        if longest_time(findings) != findings.last().elapsed_ms {
            let i = choose|i: int|
                0 <= i < rest.len() && (#[trigger] rest[i]).elapsed_ms == longest_time(rest);
            assert(findings[i] == rest[i]);
        }
    }
}

proof fn lemma_issue_listed(findings: Seq<LayerFinding>, x: DiagnosticIssue)
    ensures
        all_issues(findings).contains(x) == exists|i: int|
            0 <= i < findings.len() && issues_of(#[trigger] findings[i]).contains(x),
    decreases findings.len(),
{
    if findings.len() > 0 {
        let rest = findings.drop_last();
        let last = findings.len() - 1;
        lemma_issue_listed(rest, x);
        let a = all_issues(rest);
        let b = issues_of(findings.last());
        let s = a + b;
        assert(findings[last] == findings.last());
        if s.contains(x) {
            let k = choose|k: int| 0 <= k < s.len() && s[k] == x;
            if k < a.len() {
                assert(a[k] == x);
                let i = choose|i: int| 0 <= i < rest.len() && issues_of(#[trigger] rest[i]).contains(x);
                assert(findings[i] == rest[i]);
            } else {
                assert(b[k - a.len()] == x);
                assert(issues_of(findings[last]).contains(x));
            }
        }
        if exists|i: int| 0 <= i < findings.len() && issues_of(#[trigger] findings[i]).contains(x) {
            let i = choose|i: int|
                0 <= i < findings.len() && issues_of(#[trigger] findings[i]).contains(x);
            if i < last {
                assert(rest[i] == findings[i]);
                assert(a.contains(x));
                let k = choose|k: int| 0 <= k < a.len() && a[k] == x;
                assert(s[k] == x);
            } else {
                let k = choose|k: int| 0 <= k < b.len() && b[k] == x;
                assert(s[a.len() + k] == x);
            }
        }
    }
}

/// A report lists an issue for each layer with a value that is no number and for each with
/// an infinite one, and counts them; the times are summed up, and the longest is given.
pub proof fn law_report_lists_every_finding(
    findings: &Vec<LayerFinding>,
    memory: u64,
    r: DiagnosticReport,
    layer: u32,
)
    requires
        call_ensures(report_findings, (findings, memory), r),
        total_time(findings@) <= u64::MAX,
    ensures
        r.issues@.contains(DiagnosticIssue::NanInLayer(layer)) == exists|i: int|
            0 <= i < findings@.len() && (#[trigger] findings@[i]).layer_index == layer
                && findings@[i].has_nan,
        r.issues@.contains(DiagnosticIssue::InfInLayer(layer)) == exists|i: int|
            0 <= i < findings@.len() && (#[trigger] findings@[i]).layer_index == layer
                && findings@[i].has_inf,
        r.global.total_layers == findings@.len(),
        r.global.nan_layers == findings@.fold_left(
            0int,
            |n: int, f: LayerFinding|
                n + if f.has_nan {
                    1int
                } else {
                    0
                },
        ),
        r.global.inf_layers == findings@.fold_left(
            0int,
            |n: int, f: LayerFinding|
                n + if f.has_inf {
                    1int
                } else {
                    0
                },
        ),
        r.global.total_runtime_ms == findings@.fold_left(
            0int,
            |n: int, f: LayerFinding| n + f.elapsed_ms,
        ),
        forall|i: int|
            0 <= i < findings@.len() ==> (#[trigger] findings@[i]).elapsed_ms
                <= r.global.max_runtime_ms,
        findings@.len() > 0 ==> exists|i: int|
            0 <= i < findings@.len() && (#[trigger] findings@[i]).elapsed_ms
                == r.global.max_runtime_ms,
        r.global.memory_peak_bytes == memory,
{
    let f = findings@;
    assert(findings.len() == f.len());
    lemma_counts_are_sums(f);
    let nan = DiagnosticIssue::NanInLayer(layer);
    let inf = DiagnosticIssue::InfInLayer(layer);
    lemma_issue_listed(f, nan);
    lemma_issue_listed(f, inf);
    assert forall|i: int| 0 <= i < f.len() implies issues_of(#[trigger] f[i]).contains(nan) == (
    f[i].layer_index == layer && f[i].has_nan) && issues_of(f[i]).contains(inf) == (
    f[i].layer_index == layer && f[i].has_inf) by {
        let s = issues_of(f[i]);
        if f[i].has_nan {
            assert(s[0] == DiagnosticIssue::NanInLayer(f[i].layer_index));
        }
        if f[i].has_inf {
            assert(s[s.len() - 1] == DiagnosticIssue::InfInLayer(f[i].layer_index));
        }
    }
    if exists|i: int| 0 <= i < f.len() && (#[trigger] f[i]).layer_index == layer && f[i].has_nan {
        let i = choose|i: int|
            0 <= i < f.len() && (#[trigger] f[i]).layer_index == layer && f[i].has_nan;
        assert(issues_of(f[i]).contains(nan));
    }
    if exists|i: int| 0 <= i < f.len() && (#[trigger] f[i]).layer_index == layer && f[i].has_inf {
        let i = choose|i: int|
            0 <= i < f.len() && (#[trigger] f[i]).layer_index == layer && f[i].has_inf;
        assert(issues_of(f[i]).contains(inf));
    }
}

} // verus!
