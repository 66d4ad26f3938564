//! Assessment of the hardware that an image is compiled for: which benchmarks
//! are run, and what follows from their results.

use vstd::prelude::*;
use vstd::relations::{sorted_by, total_ordering};
use vstd::seq_lib::lemma_sorted_unique;
use vstd::string::*;

use crate::compile::coreml;
use crate::compile::coreml::{ConcurrencyPlan, SubgraphDecomposition};
use crate::config::copy_dims;
use crate::order;
use crate::text;

verus! {

// ---------------------------------------------------------------------------
// Timing
// ---------------------------------------------------------------------------

/// A kernel variant that can be benchmarked.
#[derive(Debug)]
pub struct KernelCandidate {
    pub name: String,
    pub backend: String,
    pub op_type: String,
}

/// What thirty timed runs came to, in nanoseconds.
#[derive(Debug, Clone, Copy, PartialEq, Eq, Structural)]
pub struct LatencyStats {
    pub median: u64,
    pub min: u64,
    pub p90: u64,
}

/// The order of numbers.
pub open spec fn ascending() -> spec_fn(u64, u64) -> bool {
    |a: u64, b: u64| a <= b
}

proof fn lemma_insert_multiset(s: Seq<u64>, pos: int, x: u64)
    requires
        0 <= pos <= s.len(),
    ensures
        s.insert(pos, x).to_multiset() == s.to_multiset().insert(x),
{
    broadcast use vstd::seq_lib::group_to_multiset_ensures;

    let t = s.insert(pos, x);
    assert(t.remove(pos) =~= s);
    assert(t[pos] == x);
    assert(t.contains(x));
    assert(t.to_multiset().count(x) > 0);
    assert(t.to_multiset().remove(x).insert(x) =~= t.to_multiset());
}

/// The numbers in ascending order.
fn sort_numbers(v: &Vec<u64>) -> (r: Vec<u64>)
    ensures
        r@ == v@.sort_by(ascending()),
        r@.len() == v@.len(),
{
    let mut r: Vec<u64> = Vec::new();
    let mut i: usize = 0;
    assert(v@.take(0) =~= Seq::<u64>::empty());
    while i < v.len()
        invariant
            i <= v@.len(),
            r@.len() == i,
            r@.to_multiset() == v@.take(i as int).to_multiset(),
            forall|a: int, b: int| 0 <= a < b < r@.len() ==> #[trigger] r@[a] <= #[trigger] r@[b],
        decreases v@.len() - i,
    {
        let x: u64 = v[i];
        let mut pos: usize = 0;
        while pos < r.len() && r[pos] <= x
            invariant
                pos <= r@.len(),
                r@.len() == i,
                forall|a: int| 0 <= a < pos ==> #[trigger] r@[a] <= x,
            decreases r@.len() - pos,
        {
            pos = pos + 1;
        }
        let ghost before = r@;
        r.insert(pos, x);
        proof {
            broadcast use vstd::seq_lib::group_to_multiset_ensures;

            lemma_insert_multiset(before, pos as int, x);
            assert(v@.take(i + 1) =~= v@.take(i as int).push(x));
            assert forall|a: int, b: int| 0 <= a < b < r@.len() implies #[trigger] r@[a]
                <= #[trigger] r@[b] by {
                if pos < before.len() {
                    assert(before[pos as int] > x);
                }
                if a > pos {
                    assert(before[a - 1] <= before[b - 1]);
                } else if a == pos {
                    if b - 1 > pos {
                        assert(before[pos as int] <= before[b - 1]);
                    }
                } else if b > pos {
                    if b - 1 > a {
                        assert(before[a] <= before[b - 1]);
                    }
                } else if b < pos {
                    assert(before[a] <= before[b]);
                }
            }
        }
        i = i + 1;
    }
    proof {
        assert(v@.take(v@.len() as int) =~= v@);
        let leq = ascending();
        assert(total_ordering(leq));
        v@.lemma_sort_by_ensures(leq);
        assert(sorted_by(r@, leq));
        lemma_sorted_unique(r@, v@.sort_by(leq), leq);
    }
    r
}

/// The median, the least and the ninetieth percentile of thirty timed runs: of
/// the times in order, the sixteenth, the first and the twenty-eighth.
pub fn latency_stats(times: &Vec<u64>) -> (r: LatencyStats)
    requires
        times.len() == 30,
    ensures
        r.median == times@.sort_by(ascending())[15],
        r.min == times@.sort_by(ascending())[0],
        r.p90 == times@.sort_by(ascending())[27],
{
    let sorted: Vec<u64> = sort_numbers(times);
    LatencyStats { median: sorted[15], min: sorted[0], p90: sorted[27] }
}

/// The least of thirty timed runs is at most their median, and that at most
/// their ninetieth percentile.
pub proof fn law_stats_are_ordered(times: Seq<u64>)
    requires
        times.len() == 30,
    ensures
        times.sort_by(ascending())[0] <= times.sort_by(ascending())[15],
        times.sort_by(ascending())[15] <= times.sort_by(ascending())[27],
{
    let leq = ascending();
    assert(total_ordering(leq));
    times.lemma_sort_by_ensures(leq);
    broadcast use vstd::seq_lib::group_to_multiset_ensures;

    let s = times.sort_by(leq);
    assert(s.to_multiset().len() == times.to_multiset().len());
    assert(s.len() == 30);
    assert(leq(s[0], s[15]));
    assert(leq(s[15], s[27]));
}

// ---------------------------------------------------------------------------
// Which benchmarks are run
// ---------------------------------------------------------------------------

/// What is benchmarked.
#[derive(Debug, Clone, Copy, PartialEq, Eq, Structural)]
pub enum BenchKind {
    RmsNorm,
    Softmax,
    Matmul,
    Synthetic,
}

/// One benchmark: of which candidate, and on which shape.
#[derive(Debug, Clone, Copy, PartialEq, Eq, Structural)]
pub struct BenchJob {
    pub candidate: usize,
    pub m: u32,
    pub k: u32,
    pub kind: BenchKind,
}

/// The benchmarks of a candidate on the four shapes.
pub open spec fn four_jobs(candidate: usize, kind: BenchKind) -> Seq<BenchJob> {
    seq![
        BenchJob { candidate, m: 32, k: 4096, kind },
        BenchJob { candidate, m: 64, k: 4096, kind },
        BenchJob { candidate, m: 128, k: 4096, kind },
        BenchJob { candidate, m: 256, k: 4096, kind },
    ]
}

fn push_four(jobs: &mut Vec<BenchJob>, candidate: usize, kind: BenchKind)
    ensures
        final(jobs)@ == old(jobs)@ + four_jobs(candidate, kind),
{
    jobs.push(BenchJob { candidate, m: 32, k: 4096, kind });
    jobs.push(BenchJob { candidate, m: 64, k: 4096, kind });
    jobs.push(BenchJob { candidate, m: 128, k: 4096, kind });
    jobs.push(BenchJob { candidate, m: 256, k: 4096, kind });
    assert(jobs@ =~= old(jobs)@ + four_jobs(candidate, kind));
}

/// What is benchmarked on the CPU for an operation.
pub open spec fn cpu_kind(op: Seq<char>) -> BenchKind {
    if op == "rms_norm"@ {
        BenchKind::RmsNorm
    } else if op == "softmax"@ {
        BenchKind::Softmax
    } else if op == "matmul"@ {
        BenchKind::Matmul
    } else {
        BenchKind::Synthetic
    }
}

/// The benchmarks on the CPU: every candidate for it, on each shape.
pub open spec fn cpu_jobs(candidates: Seq<KernelCandidate>) -> Seq<BenchJob>
    decreases candidates.len(),
{
    if candidates.len() == 0 {
        Seq::empty()
    } else {
        let rest = cpu_jobs(candidates.drop_last());
        let c = candidates.last();
        if c.backend@ == "accelerate"@ {
            rest + four_jobs((candidates.len() - 1) as usize, cpu_kind(c.op_type@))
        } else {
            rest
        }
    }
}

/// The benchmarks to run on the CPU.
pub fn bench_accelerate_candidates(candidates: &Vec<KernelCandidate>) -> (jobs: Vec<BenchJob>)
    ensures
        jobs@ == cpu_jobs(candidates@),
{
    let mut jobs: Vec<BenchJob> = Vec::new();
    let mut i: usize = 0;
    assert(candidates@.take(0) =~= Seq::<KernelCandidate>::empty());
    while i < candidates.len()
        invariant
            i <= candidates@.len(),
            jobs@ == cpu_jobs(candidates@.take(i as int)),
        decreases candidates@.len() - i,
    {
        let c: &KernelCandidate = &candidates[i];
        assert(candidates@.take(i + 1).drop_last() =~= candidates@.take(i as int));
        if text::same_text(c.backend.as_str(), "accelerate") {
            let op: &str = c.op_type.as_str();
            let kind: BenchKind = if text::same_text(op, "rms_norm") {
                BenchKind::RmsNorm
            } else if text::same_text(op, "softmax") {
                BenchKind::Softmax
            } else if text::same_text(op, "matmul") {
                BenchKind::Matmul
            } else {
                BenchKind::Synthetic
            };
            push_four(&mut jobs, i, kind);
        }
        i = i + 1;
    }
    assert(candidates@.take(candidates@.len() as int) =~= candidates@);
    jobs
}

/// What is benchmarked on the GPU for an operation, where it is at all.
pub open spec fn gpu_kind(op: Seq<char>) -> Option<BenchKind> {
    if op == "matmul"@ {
        Some(BenchKind::Matmul)
    } else if op == "rms_norm"@ {
        Some(BenchKind::RmsNorm)
    } else {
        None
    }
}

/// The benchmarks on the GPU: products and norms of every candidate for it.
pub open spec fn gpu_jobs(candidates: Seq<KernelCandidate>) -> Seq<BenchJob>
    decreases candidates.len(),
{
    if candidates.len() == 0 {
        Seq::empty()
    } else {
        let rest = gpu_jobs(candidates.drop_last());
        let c = candidates.last();
        match gpu_kind(c.op_type@) {
            Some(kind) => if c.backend@ == "mlx"@ {
                rest + four_jobs((candidates.len() - 1) as usize, kind)
            } else {
                rest
            },
            None => rest,
        }
    }
}

/// The benchmarks to run on the GPU.
pub fn bench_mlx_candidates(candidates: &Vec<KernelCandidate>) -> (jobs: Vec<BenchJob>)
    ensures
        jobs@ == gpu_jobs(candidates@),
{
    let mut jobs: Vec<BenchJob> = Vec::new();
    let mut i: usize = 0;
    assert(candidates@.take(0) =~= Seq::<KernelCandidate>::empty());
    while i < candidates.len()
        invariant
            i <= candidates@.len(),
            jobs@ == gpu_jobs(candidates@.take(i as int)),
        decreases candidates@.len() - i,
    {
        let c: &KernelCandidate = &candidates[i];
        assert(candidates@.take(i + 1).drop_last() =~= candidates@.take(i as int));
        if text::same_text(c.backend.as_str(), "mlx") {
            if text::same_text(c.op_type.as_str(), "matmul") {
                push_four(&mut jobs, i, BenchKind::Matmul);
            } else if text::same_text(c.op_type.as_str(), "rms_norm") {
                push_four(&mut jobs, i, BenchKind::RmsNorm);
            }
        }
        i = i + 1;
    }
    assert(candidates@.take(candidates@.len() as int) =~= candidates@);
    jobs
}

/// The benchmarks to run on the neural engine: none, since its programs are
/// compiled later.
pub fn bench_coreml_candidates(_candidates: &Vec<KernelCandidate>) -> (jobs: Vec<BenchJob>)
    ensures
        jobs@.len() == 0,
{
    Vec::new()
}

// ---------------------------------------------------------------------------
// Results
// ---------------------------------------------------------------------------

/// The result of a benchmark. Real numbers are held as the bit patterns of
/// 64-bit floats.
#[derive(Debug)]
pub struct KernelBenchResult {
    pub variant_name: String,
    pub backend: String,
    pub op_type: String,
    pub shape: Vec<u32>,
    pub dtype: String,
    pub median_latency_ns: u64,
    pub min_latency_ns: u64,
    pub p90_latency_ns: u64,
    pub bandwidth_bits: u64,
    pub throughput_bits: u64,
    pub numerical_error_bits: u64,
    pub compile_time_bits: u64,
}

#[verifier::ext_equal]
pub struct BenchView {
    pub variant_name: Seq<char>,
    pub backend: Seq<char>,
    pub op_type: Seq<char>,
    pub shape: Seq<u32>,
    pub dtype: Seq<char>,
    pub median_latency_ns: u64,
    pub min_latency_ns: u64,
    pub p90_latency_ns: u64,
    pub bandwidth_bits: u64,
    pub throughput_bits: u64,
    pub numerical_error_bits: u64,
    pub compile_time_bits: u64,
}

impl KernelBenchResult {
    pub open spec fn view(&self) -> BenchView {
        BenchView {
            variant_name: self.variant_name@,
            backend: self.backend@,
            op_type: self.op_type@,
            shape: self.shape@,
            dtype: self.dtype@,
            median_latency_ns: self.median_latency_ns,
            min_latency_ns: self.min_latency_ns,
            p90_latency_ns: self.p90_latency_ns,
            bandwidth_bits: self.bandwidth_bits,
            throughput_bits: self.throughput_bits,
            numerical_error_bits: self.numerical_error_bits,
            compile_time_bits: self.compile_time_bits,
        }
    }

    pub fn copy(&self) -> (r: Self)
        ensures
            r@ == self@,
    {
        KernelBenchResult {
            variant_name: self.variant_name.clone(),
            backend: self.backend.clone(),
            op_type: self.op_type.clone(),
            shape: copy_dims(&self.shape),
            dtype: self.dtype.clone(),
            median_latency_ns: self.median_latency_ns,
            min_latency_ns: self.min_latency_ns,
            p90_latency_ns: self.p90_latency_ns,
            bandwidth_bits: self.bandwidth_bits,
            throughput_bits: self.throughput_bits,
            numerical_error_bits: self.numerical_error_bits,
            compile_time_bits: self.compile_time_bits,
        }
    }
}

/// The views of results.
pub open spec fn bench_views(r: Seq<KernelBenchResult>) -> Seq<BenchView> {
    r.map_values(|b: KernelBenchResult| b@)
}

/// The shape that a benchmark reports: on the CPU the vector, or the small
/// product; elsewhere rows and columns.
pub open spec fn reported_shape(job: BenchJob, on_cpu: bool) -> Seq<u32> {
    if on_cpu && (job.kind is RmsNorm || job.kind is Softmax) {
        seq![job.k]
    } else if on_cpu && job.kind is Matmul {
        seq![4u32, job.k, 4]
    } else {
        seq![job.m, job.k]
    }
}

/// The operation that a benchmark reports.
pub open spec fn reported_op(job: BenchJob, op: Seq<char>) -> Seq<char> {
    match job.kind {
        BenchKind::RmsNorm => "rms_norm"@,
        BenchKind::Softmax => "softmax"@,
        BenchKind::Matmul => "matmul"@,
        BenchKind::Synthetic => op,
    }
}

/// What is derived from the times of a benchmark by division. The numbers are
/// bit patterns of 64-bit floats.
#[derive(Debug, Clone, Copy, PartialEq, Eq, Structural)]
pub struct Rates {
    pub bandwidth_bits: u64,
    pub throughput_bits: u64,
    pub numerical_error_bits: u64,
    pub compile_time_bits: u64,
}

/// The result of a benchmark, from its times and rates.
pub fn bench_result(
    candidate: &KernelCandidate,
    job: BenchJob,
    on_cpu: bool,
    stats: LatencyStats,
    rates: Rates,
) -> (r: KernelBenchResult)
    ensures
        r@ == (BenchView {
            variant_name: candidate.name@,
            backend: if on_cpu {
                "accelerate"@
            } else {
                "mlx"@
            },
            op_type: reported_op(job, candidate.op_type@),
            shape: reported_shape(job, on_cpu),
            dtype: "f32"@,
            median_latency_ns: stats.median,
            min_latency_ns: stats.min,
            p90_latency_ns: stats.p90,
            bandwidth_bits: rates.bandwidth_bits,
            throughput_bits: rates.throughput_bits,
            numerical_error_bits: rates.numerical_error_bits,
            compile_time_bits: rates.compile_time_bits,
        }),
{
    let mut shape: Vec<u32> = Vec::new();
    let op_type: String = match job.kind {
        BenchKind::RmsNorm => "rms_norm".to_owned(),
        BenchKind::Softmax => "softmax".to_owned(),
        BenchKind::Matmul => "matmul".to_owned(),
        BenchKind::Synthetic => candidate.op_type.clone(),
    };
    let is_vector: bool = match job.kind {
        BenchKind::RmsNorm => true,
        BenchKind::Softmax => true,
        _ => false,
    };
    let is_product: bool = match job.kind {
        BenchKind::Matmul => true,
        _ => false,
    };
    if on_cpu && is_vector {
        shape.push(job.k);
    } else if on_cpu && is_product {
        shape.push(4);
        shape.push(job.k);
        shape.push(4);
    } else {
        shape.push(job.m);
        shape.push(job.k);
    }
    assert(shape@ =~= reported_shape(job, on_cpu));
    KernelBenchResult {
        variant_name: candidate.name.clone(),
        backend: if on_cpu {
            "accelerate".to_owned()
        } else {
            "mlx".to_owned()
        },
        op_type,
        shape,
        dtype: "f32".to_owned(),
        median_latency_ns: stats.median,
        min_latency_ns: stats.min,
        p90_latency_ns: stats.p90,
        bandwidth_bits: rates.bandwidth_bits,
        throughput_bits: rates.throughput_bits,
        numerical_error_bits: rates.numerical_error_bits,
        compile_time_bits: rates.compile_time_bits,
    }
}

/// The latency that a synthetic result on the CPU starts from.
pub fn synthetic_base(op_type: &str, k: u32) -> (r: u64)
    ensures
        r == (if op_type@ == "rope"@ {
            k / 8
        } else if op_type@ == "silu_mul"@ {
            k / 6
        } else {
            k
        }),
{
    if text::same_text(op_type, "rope") {
        (k / 8) as u64
    } else if text::same_text(op_type, "silu_mul") {
        (k / 6) as u64
    } else {
        k as u64
    }
}

/// Those results that no real benchmark stands for.
pub open spec fn other_backends(r: Seq<BenchView>) -> Seq<BenchView>
    decreases r.len(),
{
    if r.len() == 0 {
        Seq::empty()
    } else {
        let rest = other_backends(r.drop_last());
        if r.last().backend != "accelerate"@ && r.last().backend != "mlx"@ {
            rest.push(r.last())
        } else {
            rest
        }
    }
}

fn push_all(out: &mut Vec<KernelBenchResult>, from: &Vec<KernelBenchResult>)
    ensures
        bench_views(final(out)@) == bench_views(old(out)@) + bench_views(from@),
{
    let ghost before = bench_views(out@);
    let ghost views = bench_views(from@);
    let mut i: usize = 0;
    assert(before + views.take(0) =~= before);
    while i < from.len()
        invariant
            i <= from@.len(),
            views == bench_views(from@),
            bench_views(out@) == before + views.take(i as int),
        decreases from@.len() - i,
    {
        let ghost now = bench_views(out@);
        let b: KernelBenchResult = from[i].copy();
        out.push(b);
        proof {
            assert(bench_views(out@) =~= now.push(b@));
            assert(views.take(i + 1) =~= views.take(i as int).push(views[i as int]));
            assert(bench_views(out@) =~= before + views.take(i + 1));
        }
        i = i + 1;
    }
    assert(views.take(views.len() as int) =~= views);
}

/// All results: the synthetic ones of backends without real benchmarks, then
/// those of the CPU and of the GPU.
pub fn merge_results(
    synthetic: &Vec<KernelBenchResult>,
    accelerate: &Vec<KernelBenchResult>,
    mlx: &Vec<KernelBenchResult>,
) -> (r: Vec<KernelBenchResult>)
    ensures
        bench_views(r@) == other_backends(bench_views(synthetic@)) + bench_views(accelerate@)
            + bench_views(mlx@),
{
    let ghost views = bench_views(synthetic@);
    let mut r: Vec<KernelBenchResult> = Vec::new();
    let mut i: usize = 0;
    while i < synthetic.len()
        invariant
            i <= synthetic@.len(),
            views == bench_views(synthetic@),
            bench_views(r@) =~= other_backends(views.take(i as int)),
        decreases synthetic@.len() - i,
    {
        let ghost now = bench_views(r@);
        proof {
            assert(views.take(i + 1).drop_last() =~= views.take(i as int));
            assert(views.take(i + 1).last() == synthetic@[i as int]@);
        }
        if !text::same_text(synthetic[i].backend.as_str(), "accelerate") && !text::same_text(
            synthetic[i].backend.as_str(),
            "mlx",
        ) {
            let b: KernelBenchResult = synthetic[i].copy();
            r.push(b);
            assert(bench_views(r@) =~= now.push(b@));
        }
        i = i + 1;
    }
    assert(views.take(views.len() as int) =~= views);
    push_all(&mut r, accelerate);
    push_all(&mut r, mlx);
    r
}

// ---------------------------------------------------------------------------
// Lanes
// ---------------------------------------------------------------------------

/// The number of elements of a shape.
pub open spec fn shape_size(shape: Seq<u32>) -> nat
    decreases shape.len(),
{
    if shape.len() == 0 {
        1
    } else {
        shape_size(shape.drop_last()) * shape.last() as nat
    }
}

/// No product of leading dimensions leaves the range of `u64`.
pub open spec fn size_fits(shape: Seq<u32>) -> bool {
    forall|k: int| 0 <= k <= shape.len() ==> #[trigger] shape_size(shape.take(k)) <= u64::MAX
}

fn size_of_shape(shape: &Vec<u32>) -> (n: u64)
    requires
        size_fits(shape@),
    ensures
        n == shape_size(shape@),
{
    let mut n: u64 = 1;
    let mut i: usize = 0;
    while i < shape.len()
        invariant
            i <= shape@.len(),
            size_fits(shape@),
            n == shape_size(shape@.take(i as int)),
        decreases shape@.len() - i,
    {
        proof {
            assert(shape@.take(i + 1).drop_last() =~= shape@.take(i as int));
            assert(shape_size(shape@.take(i + 1)) <= u64::MAX);
            assert(shape_size(shape@.take(i + 1)) == n * shape@[i as int]);
        }
        n = n * shape[i] as u64;
        i = i + 1;
    }
    assert(shape@.take(shape@.len() as int) =~= shape@);
    n
}

/// The lane of an operation: large products run on the GPU, everything else on
/// the CPU.
pub open spec fn lane_for(op: Seq<char>, shape: Seq<u32>) -> Seq<char> {
    if op == "matmul"@ && shape_size(shape) >= 1_048_576 {
        "mlx_gpu"@
    } else {
        "accelerate_cpu"@
    }
}

/// An operation put on a lane, with its latency.
#[derive(Debug)]
pub struct LaneChoice {
    pub op_type: String,
    pub lane: String,
    pub latency_ns: u64,
}

impl LaneChoice {
    pub open spec fn view(&self) -> (Seq<char>, Seq<char>, u64) {
        (self.op_type@, self.lane@, self.latency_ns)
    }
}

/// The lanes that results put their operations on.
pub open spec fn lane_choices(r: Seq<BenchView>) -> Seq<(Seq<char>, Seq<char>, u64)> {
    r.map_values(
        |b: BenchView| (b.op_type, lane_for(b.op_type, b.shape), b.median_latency_ns),
    )
}

/// Puts the operation of every result on a lane.
pub fn assign_lanes(results: &Vec<KernelBenchResult>) -> (r: Vec<LaneChoice>)
    requires
        forall|i: int| 0 <= i < results@.len() ==> size_fits((#[trigger] results@[i]).shape@),
    ensures
        r@.map_values(|c: LaneChoice| c@) == lane_choices(bench_views(results@)),
{
    let ghost want = lane_choices(bench_views(results@));
    let mut r: Vec<LaneChoice> = Vec::new();
    let mut i: usize = 0;
    while i < results.len()
        invariant
            i <= results@.len(),
            forall|i: int| 0 <= i < results@.len() ==> size_fits((#[trigger] results@[i]).shape@),
            want == lane_choices(bench_views(results@)),
            r@.len() == i,
            forall|j: int| 0 <= j < i ==> (#[trigger] r@[j])@ == want[j],
        decreases results@.len() - i,
    {
        let b: &KernelBenchResult = &results[i];
        let large: bool = size_of_shape(&b.shape) >= 1_048_576;
        let lane: String = if text::same_text(b.op_type.as_str(), "matmul") && large {
            "mlx_gpu".to_owned()
        } else {
            "accelerate_cpu".to_owned()
        };
        r.push(LaneChoice { op_type: b.op_type.clone(), lane, latency_ns: b.median_latency_ns });
        i = i + 1;
    }
    assert(r@.map_values(|c: LaneChoice| c@) =~= want);
    r
}

/// The pairs of neighbouring views, which different lanes use.
pub open spec fn neighbours(views: Seq<u64>) -> Seq<(u64, u64)> {
    Seq::new(
        if views.len() == 0 {
            0
        } else {
            (views.len() - 1) as nat
        },
        |i: int| (views[i], views[i + 1]),
    )
}

/// The pairs of views between which the lanes have to be kept in order.
pub fn record_lane_hazards(views: &Vec<u64>) -> (r: Vec<(u64, u64)>)
    ensures
        r@ == neighbours(views@),
{
    let mut r: Vec<(u64, u64)> = Vec::new();
    if views.len() > 0 {
        let mut i: usize = 0;
        while i < views.len() - 1
            invariant
                views@.len() > 0,
                i <= views@.len() - 1,
                r@.len() == i,
                forall|j: int| 0 <= j < i ==> #[trigger] r@[j] == (views@[j], views@[j + 1]),
            decreases views@.len() - i,
        {
            r.push((views[i], views[i + 1]));
            i = i + 1;
        }
    }
    assert(r@ =~= neighbours(views@));
    r
}

// ---------------------------------------------------------------------------
// Placement
// ---------------------------------------------------------------------------

/// What a lane achieved at an operation.
#[derive(Debug)]
pub struct LaneBenchResult {
    pub lane: String,
    pub median_ns: u64,
    pub min_ns: u64,
    pub bandwidth_bits: u64,
    pub numerical_error_bits: u64,
}

/// Which lane is the fastest at an operation, and which comes second.
#[derive(Debug)]
pub struct PlacementReport {
    pub op_type: String,
    pub shape: Vec<u32>,
    pub winner: String,
    pub winner_latency_ns: u64,
    pub runner_up: String,
    pub runner_up_latency_ns: u64,
    pub hazard_count: u32,
    pub total_transfer_bytes: u64,
    pub lane_results: Vec<LaneBenchResult>,
}

/// Whether a result is of an operation.
pub open spec fn is_of(b: BenchView, op: Seq<char>) -> bool {
    b.op_type == op
}

/// Whether result `i` is the best of its lane at an operation, among the first
/// `n` results: none is faster, and none that is as fast comes first.
pub open spec fn is_lane_best(r: Seq<BenchView>, n: int, op: Seq<char>, i: int) -> bool {
    &&& 0 <= i < n
    &&& is_of(r[i], op)
    &&& forall|j: int|
        0 <= j < n && is_of(#[trigger] r[j], op) && r[j].backend == r[i].backend
            ==> r[i].median_latency_ns < r[j].median_latency_ns || (r[i].median_latency_ns
            == r[j].median_latency_ns && i <= j)
}

/// Whether the positions are those of the bests of all lanes at an operation,
/// among the first `n` results, each lane once.
pub open spec fn are_lane_bests(
    r: Seq<BenchView>,
    n: int,
    op: Seq<char>,
    bests: Seq<usize>,
) -> bool {
    &&& forall|a: int| 0 <= a < bests.len() ==> is_lane_best(r, n, op, (#[trigger] bests[a]) as int)
    &&& forall|a: int, b: int|
        0 <= a < b < bests.len() ==> r[(#[trigger] bests[a]) as int].backend
            != r[(#[trigger] bests[b]) as int].backend
    &&& forall|j: int|
        0 <= j < n && is_of(#[trigger] r[j], op) ==> has_lane(r, bests, r[j].backend)
}

/// Whether one of the positions is of that lane.
pub open spec fn has_lane(r: Seq<BenchView>, bests: Seq<usize>, lane: Seq<char>) -> bool {
    exists|a: int| 0 <= a < bests.len() && r[(#[trigger] bests[a]) as int].backend == lane
}

/// Whether result `i` can be the fastest of its operation: it is the best of its
/// lane, and no result of the operation is faster.
pub open spec fn can_win(r: Seq<BenchView>, i: int) -> bool {
    &&& is_lane_best(r, r.len() as int, r[i].op_type, i)
    &&& forall|j: int|
        0 <= j < r.len() && is_of(#[trigger] r[j], r[i].op_type) ==> r[i].median_latency_ns
            <= r[j].median_latency_ns
}

/// The sizes of the shapes stay in range, and those of the fastest results do so
/// doubled.
pub open spec fn sizes_fit(r: Seq<BenchView>) -> bool {
    &&& forall|i: int| 0 <= i < r.len() ==> size_fits((#[trigger] r[i]).shape)
    &&& forall|i: int|
        0 <= i < r.len() && #[trigger] can_win(r, i) ==> 2 * shape_size(r[i].shape) <= u64::MAX
}

/// Whether what is reported of a lane is what a result says.
pub open spec fn is_lane_result(l: LaneBenchResult, b: BenchView) -> bool {
    &&& l.lane@ == b.backend
    &&& l.median_ns == b.median_latency_ns
    &&& l.min_ns == b.min_latency_ns
    &&& l.bandwidth_bits == b.bandwidth_bits
    &&& l.numerical_error_bits == b.numerical_error_bits
}

/// Whether a report is right about an operation: it lists the best results of
/// the lanes, the fastest first; the first is the winner, and the second, where
/// there is one, comes second.
pub open spec fn is_placement(p: PlacementReport, r: Seq<BenchView>, op: Seq<char>, by: Seq<usize>) -> bool {
    &&& are_lane_bests(r, r.len() as int, op, by)
    &&& by.len() > 0
    &&& forall|a: int, b: int|
        0 <= a < b < by.len() ==> r[(#[trigger] by[a]) as int].median_latency_ns <= r[(
        #[trigger] by[b]) as int].median_latency_ns
    &&& p.op_type@ == op
    &&& p.lane_results@.len() == by.len()
    &&& forall|a: int|
        0 <= a < by.len() ==> is_lane_result(#[trigger] p.lane_results@[a], r[by[a] as int])
    &&& p.shape@ == r[by[0] as int].shape
    &&& p.winner@ == r[by[0] as int].backend
    &&& p.winner_latency_ns == r[by[0] as int].median_latency_ns
    &&& p.runner_up@ == r[second(by) as int].backend
    &&& p.runner_up_latency_ns == r[second(by) as int].median_latency_ns
    &&& p.hazard_count == (by.len() - 1) as u32
    &&& p.total_transfer_bytes == 2 * shape_size(r[by[0] as int].shape)
}

/// The second position, or the only one.
pub open spec fn second(by: Seq<usize>) -> usize {
    if by.len() > 1 {
        by[1]
    } else {
        by[0]
    }
}

fn lane_position(results: &Vec<KernelBenchResult>, bests: &Vec<usize>, lane: &str) -> (r: Option<
    usize,
>)
    requires
        forall|a: int| 0 <= a < bests@.len() ==> (#[trigger] bests@[a]) < results@.len(),
    ensures
        match r {
            Some(a) => a < bests@.len() && results@[bests@[a as int] as int].backend@ == lane@,
            None => forall|a: int|
                0 <= a < bests@.len() ==> results@[(#[trigger] bests@[a]) as int].backend@
                    != lane@,
        },
{
    let mut a: usize = 0;
    while a < bests.len()
        invariant
            a <= bests@.len(),
            forall|a: int| 0 <= a < bests@.len() ==> (#[trigger] bests@[a]) < results@.len(),
            forall|b: int|
                0 <= b < a ==> results@[(#[trigger] bests@[b]) as int].backend@ != lane@,
        decreases bests@.len() - a,
    {
        if text::same_text(results[bests[a]].backend.as_str(), lane) {
            return Some(a);
        }
        a = a + 1;
    }
    None
}

/// The positions of the best results of the lanes at an operation.
fn find_lane_bests(results: &Vec<KernelBenchResult>, op: &str) -> (bests: Vec<usize>)
    ensures
        are_lane_bests(bench_views(results@), results@.len() as int, op@, bests@),
{
    let ghost r = bench_views(results@);
    let mut bests: Vec<usize> = Vec::new();
    let mut i: usize = 0;
    while i < results.len()
        invariant
            i <= results@.len(),
            r == bench_views(results@),
            r.len() == results@.len(),
            are_lane_bests(r, i as int, op@, bests@),
        decreases results@.len() - i,
    {
        let ghost before = bests@;
        assert(r[i as int] == results@[i as int]@);
        if text::same_text(results[i].op_type.as_str(), op) {
            assert forall|a: int| 0 <= a < bests@.len() implies (#[trigger] bests@[a])
                < results@.len() by {
                assert(is_lane_best(r, i as int, op@, bests@[a] as int));
            }
            match lane_position(results, &bests, results[i].backend.as_str()) {
                Some(a) => {
                    if results[i].median_latency_ns < results[bests[a]].median_latency_ns {
                        bests.set(a, i);
                    }
                    proof {
                        lemma_lane_kept(r, i as int, op@, before, bests@, a as int);
                    }
                },
                None => {
                    bests.push(i);
                    proof {
                        lemma_lane_added(r, i as int, op@, before);
                        assert(bests@ =~= before.push(i));
                    }
                },
            }
        } else {
            proof {
                lemma_other_op(r, i as int, op@, before);
            }
        }
        i = i + 1;
    }
    bests
}

proof fn lemma_other_op(r: Seq<BenchView>, n: int, op: Seq<char>, bests: Seq<usize>)
    requires
        0 <= n < r.len(),
        are_lane_bests(r, n, op, bests),
        !is_of(r[n], op),
    ensures
        are_lane_bests(r, n + 1, op, bests),
{
    assert forall|a: int| 0 <= a < bests.len() implies is_lane_best(
        r,
        n + 1,
        op,
        (#[trigger] bests[a]) as int,
    ) by {
        assert(is_lane_best(r, n, op, bests[a] as int));
    }
}

proof fn lemma_lane_added(r: Seq<BenchView>, n: int, op: Seq<char>, bests: Seq<usize>)
    requires
        0 <= n < r.len(),
        n <= usize::MAX,
        are_lane_bests(r, n, op, bests),
        is_of(r[n], op),
        forall|a: int|
            0 <= a < bests.len() ==> r[(#[trigger] bests[a]) as int].backend != r[n].backend,
    ensures
        are_lane_bests(r, n + 1, op, bests.push(n as usize)),
{
    let all = bests.push(n as usize);
    assert forall|j: int|
        0 <= j < n + 1 && is_of(#[trigger] r[j], op) && r[j].backend == r[n].backend implies j
        == n by {
        if j < n {
            assert(has_lane(r, bests, r[j].backend));
        }
    }
    assert forall|a: int| 0 <= a < all.len() implies is_lane_best(
        r,
        n + 1,
        op,
        (#[trigger] all[a]) as int,
    ) by {
        if a < bests.len() {
            assert(all[a] == bests[a]);
            assert(is_lane_best(r, n, op, bests[a] as int));
        }
    }
    assert forall|a: int, b: int| 0 <= a < b < all.len() implies r[(#[trigger] all[a]) as int].backend
        != r[(#[trigger] all[b]) as int].backend by {
        assert(all[a] == bests[a]);
        if b < bests.len() {
            assert(all[b] == bests[b]);
        }
    }
    assert forall|j: int| 0 <= j < n + 1 && is_of(#[trigger] r[j], op) implies has_lane(
        r,
        all,
        r[j].backend,
    ) by {
        if j < n {
            assert(has_lane(r, bests, r[j].backend));
            let a = choose|a: int|
                0 <= a < bests.len() && r[(#[trigger] bests[a]) as int].backend == r[j].backend;
            assert(r[all[a] as int].backend == r[j].backend);
        } else {
            assert(r[all[bests.len() as int] as int].backend == r[j].backend);
        }
    }
}

proof fn lemma_lane_kept(
    r: Seq<BenchView>,
    n: int,
    op: Seq<char>,
    before: Seq<usize>,
    after: Seq<usize>,
    p: int,
)
    requires
        0 <= n < r.len(),
        n <= usize::MAX,
        are_lane_bests(r, n, op, before),
        is_of(r[n], op),
        0 <= p < before.len(),
        r[before[p] as int].backend == r[n].backend,
        after == if r[n].median_latency_ns < r[before[p] as int].median_latency_ns {
            before.update(p, n as usize)
        } else {
            before
        },
    ensures
        are_lane_bests(r, n + 1, op, after),
{
    assert(is_lane_best(r, n, op, before[p] as int));
    assert forall|a: int| 0 <= a < after.len() implies is_lane_best(
        r,
        n + 1,
        op,
        (#[trigger] after[a]) as int,
    ) by {
        assert(is_lane_best(r, n, op, before[a] as int));
        if a != p {
            if a < p {
                assert(r[before[a] as int].backend != r[before[p] as int].backend);
            } else {
                assert(r[before[p] as int].backend != r[before[a] as int].backend);
            }
        }
    }
    assert forall|a: int, b: int| 0 <= a < b < after.len() implies r[(
    #[trigger] after[a]) as int].backend != r[(#[trigger] after[b]) as int].backend by {
        assert(r[before[a] as int].backend != r[before[b] as int].backend);
        assert(r[after[a] as int].backend == r[before[a] as int].backend);
        assert(r[after[b] as int].backend == r[before[b] as int].backend);
    }
    assert forall|j: int| 0 <= j < n + 1 && is_of(#[trigger] r[j], op) implies has_lane(
        r,
        after,
        r[j].backend,
    ) by {
        if j < n {
            assert(has_lane(r, before, r[j].backend));
            let a = choose|a: int|
                0 <= a < before.len() && r[(#[trigger] before[a]) as int].backend == r[j].backend;
            assert(r[after[a] as int].backend == r[j].backend);
        } else {
            assert(r[after[p] as int].backend == r[j].backend);
        }
    }
}

/// Sorts positions by the medians of their results, keeping those with equal
/// medians in order.
fn sort_by_median(results: &Vec<KernelBenchResult>, bests: &Vec<usize>, op: &str) -> (by: Vec<usize>)
    requires
        are_lane_bests(bench_views(results@), results@.len() as int, op@, bests@),
    ensures
        are_lane_bests(bench_views(results@), results@.len() as int, op@, by@),
        by@.len() == bests@.len(),
        forall|a: int, b: int|
            0 <= a < b < by@.len() ==> results@[(#[trigger] by@[a]) as int].median_latency_ns
                <= results@[(#[trigger] by@[b]) as int].median_latency_ns,
{
    let ghost r = bench_views(results@);
    let mut by: Vec<usize> = Vec::new();
    let mut i: usize = 0;
    while i < bests.len()
        invariant
            i <= bests@.len(),
            r == bench_views(results@),
            r.len() == results@.len(),
            are_lane_bests(r, results@.len() as int, op@, bests@),
            by@.len() == i,
            forall|a: int|
                0 <= a < by@.len() ==> exists|c: int|
                    0 <= c < i && #[trigger] bests@[c] == #[trigger] by@[a],
            forall|a: int, b: int|
                0 <= a < b < by@.len() ==> r[(#[trigger] by@[a]) as int].backend != r[(
                #[trigger] by@[b]) as int].backend,
            forall|c: int|
                0 <= c < i ==> has_lane(r, by@, r[(#[trigger] bests@[c]) as int].backend),
            forall|a: int, b: int|
                0 <= a < b < by@.len() ==> results@[(#[trigger] by@[a]) as int].median_latency_ns
                    <= results@[(#[trigger] by@[b]) as int].median_latency_ns,
        decreases bests@.len() - i,
    {
        let x: usize = bests[i];
        assert(is_lane_best(r, results@.len() as int, op@, bests@[i as int] as int));
        assert forall|a: int| 0 <= a < by@.len() implies (#[trigger] by@[a]) < results@.len()
            && r[by@[a] as int].backend != r[x as int].backend by {
            let c = choose|c: int| 0 <= c < i && #[trigger] bests@[c] == by@[a];
            assert(is_lane_best(r, results@.len() as int, op@, bests@[c] as int));
            assert(r[bests@[c] as int].backend != r[bests@[i as int] as int].backend);
        }
        let mut pos: usize = 0;
        while pos < by.len() && results[by[pos]].median_latency_ns <= results[x].median_latency_ns
            invariant
                pos <= by@.len(),
                x < results@.len(),
                by@.len() == i,
                forall|a: int| 0 <= a < by@.len() ==> (#[trigger] by@[a]) < results@.len(),
                forall|a: int|
                    0 <= a < pos ==> results@[(#[trigger] by@[a]) as int].median_latency_ns
                        <= results@[x as int].median_latency_ns,
            decreases by@.len() - pos,
        {
            pos = pos + 1;
        }
        let ghost before = by@;
        by.insert(pos, x);
        proof {
            lemma_inserted(results@, before, pos as int, x, by@);
            assert forall|a: int| 0 <= a < by@.len() implies exists|c: int|
                0 <= c < i + 1 && #[trigger] bests@[c] == #[trigger] by@[a] by {
                if a < pos {
                    assert(by@[a] == before[a]);
                    let c = choose|c: int| 0 <= c < i && #[trigger] bests@[c] == before[a];
                    assert(bests@[c] == by@[a]);
                } else if a == pos {
                    assert(bests@[i as int] == by@[a]);
                } else {
                    assert(by@[a] == before[a - 1]);
                    let c = choose|c: int| 0 <= c < i && #[trigger] bests@[c] == before[a - 1];
                    assert(bests@[c] == by@[a]);
                }
            }
            assert forall|c: int| 0 <= c < i + 1 implies has_lane(
                r,
                by@,
                r[(#[trigger] bests@[c]) as int].backend,
            ) by {
                if c < i {
                    let lane = r[bests@[c] as int].backend;
                    assert(has_lane(r, before, lane));
                    let a = choose|a: int|
                        0 <= a < before.len() && r[(#[trigger] before[a]) as int].backend == lane;
                    if a < pos {
                        assert(r[by@[a] as int].backend == lane);
                    } else {
                        assert(by@[a + 1] == before[a]);
                        assert(r[by@[a + 1] as int].backend == lane);
                    }
                } else {
                    assert(r[by@[pos as int] as int].backend == r[bests@[c] as int].backend);
                }
            }
            assert forall|a: int, b: int| 0 <= a < b < by@.len() implies r[(
            #[trigger] by@[a]) as int].backend != r[(#[trigger] by@[b]) as int].backend by {
                let u = if a < pos {
                    a
                } else {
                    a - 1
                };
                let v = if b < pos {
                    b
                } else {
                    b - 1
                };
                if a != pos && b != pos {
                    assert(by@[a] == before[u] && by@[b] == before[v]);
                    assert(r[before[u] as int].backend != r[before[v] as int].backend);
                } else if a == pos {
                    assert(by@[b] == before[v]);
                    assert(r[before[v] as int].backend != r[x as int].backend);
                } else {
                    assert(by@[a] == before[u]);
                    assert(r[before[u] as int].backend != r[x as int].backend);
                }
            }
        }
        i = i + 1;
    }
    proof {
        assert forall|a: int| 0 <= a < by@.len() implies is_lane_best(
            r,
            results@.len() as int,
            op@,
            (#[trigger] by@[a]) as int,
        ) by {
            let c = choose|c: int| 0 <= c < bests@.len() && #[trigger] bests@[c] == by@[a];
            assert(is_lane_best(r, results@.len() as int, op@, bests@[c] as int));
        }
        assert forall|j: int|
            0 <= j < results@.len() && is_of(#[trigger] r[j], op@) implies has_lane(
            r,
            by@,
            r[j].backend,
        ) by {
            assert(has_lane(r, bests@, r[j].backend));
            let c = choose|c: int|
                0 <= c < bests@.len() && r[(#[trigger] bests@[c]) as int].backend == r[j].backend;
            assert(has_lane(r, by@, r[bests@[c] as int].backend));
        }
    }
    by
}

proof fn lemma_inserted(
    results: Seq<KernelBenchResult>,
    before: Seq<usize>,
    pos: int,
    x: usize,
    after: Seq<usize>,
)
    requires
        0 <= pos <= before.len(),
        after == before.insert(pos, x),
        forall|a: int, b: int|
            0 <= a < b < before.len() ==> results[(#[trigger] before[a]) as int].median_latency_ns
                <= results[(#[trigger] before[b]) as int].median_latency_ns,
        forall|a: int|
            0 <= a < pos ==> results[(#[trigger] before[a]) as int].median_latency_ns
                <= results[x as int].median_latency_ns,
        pos < before.len() ==> results[before[pos] as int].median_latency_ns
            > results[x as int].median_latency_ns,
    ensures
        forall|a: int, b: int|
            0 <= a < b < after.len() ==> results[(#[trigger] after[a]) as int].median_latency_ns
                <= results[(#[trigger] after[b]) as int].median_latency_ns,
{
    assert forall|a: int, b: int| 0 <= a < b < after.len() implies results[(
    #[trigger] after[a]) as int].median_latency_ns <= results[(
    #[trigger] after[b]) as int].median_latency_ns by {
        let u = if a < pos {
            a
        } else {
            a - 1
        };
        let v = if b < pos {
            b
        } else {
            b - 1
        };
        if a != pos && b != pos {
            assert(after[a] == before[u] && after[b] == before[v]);
            if u < v {
                assert(results[before[u] as int].median_latency_ns
                    <= results[before[v] as int].median_latency_ns);
            }
        } else if a == pos {
            assert(after[b] == before[v]);
            if v > pos {
                assert(results[before[pos] as int].median_latency_ns
                    <= results[before[v] as int].median_latency_ns);
            }
        } else {
            assert(after[a] == before[u]);
        }
    }
}

fn lane_results_of(results: &Vec<KernelBenchResult>, by: &Vec<usize>) -> (r: Vec<LaneBenchResult>)
    requires
        forall|a: int| 0 <= a < by@.len() ==> (#[trigger] by@[a]) < results@.len(),
    ensures
        r@.len() == by@.len(),
        forall|a: int|
            0 <= a < by@.len() ==> is_lane_result(#[trigger] r@[a], results@[by@[a] as int]@),
{
    let mut r: Vec<LaneBenchResult> = Vec::new();
    let mut i: usize = 0;
    while i < by.len()
        invariant
            i <= by@.len(),
            forall|a: int| 0 <= a < by@.len() ==> (#[trigger] by@[a]) < results@.len(),
            r@.len() == i,
            forall|a: int|
                0 <= a < i ==> is_lane_result(#[trigger] r@[a], results@[by@[a] as int]@),
        decreases by@.len() - i,
    {
        let b: &KernelBenchResult = &results[by[i]];
        r.push(
            LaneBenchResult {
                lane: b.backend.clone(),
                median_ns: b.median_latency_ns,
                min_ns: b.min_latency_ns,
                bandwidth_bits: b.bandwidth_bits,
                numerical_error_bits: b.numerical_error_bits,
            },
        );
        i = i + 1;
    }
    r
}

/// Reports which lane is the fastest at an operation that has results.
pub fn place_op(results: &Vec<KernelBenchResult>, op: &str) -> (p: PlacementReport)
    requires
        sizes_fit(bench_views(results@)),
        exists|i: int| 0 <= i < results@.len() && is_of(#[trigger] bench_views(results@)[i], op@),
    ensures
        exists|by: Seq<usize>| #[trigger] is_placement(p, bench_views(results@), op@, by),
{
    let ghost r = bench_views(results@);
    let bests: Vec<usize> = find_lane_bests(results, op);
    proof {
        let i = choose|i: int| 0 <= i < results@.len() && is_of(#[trigger] r[i], op@);
        assert(has_lane(r, bests@, r[i].backend));
    }
    let by: Vec<usize> = sort_by_median(results, &bests, op);
    assert forall|a: int| 0 <= a < by@.len() implies (#[trigger] by@[a]) < results@.len() by {
        assert(is_lane_best(r, results@.len() as int, op@, by@[a] as int));
    }
    proof {
        let w = by@[0] as int;
        assert(r[w] == results@[w]@);
        assert forall|j: int| 0 <= j < r.len() && is_of(#[trigger] r[j], r[w].op_type) implies r[w].median_latency_ns
            <= r[j].median_latency_ns by {
            assert(has_lane(r, by@, r[j].backend));
            let a = choose|a: int| 0 <= a < by@.len() && r[(#[trigger] by@[a]) as int].backend
                == r[j].backend;
            assert(is_lane_best(r, r.len() as int, op@, by@[a] as int));
            assert(r[by@[a] as int] == results@[by@[a] as int]@);
            if a > 0 {
                assert(results@[by@[0] as int].median_latency_ns
                    <= results@[by@[a] as int].median_latency_ns);
            }
        }
        assert(is_lane_best(r, r.len() as int, op@, w));
        assert(can_win(r, w));
        assert(size_fits(r[w].shape));
    }
    let winner: &KernelBenchResult = &results[by[0]];
    let runner_up: &KernelBenchResult = if by.len() > 1 {
        &results[by[1]]
    } else {
        &results[by[0]]
    };
    let p: PlacementReport = PlacementReport {
        op_type: op.to_owned(),
        shape: copy_dims(&winner.shape),
        winner: winner.backend.clone(),
        winner_latency_ns: winner.median_latency_ns,
        runner_up: runner_up.backend.clone(),
        runner_up_latency_ns: runner_up.median_latency_ns,
        hazard_count: (by.len() - 1) as u32,
        total_transfer_bytes: 2 * size_of_shape(&winner.shape),
        lane_results: lane_results_of(results, &by),
    };
    proof {
        assert forall|a: int, b: int| 0 <= a < b < by@.len() implies r[(
        #[trigger] by@[a]) as int].median_latency_ns <= r[(
        #[trigger] by@[b]) as int].median_latency_ns by {
            assert(results@[by@[a] as int].median_latency_ns
                <= results@[by@[b] as int].median_latency_ns);
        }
        assert forall|a: int| 0 <= a < by@.len() implies is_lane_result(
            #[trigger] p.lane_results@[a],
            r[by@[a] as int],
        ) by {
            assert(r[by@[a] as int] == results@[by@[a] as int]@);
        }
        assert(is_placement(p, r, op@, by@));
    }
    p
}

/// The operations of results, each once, in the order in which they first occur.
pub open spec fn distinct_ops(r: Seq<BenchView>) -> Seq<Seq<char>>
    decreases r.len(),
{
    if r.len() == 0 {
        Seq::empty()
    } else {
        let rest = distinct_ops(r.drop_last());
        if rest.contains(r.last().op_type) {
            rest
        } else {
            rest.push(r.last().op_type)
        }
    }
}

proof fn lemma_distinct_ops_occur(r: Seq<BenchView>, k: int)
    requires
        0 <= k < distinct_ops(r).len(),
    ensures
        exists|i: int| 0 <= i < r.len() && is_of(#[trigger] r[i], distinct_ops(r)[k]),
    decreases r.len(),
{
    let rest = distinct_ops(r.drop_last());
    if k < rest.len() {
        lemma_distinct_ops_occur(r.drop_last(), k);
        let i = choose|i: int|
            0 <= i < r.drop_last().len() && is_of(#[trigger] r.drop_last()[i], rest[k]);
        assert(is_of(r[i], distinct_ops(r)[k]));
    } else {
        assert(is_of(r[r.len() - 1], distinct_ops(r)[k]));
    }
}

fn list_ops(results: &Vec<KernelBenchResult>) -> (ops: Vec<String>)
    ensures
        order::views(ops@) == distinct_ops(bench_views(results@)),
{
    let ghost r = bench_views(results@);
    let mut ops: Vec<String> = Vec::new();
    let mut i: usize = 0;
    while i < results.len()
        invariant
            i <= results@.len(),
            r == bench_views(results@),
            order::views(ops@) =~= distinct_ops(r.take(i as int)),
        decreases results@.len() - i,
    {
        proof {
            assert(r.take(i + 1).drop_last() =~= r.take(i as int));
            assert(r.take(i + 1).last() == results@[i as int]@);
        }
        if !crate::compile::emission::list_holds(&ops, results[i].op_type.as_str()) {
            ops.push(results[i].op_type.clone());
        }
        i = i + 1;
    }
    assert(r.take(r.len() as int) =~= r);
    ops
}

/// Whether a report is right about an operation.
pub open spec fn is_placed(p: PlacementReport, r: Seq<BenchView>, op: Seq<char>) -> bool {
    exists|by: Seq<usize>| #[trigger] is_placement(p, r, op, by)
}

/// Reports for each operation which lane is the fastest.
pub fn place_all(results: &Vec<KernelBenchResult>) -> (r: Vec<PlacementReport>)
    requires
        sizes_fit(bench_views(results@)),
    ensures
        r@.len() == distinct_ops(bench_views(results@)).len(),
        forall|k: int|
            0 <= k < r@.len() ==> is_placed(
                #[trigger] r@[k],
                bench_views(results@),
                distinct_ops(bench_views(results@))[k],
            ),
{
    let ghost views = bench_views(results@);
    let ops: Vec<String> = list_ops(results);
    let ghost keys = distinct_ops(views);
    let mut r: Vec<PlacementReport> = Vec::new();
    let mut k: usize = 0;
    assert(keys.len() == ops@.len());
    while k < ops.len()
        invariant
            k <= ops@.len(),
            sizes_fit(bench_views(results@)),
            views == bench_views(results@),
            views.len() == results@.len(),
            keys == distinct_ops(views),
            keys == order::views(ops@),
            keys.len() == ops@.len(),
            r@.len() == k,
            forall|j: int| 0 <= j < k ==> is_placed(#[trigger] r@[j], views, keys[j]),
        decreases ops@.len() - k,
    {
        proof {
            lemma_distinct_ops_occur(views, k as int);
            assert(keys[k as int] == ops@[k as int]@);
        }
        let p: PlacementReport = place_op(results, ops[k].as_str());
        assert(is_placed(p, views, keys[k as int]));
        r.push(p);
        k = k + 1;
    }
    r
}

fn try_size(shape: &Vec<u32>) -> (r: Option<u64>)
    ensures
        match r {
            Some(n) => size_fits(shape@) && n == shape_size(shape@),
            None => !size_fits(shape@),
        },
{
    let mut n: u64 = 1;
    let mut i: usize = 0;
    while i < shape.len()
        invariant
            i <= shape@.len(),
            n == shape_size(shape@.take(i as int)),
            forall|k: int|
                0 <= k <= i ==> #[trigger] shape_size(shape@.take(k)) <= u64::MAX,
        decreases shape@.len() - i,
    {
        proof {
            assert(shape@.take(i + 1).drop_last() =~= shape@.take(i as int));
            assert(shape_size(shape@.take(i + 1)) == n * shape@[i as int]);
        }
        match n.checked_mul(shape[i] as u64) {
            Some(m) => {
                n = m;
            },
            None => {
                return None;
            },
        }
        i = i + 1;
    }
    assert(shape@.take(shape@.len() as int) =~= shape@);
    Some(n)
}

fn wins(results: &Vec<KernelBenchResult>, i: usize) -> (r: bool)
    requires
        i < results@.len(),
    ensures
        r == can_win(bench_views(results@), i as int),
{
    let ghost views = bench_views(results@);
    let mut j: usize = 0;
    while j < results.len()
        invariant
            j <= results@.len(),
            i < results@.len(),
            views == bench_views(results@),
            views.len() == results@.len(),
            forall|k: int|
                0 <= k < j && is_of(#[trigger] views[k], views[i as int].op_type)
                    ==> views[i as int].median_latency_ns <= views[k].median_latency_ns && (
                views[k].backend == views[i as int].backend ==> views[i as int].median_latency_ns
                    < views[k].median_latency_ns || i <= k),
        decreases results@.len() - j,
    {
        assert(views[j as int] == results@[j as int]@);
        assert(views[i as int] == results@[i as int]@);
        if text::same_text(results[j].op_type.as_str(), results[i].op_type.as_str()) {
            assert(is_of(views[j as int], views[i as int].op_type));
            if results[j].median_latency_ns < results[i].median_latency_ns {
                return false;
            }
            if j < i && results[j].median_latency_ns == results[i].median_latency_ns
                && text::same_text(results[j].backend.as_str(), results[i].backend.as_str()) {
                return false;
            }
        }
        j = j + 1;
    }
    true
}

/// Whether the sizes of the shapes stay in range, and those of the fastest
/// results do so doubled.
pub fn check_sizes(results: &Vec<KernelBenchResult>) -> (r: bool)
    ensures
        r == sizes_fit(bench_views(results@)),
{
    let ghost views = bench_views(results@);
    let mut i: usize = 0;
    while i < results.len()
        invariant
            i <= results@.len(),
            views == bench_views(results@),
            views.len() == results@.len(),
            forall|k: int| 0 <= k < i ==> size_fits((#[trigger] views[k]).shape),
            forall|k: int|
                0 <= k < i && #[trigger] can_win(views, k) ==> 2 * shape_size(views[k].shape)
                    <= u64::MAX,
        decreases results@.len() - i,
    {
        assert(views[i as int] == results@[i as int]@);
        match try_size(&results[i].shape) {
            Some(n) => {
                if n > u64::MAX / 2 && wins(results, i) {
                    return false;
                }
            },
            None => {
                return false;
            },
        }
        i = i + 1;
    }
    true
}

// ---------------------------------------------------------------------------
// Selections and the receipt
// ---------------------------------------------------------------------------

/// Which kernel is used for an operation.
#[derive(Debug)]
pub struct KernelSelection {
    pub op_type: String,
    pub shape_range: Vec<[u32; 2]>,
    pub selected_backend: String,
    pub selected_variant: String,
    pub expected_latency_ns: u64,
    pub fallback_backend: String,
    pub assessment_id: String,
}

/// Whether a selection is the one for an operation whose best result is given.
pub open spec fn is_selection(s: KernelSelection, op: Seq<char>, b: BenchView, id: Seq<char>) -> bool {
    &&& s.op_type@ == op
    &&& s.shape_range@.len() == 1
    &&& s.shape_range@[0]@ == seq![0u32, 4096]
    &&& s.selected_backend@ == b.backend
    &&& s.selected_variant@ == b.variant_name
    &&& s.expected_latency_ns == b.median_latency_ns
    &&& s.fallback_backend@ == if b.backend == "mlx"@ {
        "accelerate"@
    } else {
        "mlx"@
    }
    &&& s.assessment_id@ == "hw-"@ + id
}

/// The selection for an operation, from its best result. What runs on the GPU
/// falls back to the CPU, everything else to the GPU.
pub fn select_kernel(op: &str, best: &KernelBenchResult, stamp: &str) -> (s: KernelSelection)
    ensures
        is_selection(s, op@, best@, stamp@),
{
    let mut shape_range: Vec<[u32; 2]> = Vec::new();
    let whole: [u32; 2] = [0, 4096];
    shape_range.push(whole);
    assert(whole@ =~= seq![0u32, 4096]);
    KernelSelection {
        op_type: op.to_owned(),
        shape_range,
        selected_backend: best.backend.clone(),
        selected_variant: best.variant_name.clone(),
        expected_latency_ns: best.median_latency_ns,
        fallback_backend: if text::same_text(best.backend.as_str(), "mlx") {
            "accelerate".to_owned()
        } else {
            "mlx".to_owned()
        },
        assessment_id: text::join2("hw-", stamp),
    }
}

/// What is known of the device.
#[derive(Debug)]
pub struct HardwareProbe {
    pub device_name: String,
    pub device_family: String,
    pub has_unified_memory: bool,
    pub max_threads_per_threadgroup: u32,
    pub thread_execution_width: u32,
    pub max_buffer_length: u64,
    pub recommended_max_working_set_size: u64,
    pub has_ane: bool,
    pub num_ane_cores: u32,
    pub supports_f16: bool,
    pub supports_bf16: bool,
}

/// The best result of an operation, with the stamp of its assessment.
#[derive(Debug)]
pub struct BestKernel {
    pub op_type: String,
    pub result: KernelBenchResult,
    pub stamp: String,
}

/// What the assessment of the hardware came to.
#[derive(Debug)]
pub struct AssessmentReceipt {
    pub probe: HardwareProbe,
    pub selections: Vec<KernelSelection>,
    pub lane_choices: Vec<LaneChoice>,
    pub benchmark_results: Vec<KernelBenchResult>,
    pub placement_reports: Vec<PlacementReport>,
    pub assessment_duration_ms: u64,
    pub assessment_timestamp: String,
}

/// The results of an assessment: the merged ones, and the one of the neural
/// engine where there is one.
pub open spec fn assessed_results(
    synthetic: Seq<BenchView>,
    accelerate: Seq<BenchView>,
    mlx: Seq<BenchView>,
    coreml: Option<BenchView>,
) -> Seq<BenchView> {
    let merged = other_backends(synthetic) + accelerate + mlx;
    match coreml {
        Some(b) => merged.push(b),
        None => merged,
    }
}

/// What an assessment comes to, from the device, the results of the benchmarks
/// and the best kernel of each operation.
pub fn run_hardware_assessment(
    probe: HardwareProbe,
    results: Vec<KernelBenchResult>,
    best: &Vec<BestKernel>,
    timestamp: String,
) -> (r: AssessmentReceipt)
    requires
        sizes_fit(bench_views(results@)),
    ensures
        r.probe == probe,
        r.benchmark_results == results,
        r.assessment_duration_ms == 100,
        r.assessment_timestamp == timestamp,
        r.selections@.len() == best@.len(),
        forall|k: int|
            0 <= k < best@.len() ==> is_selection(
                #[trigger] r.selections@[k],
                best@[k].op_type@,
                best@[k].result@,
                best@[k].stamp@,
            ),
        r.lane_choices@.map_values(|c: LaneChoice| c@) == lane_choices(bench_views(results@)),
        r.placement_reports@.len() == distinct_ops(bench_views(results@)).len(),
        forall|k: int|
            0 <= k < r.placement_reports@.len() ==> is_placed(
                #[trigger] r.placement_reports@[k],
                bench_views(results@),
                distinct_ops(bench_views(results@))[k],
            ),
{
    let ghost views = bench_views(results@);
    assert forall|i: int| 0 <= i < results@.len() implies size_fits(
        (#[trigger] results@[i]).shape@,
    ) by {
        assert(size_fits(views[i].shape));
    }
    let placement_reports: Vec<PlacementReport> = place_all(&results);
    let lane_choices: Vec<LaneChoice> = assign_lanes(&results);
    let mut selections: Vec<KernelSelection> = Vec::new();
    let mut i: usize = 0;
    while i < best.len()
        invariant
            i <= best@.len(),
            selections@.len() == i,
            forall|k: int|
                0 <= k < i ==> is_selection(
                    #[trigger] selections@[k],
                    best@[k].op_type@,
                    best@[k].result@,
                    best@[k].stamp@,
                ),
        decreases best@.len() - i,
    {
        selections.push(
            select_kernel(best[i].op_type.as_str(), &best[i].result, best[i].stamp.as_str()),
        );
        i = i + 1;
    }
    AssessmentReceipt {
        probe,
        selections,
        lane_choices,
        benchmark_results: results,
        placement_reports,
        assessment_duration_ms: 100,
        assessment_timestamp: timestamp,
    }
}

/// The results that an assessment goes by.
pub fn gather_results(
    synthetic: &Vec<KernelBenchResult>,
    accelerate: &Vec<KernelBenchResult>,
    mlx: &Vec<KernelBenchResult>,
    coreml: Option<KernelBenchResult>,
) -> (r: Vec<KernelBenchResult>)
    ensures
        bench_views(r@) == assessed_results(
            bench_views(synthetic@),
            bench_views(accelerate@),
            bench_views(mlx@),
            match coreml {
                Some(b) => Some(b@),
                None => None,
            },
        ),
{
    let mut r: Vec<KernelBenchResult> = merge_results(synthetic, accelerate, mlx);
    let ghost merged = bench_views(r@);
    match coreml {
        Some(b) => {
            r.push(b);
            assert(bench_views(r@) =~= merged.push(b@));
        },
        None => {},
    }
    r
}

/// Whether a division is that of a subgraph of the catalog.
pub open spec fn is_decomposition(
    d: SubgraphDecomposition,
    g: (Seq<char>, Seq<Seq<char>>),
    plan: Seq<coreml::LaneAssignment>,
) -> bool {
    &&& d.subgraph_name@ == g.0
    &&& order::views(d.coreml_ops@) == coreml::ops_on(plan, g.1, false)
    &&& order::views(d.accelerate_ops@) == coreml::ops_on(plan, g.1, true)
    &&& !d.compiled
    &&& d.modelc_path is None
}

/// Divides every subgraph of the catalog.
pub fn decompose_all(plan: &ConcurrencyPlan) -> (r: Vec<SubgraphDecomposition>)
    ensures
        r@.len() == coreml::subgraph_catalog().len(),
        forall|k: int|
            0 <= k < r@.len() ==> is_decomposition(
                #[trigger] r@[k],
                coreml::subgraph_catalog()[k],
                plan.concurrent_assignments@,
            ),
{
    let graphs: Vec<coreml::Subgraph> = coreml::candidate_subgraphs();
    let ghost catalog = coreml::subgraph_catalog();
    let mut r: Vec<SubgraphDecomposition> = Vec::new();
    let mut i: usize = 0;
    assert(coreml::subgraph_views(graphs@).len() == graphs@.len());
    while i < graphs.len()
        invariant
            i <= graphs@.len(),
            catalog == coreml::subgraph_catalog(),
            catalog == coreml::subgraph_views(graphs@),
            graphs@.len() == catalog.len(),
            r@.len() == i,
            forall|k: int|
                0 <= k < i ==> is_decomposition(
                    #[trigger] r@[k],
                    catalog[k],
                    plan.concurrent_assignments@,
                ),
        decreases graphs@.len() - i,
    {
        assert(catalog[i as int] == graphs@[i as int]@);
        r.push(coreml::decompose_subgraph(graphs[i].name.as_str(), &graphs[i].ops, plan));
        i = i + 1;
    }
    r
}

// ---------------------------------------------------------------------------
// Laws
// ---------------------------------------------------------------------------

/// Of thirty times in ascending order the statistics are the first, the sixteenth and
/// the twenty-eighth; so the least is at most every one of them.
pub proof fn law_stats_by_rank(times: &Vec<u64>, r: LatencyStats) -> (s: Seq<u64>)
    requires
        times@.len() == 30,
        call_ensures(latency_stats, (times,), r),
    ensures
        s.to_multiset() == times@.to_multiset(),
        s.len() == 30,
        forall|a: int, b: int| 0 <= a < b < 30 ==> #[trigger] s[a] <= #[trigger] s[b],
        r.min == s[0],
        r.median == s[15],
        r.p90 == s[27],
        forall|i: int| 0 <= i < 30 ==> r.min <= #[trigger] times@[i],
{
    broadcast use vstd::seq_lib::group_to_multiset_ensures;

    let leq = ascending();
    assert(total_ordering(leq));
    times@.lemma_sort_by_ensures(leq);
    let s = times@.sort_by(leq);
    assert(s.to_multiset().len() == times@.to_multiset().len());
    assert forall|a: int, b: int| 0 <= a < b < 30 implies #[trigger] s[a] <= #[trigger] s[b] by {
        assert(leq(s[a], s[b]));
    }
    assert forall|i: int| 0 <= i < 30 implies r.min <= #[trigger] times@[i] by {
        assert(times@.contains(times@[i]));
        assert(times@.to_multiset().count(times@[i]) > 0);
        assert(s.contains(times@[i]));
        let a = choose|a: int| 0 <= a < s.len() && s[a] == times@[i];
        if a > 0 {
            assert(s[0] <= s[a]);
        }
    }
    s
}

/// The report on an operation is about the results of that operation alone. Its winner
/// is a lane with a result that none of them beats; the runner-up is another lane,
/// where there is one, which only the winner's lane may beat. Every lane with results is
/// listed once, with its best, the faster first; between them there is a hazard for
/// each lane but one. What is moved is two bytes for each element of the winner's shape.
pub proof fn law_winner_is_fastest(
    results: &Vec<KernelBenchResult>,
    op: &str,
    p: PlacementReport,
)
    requires
        results@.len() <= u32::MAX,
        call_ensures(place_op, (results, op), p),
    ensures
        p.op_type@ == op@,
        forall|i: int|
            0 <= i < results@.len() && (#[trigger] results@[i]).op_type@ == op@
                ==> p.winner_latency_ns <= results@[i].median_latency_ns,
        exists|i: int|
            0 <= i < results@.len() && (#[trigger] results@[i]).op_type@ == op@
                && results@[i].backend@ == p.winner@ && results@[i].median_latency_ns
                == p.winner_latency_ns && results@[i].shape@ == p.shape@,
        p.total_transfer_bytes == 2 * p.shape@.fold_left(1int, |n: int, d: u32| n * d),
        p.lane_results@.len() > 0,
        p.hazard_count == p.lane_results@.len() - 1,
        p.lane_results@[0].lane@ == p.winner@,
        p.lane_results@.len() > 1 ==> p.runner_up@ != p.winner@ && p.lane_results@[1].lane@
            == p.runner_up@ && p.lane_results@[1].median_ns == p.runner_up_latency_ns,
        p.lane_results@.len() == 1 ==> p.runner_up@ == p.winner@ && p.runner_up_latency_ns
            == p.winner_latency_ns,
        p.winner_latency_ns <= p.runner_up_latency_ns,
        forall|i: int|
            0 <= i < results@.len() && (#[trigger] results@[i]).op_type@ == op@
                && results@[i].backend@ != p.winner@ ==> p.runner_up_latency_ns
                <= results@[i].median_latency_ns,
        forall|a: int, b: int|
            0 <= a < b < p.lane_results@.len() ==> (#[trigger] p.lane_results@[a]).lane@ != (
            #[trigger] p.lane_results@[b]).lane@ && p.lane_results@[a].median_ns
                <= p.lane_results@[b].median_ns,
        forall|i: int|
            0 <= i < results@.len() && (#[trigger] results@[i]).op_type@ == op@ ==> exists|a: int|
                0 <= a < p.lane_results@.len() && (#[trigger] p.lane_results@[a]).lane@
                    == results@[i].backend@ && p.lane_results@[a].median_ns
                    <= results@[i].median_latency_ns,
{
    let r = bench_views(results@);
    let by = choose|by: Seq<usize>| #[trigger] is_placement(p, r, op@, by);
    assert forall|i: int| 0 <= i < results@.len() implies #[trigger] r[i] == results@[i]@ by {}
    assert forall|a: int| 0 <= a < by.len() implies {
        let k = (#[trigger] by[a]) as int;
        &&& 0 <= k < results@.len()
        &&& results@[k].op_type@ == op@
        &&& p.lane_results@[a].lane@ == results@[k].backend@
        &&& p.lane_results@[a].median_ns == results@[k].median_latency_ns
    } by {
        assert(is_lane_best(r, r.len() as int, op@, by[a] as int));
        assert(is_lane_result(p.lane_results@[a], r[by[a] as int]));
        assert(r[by[a] as int] == results@[by[a] as int]@);
    }
    assert forall|i: int| 0 <= i < results@.len() && (#[trigger] results@[i]).op_type@ == op@ implies
        exists|a: int|
        0 <= a < p.lane_results@.len() && (#[trigger] p.lane_results@[a]).lane@
            == results@[i].backend@ && p.lane_results@[a].median_ns
            <= results@[i].median_latency_ns by {
        assert(is_of(r[i], op@));
        assert(has_lane(r, by, r[i].backend));
        let a = choose|a: int| 0 <= a < by.len() && r[(#[trigger] by[a]) as int].backend
            == r[i].backend;
        assert(is_lane_best(r, r.len() as int, op@, by[a] as int));
        assert(p.lane_results@[a].lane@ == results@[i].backend@);
    }
    assert(by[0] as int >= 0);
    assert(by.len() <= results@.len()) by {
        lemma_lanes_within(r, op@, by);
    }
    lemma_size_is_product(p.shape@);
    assert forall|i: int| 0 <= i < results@.len() && (#[trigger] results@[i]).op_type@ == op@ implies
        p.winner_latency_ns <= results@[i].median_latency_ns && (results@[i].backend@ != p.winner@
        ==> p.runner_up_latency_ns <= results@[i].median_latency_ns) by {
        let a = choose|a: int|
            0 <= a < p.lane_results@.len() && (#[trigger] p.lane_results@[a]).lane@
                == results@[i].backend@ && p.lane_results@[a].median_ns
                <= results@[i].median_latency_ns;
        let k = by[a] as int;
        if a > 0 {
            assert(r[by[0] as int].median_latency_ns <= r[by[a] as int].median_latency_ns);
        }
        if a > 1 {
            assert(r[by[1] as int].median_latency_ns <= r[by[a] as int].median_latency_ns);
        }
    }
    if by.len() > 1 {
        let k = by[1] as int;
        assert(r[by[0] as int].median_latency_ns <= r[by[1] as int].median_latency_ns);
        assert(r[by[0] as int].backend != r[by[1] as int].backend);
    }
    assert forall|a: int, b: int| 0 <= a < b < p.lane_results@.len() implies (
    #[trigger] p.lane_results@[a]).lane@ != (#[trigger] p.lane_results@[b]).lane@
        && p.lane_results@[a].median_ns <= p.lane_results@[b].median_ns by {
        assert(r[by[a] as int].backend != r[by[b] as int].backend);
        assert(r[by[a] as int].median_latency_ns <= r[by[b] as int].median_latency_ns);
    }
}

/// Positions of different lanes are different.
proof fn lemma_lanes_within(r: Seq<BenchView>, op: Seq<char>, by: Seq<usize>)
    requires
        are_lane_bests(r, r.len() as int, op, by),
    ensures
        by.len() <= r.len(),
{
    assert(by.no_duplicates()) by {
        assert forall|a: int, b: int| 0 <= a < by.len() && 0 <= b < by.len() && a != b implies by[a]
            != by[b] by {
            if a < b {
                assert(r[by[a] as int].backend != r[by[b] as int].backend);
            } else {
                assert(r[by[b] as int].backend != r[by[a] as int].backend);
            }
        }
    }
    let ints = by.map_values(|x: usize| x as int);
    assert(ints.no_duplicates()) by {
        assert forall|a: int, b: int|
            0 <= a < ints.len() && 0 <= b < ints.len() && a != b implies ints[a] != ints[b] by {
            assert(by[a] != by[b]);
        }
    }
    ints.unique_seq_to_set();
    let all = vstd::set_lib::set_int_range(0, r.len() as int);
    vstd::set_lib::lemma_int_range(0, r.len() as int);
    assert(ints.to_set().subset_of(all)) by {
        assert forall|x: int| ints.to_set().contains(x) implies all.contains(x) by {
            let a = choose|a: int| 0 <= a < ints.len() && ints[a] == x;
            assert(is_lane_best(r, r.len() as int, op, by[a] as int));
        }
    }
    vstd::set_lib::lemma_len_subset(ints.to_set(), all);
}

proof fn lemma_size_is_product(shape: Seq<u32>)
    ensures
        shape_size(shape) == shape.fold_left(1int, |n: int, d: u32| n * d),
    decreases shape.len(),
{
    if shape.len() > 0 {
        lemma_size_is_product(shape.drop_last());
    }
}

/// Every operation with a result has one report, and every report is on an operation
/// with a result.
pub proof fn law_each_operation_is_placed_once(
    results: &Vec<KernelBenchResult>,
    reports: Vec<PlacementReport>,
)
    requires
        call_ensures(place_all, (results,), reports),
    ensures
        forall|i: int|
            0 <= i < results@.len() ==> exists|k: int|
                0 <= k < reports@.len() && (#[trigger] reports@[k]).op_type@ == (
                #[trigger] results@[i]).op_type@,
        forall|k: int|
            0 <= k < reports@.len() ==> exists|i: int|
                0 <= i < results@.len() && (#[trigger] results@[i]).op_type@ == (
                #[trigger] reports@[k]).op_type@,
        forall|k: int, l: int|
            0 <= k < l < reports@.len() ==> (#[trigger] reports@[k]).op_type@ != (
            #[trigger] reports@[l]).op_type@,
{
    let r = bench_views(results@);
    let ops = distinct_ops(r);
    lemma_distinct_ops(r);
    assert forall|k: int| 0 <= k < reports@.len() implies (#[trigger] reports@[k]).op_type@
        == ops[k] by {
        assert(is_placed(reports@[k], r, ops[k]));
    }
    assert forall|i: int| 0 <= i < results@.len() implies exists|k: int|
        0 <= k < reports@.len() && (#[trigger] reports@[k]).op_type@ == (
        #[trigger] results@[i]).op_type@ by {
        assert(r[i].op_type == results@[i].op_type@);
        assert(ops.contains(r[i].op_type));
        let k = choose|k: int| 0 <= k < ops.len() && ops[k] == r[i].op_type;
        assert(reports@[k].op_type@ == ops[k]);
    }
    assert forall|k: int| 0 <= k < reports@.len() implies exists|i: int|
        0 <= i < results@.len() && (#[trigger] results@[i]).op_type@ == (
        #[trigger] reports@[k]).op_type@ by {
        lemma_distinct_ops_occur(r, k);
        let i = choose|i: int| 0 <= i < r.len() && is_of(#[trigger] r[i], ops[k]);
        assert(results@[i].op_type@ == r[i].op_type);
    }
}

proof fn lemma_distinct_ops(r: Seq<BenchView>)
    ensures
        forall|i: int| 0 <= i < r.len() ==> distinct_ops(r).contains((#[trigger] r[i]).op_type),
        forall|k: int, l: int|
            0 <= k < l < distinct_ops(r).len() ==> #[trigger] distinct_ops(r)[k]
                != #[trigger] distinct_ops(r)[l],
    decreases r.len(),
{
    if r.len() > 0 {
        let rest = r.drop_last();
        lemma_distinct_ops(rest);
        let before = distinct_ops(rest);
        let all = distinct_ops(r);
        assert forall|i: int| 0 <= i < r.len() implies all.contains((#[trigger] r[i]).op_type) by {
            if i < rest.len() {
                assert(rest[i] == r[i]);
                let k = choose|k: int| 0 <= k < before.len() && before[k] == r[i].op_type;
                assert(all[k] == r[i].op_type);
            } else if !before.contains(r.last().op_type) {
                assert(all[before.len() as int] == r.last().op_type);
            }
        }
        assert forall|k: int, l: int| 0 <= k < l < all.len() implies #[trigger] all[k]
            != #[trigger] all[l] by {
            if l < before.len() {
                assert(before[k] != before[l]);
            } else {
                assert(before.contains(before[k]));
            }
        }
    }
}

/// Matrix products of a million elements or more go to the GPU, and everything else to
/// the CPU, each with the latency of its result.
pub proof fn law_large_products_go_to_the_gpu(
    results: &Vec<KernelBenchResult>,
    choices: Vec<LaneChoice>,
    i: int,
)
    requires
        call_ensures(assign_lanes, (results,), choices),
        0 <= i < results@.len(),
    ensures
        choices@.len() == results@.len(),
        choices@[i].op_type@ == results@[i].op_type@,
        choices@[i].latency_ns == results@[i].median_latency_ns,
        ({
            let n = results@[i].shape@.fold_left(1int, |n: int, d: u32| n * d);
            choices@[i].lane@ == (if results@[i].op_type@ == "matmul"@ && n >= 1024 * 1024 {
                "mlx_gpu"@
            } else {
                "accelerate_cpu"@
            })
        }),
{
    lemma_size_is_product(results@[i].shape@);
    let views = choices@.map_values(|c: LaneChoice| c@);
    let wanted = lane_choices(bench_views(results@));
    assert(views == wanted);
    assert(wanted.len() == results@.len());
    assert(views[i] == choices@[i]@);
    assert(bench_views(results@)[i] == results@[i]@);
}

proof fn lemma_job_listed(s: Seq<BenchJob>, t: Seq<BenchJob>, j: BenchJob)
    ensures
        (s + t).contains(j) == (s.contains(j) || t.contains(j)),
{
    let all = s + t;
    if all.contains(j) {
        let i = choose|i: int| 0 <= i < all.len() && all[i] == j;
        if i < s.len() {
            assert(s[i] == j);
        } else {
            assert(t[i - s.len()] == j);
        }
    }
    if s.contains(j) {
        let i = choose|i: int| 0 <= i < s.len() && s[i] == j;
        assert(all[i] == j);
    }
    if t.contains(j) {
        let i = choose|i: int| 0 <= i < t.len() && t[i] == j;
        assert(all[s.len() + i] == j);
    }
}

proof fn lemma_four(candidate: usize, kind: BenchKind, j: BenchJob)
    ensures
        four_jobs(candidate, kind).contains(j) == (j.candidate == candidate && j.kind == kind && j.k
            == 4096 && (j.m == 32 || j.m == 64 || j.m == 128 || j.m == 256)),
{
    let f = four_jobs(candidate, kind);
    if j.candidate == candidate && j.kind == kind && j.k == 4096 {
        if j.m == 32 {
            assert(f[0] == j);
        } else if j.m == 64 {
            assert(f[1] == j);
        } else if j.m == 128 {
            assert(f[2] == j);
        } else if j.m == 256 {
            assert(f[3] == j);
        }
    }
}

proof fn lemma_cpu_jobs(c: Seq<KernelCandidate>, j: BenchJob)
    requires
        c.len() <= usize::MAX,
    ensures
        cpu_jobs(c).contains(j) == (j.candidate < c.len() && c[j.candidate as int].backend@
            == "accelerate"@ && j.kind == cpu_kind(c[j.candidate as int].op_type@) && j.k == 4096
            && (j.m == 32 || j.m == 64 || j.m == 128 || j.m == 256)),
    decreases c.len(),
{
    if c.len() > 0 {
        let rest = c.drop_last();
        let n = (c.len() - 1) as usize;
        lemma_cpu_jobs(rest, j);
        lemma_four(n, cpu_kind(c.last().op_type@), j);
        lemma_job_listed(cpu_jobs(rest), four_jobs(n, cpu_kind(c.last().op_type@)), j);
        if j.candidate < rest.len() {
            assert(rest[j.candidate as int] == c[j.candidate as int]);
        }
    }
}

proof fn lemma_gpu_jobs(c: Seq<KernelCandidate>, j: BenchJob)
    requires
        c.len() <= usize::MAX,
    ensures
        gpu_jobs(c).contains(j) == (j.candidate < c.len() && c[j.candidate as int].backend@
            == "mlx"@ && gpu_kind(c[j.candidate as int].op_type@) == Some(j.kind) && j.k == 4096 && (
        j.m == 32 || j.m == 64 || j.m == 128 || j.m == 256)),
    decreases c.len(),
{
    if c.len() > 0 {
        let rest = c.drop_last();
        let n = (c.len() - 1) as usize;
        lemma_gpu_jobs(rest, j);
        if let Some(kind) = gpu_kind(c.last().op_type@) {
            lemma_four(n, kind, j);
            lemma_job_listed(gpu_jobs(rest), four_jobs(n, kind), j);
        }
        if j.candidate < rest.len() {
            assert(rest[j.candidate as int] == c[j.candidate as int]);
        }
    }
}

/// On the CPU every candidate of the backend `accelerate` is benchmarked, on 32, 64, 128
/// and 256 rows of 4096, and no other: norms, softmax and products as what they are, and
/// any other operation by a synthetic run. On the GPU the candidates of `mlx` are, for
/// products and norms alone.
pub proof fn law_benchmarks_are_of_their_backend(
    candidates: &Vec<KernelCandidate>,
    cpu: Vec<BenchJob>,
    gpu: Vec<BenchJob>,
    j: BenchJob,
)
    requires
        call_ensures(bench_accelerate_candidates, (candidates,), cpu),
        call_ensures(bench_mlx_candidates, (candidates,), gpu),
    ensures
        ({
            let c = candidates@[j.candidate as int];
            let op = c.op_type@;
            let shaped = j.candidate < candidates@.len() && j.k == 4096 && (j.m == 32 || j.m == 64
                || j.m == 128 || j.m == 256);
            let right = match j.kind {
                BenchKind::RmsNorm => op == "rms_norm"@,
                BenchKind::Softmax => op == "softmax"@,
                BenchKind::Matmul => op == "matmul"@,
                BenchKind::Synthetic => op != "rms_norm"@ && op != "softmax"@ && op != "matmul"@,
            };
            &&& cpu@.contains(j) == (shaped && c.backend@ == "accelerate"@ && right)
            &&& gpu@.contains(j) == (shaped && c.backend@ == "mlx"@ && right && (op == "matmul"@
                || op == "rms_norm"@))
        }),
{
    assert(candidates.len() == candidates@.len());
    lemma_cpu_jobs(candidates@, j);
    lemma_gpu_jobs(candidates@, j);
    reveal_strlit("rms_norm");
    reveal_strlit("softmax");
    reveal_strlit("matmul");
    assert("rms_norm"@.len() == 8 && "softmax"@.len() == 7 && "matmul"@.len() == 6);
}

/// A result is under the backend that it was run on; it is of the operation that was
/// benchmarked, and gives the shape that was: the vector or the small product on the
/// CPU, and rows and columns otherwise.
pub proof fn law_result_is_of_its_job(
    candidate: &KernelCandidate,
    job: BenchJob,
    on_cpu: bool,
    stats: LatencyStats,
    rates: Rates,
    r: KernelBenchResult,
)
    requires
        call_ensures(bench_result, (candidate, job, on_cpu, stats, rates), r),
    ensures
        r.variant_name@ == candidate.name@,
        on_cpu ==> r.backend@ == "accelerate"@,
        !on_cpu ==> r.backend@ == "mlx"@,
        job.kind == BenchKind::RmsNorm ==> r.op_type@ == "rms_norm"@,
        job.kind == BenchKind::Softmax ==> r.op_type@ == "softmax"@,
        job.kind == BenchKind::Matmul ==> r.op_type@ == "matmul"@,
        job.kind == BenchKind::Synthetic ==> r.op_type@ == candidate.op_type@,
        !on_cpu || job.kind == BenchKind::Synthetic ==> r.shape@ == seq![job.m, job.k],
        on_cpu && (job.kind == BenchKind::RmsNorm || job.kind == BenchKind::Softmax) ==> r.shape@
            == seq![job.k],
        on_cpu && job.kind == BenchKind::Matmul ==> r.shape@ == seq![4u32, job.k, 4],
        r.median_latency_ns == stats.median,
        r.min_latency_ns == stats.min,
        r.p90_latency_ns == stats.p90,
{
}

proof fn lemma_others_are_filtered(r: Seq<BenchView>)
    ensures
        other_backends(r) == r.filter(
            |b: BenchView| b.backend != "accelerate"@ && b.backend != "mlx"@,
        ),
    decreases r.len(),
{
    reveal(Seq::filter);
    if r.len() > 0 {
        lemma_others_are_filtered(r.drop_last());
    }
}

/// The results of an assessment are those synthetic ones that are of neither the CPU nor
/// the GPU, then the measured ones of the CPU, of the GPU and of the neural engine.
pub proof fn law_measured_results_replace_synthetic(
    synthetic: &Vec<KernelBenchResult>,
    accelerate: &Vec<KernelBenchResult>,
    mlx: &Vec<KernelBenchResult>,
    coreml: Option<KernelBenchResult>,
    r: Vec<KernelBenchResult>,
)
    requires
        call_ensures(gather_results, (synthetic, accelerate, mlx, coreml), r),
    ensures
        ({
            let measured = bench_views(accelerate@) + bench_views(mlx@);
            let others = bench_views(synthetic@).filter(
                |b: BenchView| b.backend != "accelerate"@ && b.backend != "mlx"@,
            );
            bench_views(r@) == others + measured + match coreml {
                Some(b) => seq![b@],
                None => Seq::empty(),
            }
        }),
{
    lemma_others_are_filtered(bench_views(synthetic@));
    let others = other_backends(bench_views(synthetic@));
    let a = bench_views(accelerate@);
    let b = bench_views(mlx@);
    assert(others + a + b =~= others + (a + b));
    match coreml {
        Some(c) => {
            assert(bench_views(r@) =~= others + (a + b) + seq![c@]);
        },
        None => {
            assert(bench_views(r@) =~= others + (a + b) + Seq::<BenchView>::empty());
        },
    }
}

/// The kernel that is selected for an operation is the one of its best result; what
/// runs on the GPU falls back to the CPU, and everything else to the GPU.
pub proof fn law_selection_is_the_best_result(
    op: &str,
    best: &KernelBenchResult,
    stamp: &str,
    s: KernelSelection,
)
    requires
        call_ensures(select_kernel, (op, best, stamp), s),
    ensures
        s.op_type@ == op@,
        s.selected_backend@ == best.backend@,
        s.selected_variant@ == best.variant_name@,
        s.expected_latency_ns == best.median_latency_ns,
        best.backend@ == "mlx"@ ==> s.fallback_backend@ == "accelerate"@,
        best.backend@ != "mlx"@ ==> s.fallback_backend@ == "mlx"@,
        s.fallback_backend@ != s.selected_backend@,
        s.assessment_id@ == "hw-"@ + stamp@,
{
    reveal_strlit("mlx");
    reveal_strlit("accelerate");
    assert("mlx"@.len() == 3 && "accelerate"@.len() == 10);
}

/// Neighbouring views are the hazards: each view but the last with the one behind it.
pub proof fn law_hazards_are_between_neighbours(
    views: &Vec<u64>,
    r: Vec<(u64, u64)>,
    i: int,
)
    requires
        call_ensures(record_lane_hazards, (views,), r),
        0 <= i < views@.len() - 1,
    ensures
        r@.len() == views@.len() - 1,
        r@[i] == (views@[i], views@[i + 1]),
{
}

} // verus!
