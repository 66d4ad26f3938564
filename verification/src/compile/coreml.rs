//! Division of transformer blocks between the neural engine and the CPU, and
//! the rules that a program for the neural engine has to keep.

use vstd::prelude::*;
use vstd::string::*;

use crate::config::TextArchitecture;
use crate::order;
use crate::table::NameTable;
use crate::text;

use super::emission;

verus! {

// ---------------------------------------------------------------------------
// Subgraphs
// ---------------------------------------------------------------------------

/// The operations that run on one lane, and how long they are estimated to take.
#[derive(Debug)]
pub struct LaneAssignment {
    pub lane: String,
    pub ops: Vec<String>,
    pub estimated_latency_ns: u64,
}

/// Which operations run on which lane at the same time.
#[derive(Debug)]
pub struct ConcurrencyPlan {
    pub concurrent_assignments: Vec<LaneAssignment>,
}

/// A subgraph divided between the neural engine and the CPU.
#[derive(Debug)]
pub struct SubgraphDecomposition {
    pub subgraph_name: String,
    /// Operations for the neural engine.
    pub coreml_ops: Vec<String>,
    /// Operations for the CPU.
    pub accelerate_ops: Vec<String>,
    /// Whether the subgraph has been compiled.
    pub compiled: bool,
    /// Where the compiled model is, relative to the image.
    pub modelc_path: Option<String>,
}

/// A subgraph of a transformer: its name and its operations in order.
#[derive(Debug)]
pub struct Subgraph {
    pub name: String,
    pub ops: Vec<String>,
}

impl Subgraph {
    pub open spec fn view(&self) -> (Seq<char>, Seq<Seq<char>>) {
        (self.name@, order::views(self.ops@))
    }
}

/// The subgraphs that can be compiled for the neural engine.
pub open spec fn subgraph_catalog() -> Seq<(Seq<char>, Seq<Seq<char>>)> {
    seq![
        (
            "mlp_block"@,
            seq![
                "gate_proj"@,
                "silu_mul"@,
                "up_proj"@,
                "mul"@,
                "down_proj"@,
                "residual_add"@,
            ],
        ),
        ("rmsnorm_qkv"@, seq!["rms_norm"@, "q_proj"@, "k_proj"@, "v_proj"@, "rope"@]),
        ("output_proj"@, seq!["lm_head"@]),
        (
            "ffn_output"@,
            seq![
                "gate_proj"@,
                "silu_mul"@,
                "up_proj"@,
                "mul"@,
                "down_proj"@,
                "rms_norm"@,
                "lm_head"@,
            ],
        ),
        ("qkv_bundle"@, seq!["q_proj"@, "k_proj"@, "v_proj"@]),
    ]
}

/// The views of a list of subgraphs.
pub open spec fn subgraph_views(s: Seq<Subgraph>) -> Seq<(Seq<char>, Seq<Seq<char>>)> {
    s.map_values(|g: Subgraph| g@)
}

fn list3(a: &str, b: &str, c: &str) -> (r: Vec<String>)
    ensures
        order::views(r@) == seq![a@, b@, c@],
        r@.len() == 3,
        r@[0]@ == a@,
        r@[1]@ == b@,
        r@[2]@ == c@,
{
    let mut r: Vec<String> = Vec::new();
    r.push(a.to_owned());
    r.push(b.to_owned());
    r.push(c.to_owned());
    assert(order::views(r@) =~= seq![a@, b@, c@]);
    r
}

/// The subgraphs that can be compiled for the neural engine, each with its
/// operations in the order in which they run.
pub fn candidate_subgraphs() -> (r: Vec<Subgraph>)
    ensures
        subgraph_views(r@) == subgraph_catalog(),
{
    let mut mlp: Vec<String> = list3("gate_proj", "silu_mul", "up_proj");
    mlp.push("mul".to_owned());
    mlp.push("down_proj".to_owned());
    mlp.push("residual_add".to_owned());
    let mut qkv: Vec<String> = list3("rms_norm", "q_proj", "k_proj");
    qkv.push("v_proj".to_owned());
    qkv.push("rope".to_owned());
    let mut head: Vec<String> = Vec::new();
    head.push("lm_head".to_owned());
    let mut ffn: Vec<String> = list3("gate_proj", "silu_mul", "up_proj");
    ffn.push("mul".to_owned());
    ffn.push("down_proj".to_owned());
    ffn.push("rms_norm".to_owned());
    ffn.push("lm_head".to_owned());
    let bundle: Vec<String> = list3("q_proj", "k_proj", "v_proj");
    proof {
        assert(order::views(mlp@) =~= subgraph_catalog()[0].1);
        assert(order::views(qkv@) =~= subgraph_catalog()[1].1);
        assert(order::views(head@) =~= subgraph_catalog()[2].1);
        assert(order::views(ffn@) =~= subgraph_catalog()[3].1);
        assert(order::views(bundle@) =~= subgraph_catalog()[4].1);
    }
    let mut r: Vec<Subgraph> = Vec::new();
    r.push(Subgraph { name: "mlp_block".to_owned(), ops: mlp });
    r.push(Subgraph { name: "rmsnorm_qkv".to_owned(), ops: qkv });
    r.push(Subgraph { name: "output_proj".to_owned(), ops: head });
    r.push(Subgraph { name: "ffn_output".to_owned(), ops: ffn });
    r.push(Subgraph { name: "qkv_bundle".to_owned(), ops: bundle });
    assert(subgraph_views(r@) =~= subgraph_catalog());
    r
}

/// Whether an operation takes the CPU so little time that it runs there unless
/// the plan says otherwise.
pub open spec fn is_tiny(op: Seq<char>) -> bool {
    op == "residual_add"@ || op == "rms_norm"@ || op == "silu_mul"@
}

/// Whether the plan puts an operation on the CPU.
pub open spec fn is_planned_on_cpu(plan: Seq<LaneAssignment>, op: Seq<char>) -> bool {
    exists|i: int|
        0 <= i < plan.len() && (#[trigger] plan[i]).lane@ == "accelerate_cpu"@ && order::views(
            plan[i].ops@,
        ).contains(op)
}

/// Whether an operation runs on the CPU.
pub open spec fn runs_on_cpu(plan: Seq<LaneAssignment>, op: Seq<char>) -> bool {
    is_planned_on_cpu(plan, op) || is_tiny(op)
}

/// Those operations that run on the CPU, or those that do not.
pub open spec fn ops_on(
    plan: Seq<LaneAssignment>,
    ops: Seq<Seq<char>>,
    cpu: bool,
) -> Seq<Seq<char>>
    decreases ops.len(),
{
    if ops.len() == 0 {
        Seq::empty()
    } else {
        let rest = ops_on(plan, ops.drop_last(), cpu);
        if runs_on_cpu(plan, ops.last()) == cpu {
            rest.push(ops.last())
        } else {
            rest
        }
    }
}

fn planned_on_cpu(plan: &ConcurrencyPlan, op: &str) -> (r: bool)
    ensures
        r == is_planned_on_cpu(plan.concurrent_assignments@, op@),
{
    let mut i: usize = 0;
    while i < plan.concurrent_assignments.len()
        invariant
            i <= plan.concurrent_assignments@.len(),
            forall|j: int|
                0 <= j < i ==> !((#[trigger] plan.concurrent_assignments@[j]).lane@
                    == "accelerate_cpu"@ && order::views(
                    plan.concurrent_assignments@[j].ops@,
                ).contains(op@)),
        decreases plan.concurrent_assignments@.len() - i,
    {
        let a: &LaneAssignment = &plan.concurrent_assignments[i];
        if text::same_text(a.lane.as_str(), "accelerate_cpu") && emission::list_holds(&a.ops, op) {
            assert(plan.concurrent_assignments@[i as int].lane@ == "accelerate_cpu"@);
            return true;
        }
        i = i + 1;
    }
    false
}

/// Divides a subgraph: operations that the plan puts on the CPU and tiny ones
/// run there, the others on the neural engine.
pub fn decompose_subgraph(name: &str, ops: &Vec<String>, plan: &ConcurrencyPlan) -> (r:
    SubgraphDecomposition)
    ensures
        r.subgraph_name@ == name@,
        order::views(r.coreml_ops@) == ops_on(
            plan.concurrent_assignments@,
            order::views(ops@),
            false,
        ),
        order::views(r.accelerate_ops@) == ops_on(
            plan.concurrent_assignments@,
            order::views(ops@),
            true,
        ),
        !r.compiled,
        r.modelc_path is None,
{
    let ghost keys = order::views(ops@);
    let ghost p = plan.concurrent_assignments@;
    let mut coreml_ops: Vec<String> = Vec::new();
    let mut accelerate_ops: Vec<String> = Vec::new();
    let mut i: usize = 0;
    while i < ops.len()
        invariant
            i <= ops@.len(),
            keys == order::views(ops@),
            p == plan.concurrent_assignments@,
            order::views(coreml_ops@) =~= ops_on(p, keys.take(i as int), false),
            order::views(accelerate_ops@) =~= ops_on(p, keys.take(i as int), true),
        decreases ops@.len() - i,
    {
        let op: &str = ops[i].as_str();
        proof {
            assert(keys.take(i + 1).drop_last() =~= keys.take(i as int));
            assert(keys.take(i + 1).last() == op@);
        }
        if planned_on_cpu(plan, op) || text::same_text(op, "residual_add") || text::same_text(
            op,
            "rms_norm",
        ) || text::same_text(op, "silu_mul") {
            accelerate_ops.push(op.to_owned());
        } else {
            coreml_ops.push(op.to_owned());
        }
        i = i + 1;
    }
    assert(keys.take(keys.len() as int) =~= keys);
    SubgraphDecomposition {
        subgraph_name: name.to_owned(),
        coreml_ops,
        accelerate_ops,
        compiled: false,
        modelc_path: None,
    }
}

/// A division loses no operation and invents none: the two lanes together hold
/// every operation as often as the subgraph does.
pub proof fn law_decomposition_partitions(
    plan: Seq<LaneAssignment>,
    ops: Seq<Seq<char>>,
)
    ensures
        ops_on(plan, ops, true).to_multiset().add(ops_on(plan, ops, false).to_multiset())
            == ops.to_multiset(),
        ops_on(plan, ops, true).len() + ops_on(plan, ops, false).len() == ops.len(),
    decreases ops.len(),
{
    broadcast use vstd::seq_lib::group_to_multiset_ensures;

    if ops.len() == 0 {
        assert(ops =~= Seq::<Seq<char>>::empty());
        let a = ops_on(plan, ops, true).to_multiset().add(ops_on(plan, ops, false).to_multiset());
        assert(a =~= ops.to_multiset());
    } else {
        let rest = ops.drop_last();
        law_decomposition_partitions(plan, rest);
        assert(ops =~= rest.push(ops.last()));
        let a = ops_on(plan, ops, true).to_multiset().add(ops_on(plan, ops, false).to_multiset());
        assert(a =~= ops.to_multiset());
    }
}

/// An operation is on one lane only, and on each lane the operations keep their
/// order.
pub proof fn law_decomposition_keeps_order(
    plan: Seq<LaneAssignment>,
    ops: Seq<Seq<char>>,
    cpu: bool,
) -> (from: Seq<int>)
    ensures
        from.len() == ops_on(plan, ops, cpu).len(),
        forall|a: int|
            0 <= a < from.len() ==> 0 <= #[trigger] from[a] < ops.len() && ops[from[a]] == ops_on(
                plan,
                ops,
                cpu,
            )[a] && runs_on_cpu(plan, ops[from[a]]) == cpu,
        forall|a: int, b: int|
            0 <= a < b < from.len() ==> #[trigger] from[a] < #[trigger] from[b],
    decreases ops.len(),
{
    if ops.len() == 0 {
        Seq::empty()
    } else {
        let rest = law_decomposition_keeps_order(plan, ops.drop_last(), cpu);
        if runs_on_cpu(plan, ops.last()) == cpu {
            rest.push(ops.len() - 1)
        } else {
            rest
        }
    }
}

proof fn lemma_on_its_lane(
    plan: Seq<LaneAssignment>,
    ops: Seq<Seq<char>>,
    op: Seq<char>,
    cpu: bool,
)
    ensures
        ops_on(plan, ops, cpu).contains(op) <==> ops.contains(op) && runs_on_cpu(plan, op) == cpu,
    decreases ops.len(),
{
    if ops.len() > 0 {
        let rest = ops.drop_last();
        let last = ops.last();
        lemma_on_its_lane(plan, rest, op, cpu);
        let before = ops_on(plan, rest, cpu);
        assert(ops.contains(op) <==> rest.contains(op) || op == last) by {
            assert(ops =~= rest.push(last));
            rest.lemma_push_to_set_commute(last);
            assert(rest.push(last).contains(op) <==> rest.push(last).to_set().contains(op));
            assert(rest.contains(op) <==> rest.to_set().contains(op));
        }
        assert(before.push(last).contains(op) <==> before.contains(op) || op == last) by {
            before.lemma_push_to_set_commute(last);
            assert(before.push(last).contains(op) <==> before.push(last).to_set().contains(op));
            assert(before.contains(op) <==> before.to_set().contains(op));
        }
    }
}

/// An operation of a subgraph goes to the CPU where it is `residual_add`, `rms_norm`
/// or `silu_mul`, and where some assignment to the lane `accelerate_cpu` lists it; any
/// other goes to the neural engine. None goes to both.
pub proof fn law_cpu_gets_planned_and_tiny_ops(
    name: &str,
    ops: &Vec<String>,
    plan: &ConcurrencyPlan,
    r: SubgraphDecomposition,
    op: Seq<char>,
)
    requires
        call_ensures(decompose_subgraph, (name, ops, plan), r),
        exists|k: int| 0 <= k < ops@.len() && (#[trigger] ops@[k])@ == op,
    ensures
        ({
            let listed = exists|i: int, j: int|
                0 <= i < plan.concurrent_assignments@.len() && 0 <= j
                    < plan.concurrent_assignments@[i].ops@.len()
                    && plan.concurrent_assignments@[i].lane@ == "accelerate_cpu"@ && (
                #[trigger] plan.concurrent_assignments@[i].ops@[j])@ == op;
            let cpu = op == "residual_add"@ || op == "rms_norm"@ || op == "silu_mul"@ || listed;
            &&& (exists|k: int|
                0 <= k < r.accelerate_ops@.len() && (#[trigger] r.accelerate_ops@[k])@ == op) == cpu
            &&& (exists|k: int|
                0 <= k < r.coreml_ops@.len() && (#[trigger] r.coreml_ops@[k])@ == op) == !cpu
        }),
{
    let all = order::views(ops@);
    let p = plan.concurrent_assignments@;
    let k = choose|k: int| 0 <= k < ops@.len() && (#[trigger] ops@[k])@ == op;
    assert(all[k] == op);
    lemma_on_its_lane(p, all, op, true);
    lemma_on_its_lane(p, all, op, false);
    if is_planned_on_cpu(p, op) {
        let i = choose|i: int|
            0 <= i < p.len() && (#[trigger] p[i]).lane@ == "accelerate_cpu"@ && order::views(
                p[i].ops@,
            ).contains(op);
        let j = choose|j: int|
            0 <= j < order::views(p[i].ops@).len() && order::views(p[i].ops@)[j] == op;
        assert(p[i].ops@[j]@ == op);
    }
    if exists|i: int, j: int|
        0 <= i < p.len() && 0 <= j < p[i].ops@.len() && p[i].lane@ == "accelerate_cpu"@ && (
        #[trigger] p[i].ops@[j])@ == op {
        let (i, j) = choose|i: int, j: int|
            0 <= i < p.len() && 0 <= j < p[i].ops@.len() && p[i].lane@ == "accelerate_cpu"@ && (
            #[trigger] p[i].ops@[j])@ == op;
        assert(order::views(p[i].ops@)[j] == op);
    }
    lemma_holds(r.accelerate_ops@, op);
    lemma_holds(r.coreml_ops@, op);
}

proof fn lemma_holds(list: Seq<String>, op: Seq<char>)
    ensures
        order::views(list).contains(op) <==> exists|k: int|
            0 <= k < list.len() && (#[trigger] list[k])@ == op,
{
    if order::views(list).contains(op) {
        let k = choose|k: int| 0 <= k < order::views(list).len() && order::views(list)[k] == op;
        assert(list[k]@ == op);
    }
    if exists|k: int| 0 <= k < list.len() && (#[trigger] list[k])@ == op {
        let k = choose|k: int| 0 <= k < list.len() && (#[trigger] list[k])@ == op;
        assert(order::views(list)[k] == op);
    }
}

// ---------------------------------------------------------------------------
// Planning of subgraph compilation
// ---------------------------------------------------------------------------

/// The low 32 bits of a dimension.
pub open spec fn low_bits(d: i64) -> u32 {
    (d % 0x1_0000_0000) as u32
}

/// The first dimension given under a key, or what stands for it.
pub open spec fn first_dim(shapes: Map<Seq<char>, Vec<i64>>, key: Seq<char>, other: i64) -> u32 {
    if shapes.dom().contains(key) && shapes[key]@.len() > 0 {
        low_bits(shapes[key]@[0])
    } else {
        low_bits(other)
    }
}

fn dim_or(shapes: &NameTable<Vec<i64>>, key: &str, other: i64) -> (r: u32)
    requires
        shapes.wf(),
    ensures
        r == first_dim(shapes@, key@, other),
{
    let d: i64 = match shapes.get(key) {
        Some(v) => if v.len() > 0 {
            v[0]
        } else {
            other
        },
        None => other,
    };
    low_word(d)
}

fn low_word(d: i64) -> (r: u32)
    ensures
        r == low_bits(d),
{
    let wide: i128 = d as i128 + 0x1_0000_0000_0000_0000;
    let r: i128 = wide % 0x1_0000_0000;
    assert(r == d as int % 0x1_0000_0000) by (nonlinear_arith)
        requires
            wide == d + 0x1_0000_0000_0000_0000,
            r == wide % 0x1_0000_0000,
            wide >= 0,
    ;
    r as u32
}

/// The dimensions that a subgraph is built with.
#[derive(Debug, Clone, Copy, PartialEq, Eq, Structural)]
pub struct SubgraphDims {
    pub hidden: u32,
    pub intermediate: u32,
    pub heads: u32,
    pub kv_heads: u32,
    pub head_dim: u32,
    pub vocab: u32,
}

/// The dimensions that are given, and those that stand for the ones that are
/// not.
pub open spec fn dims_of(shapes: Map<Seq<char>, Vec<i64>>) -> SubgraphDims {
    let hidden = first_dim(shapes, "hidden"@, 4096);
    let heads = first_dim(shapes, "num_attention_heads"@, 32);
    SubgraphDims {
        hidden,
        intermediate: first_dim(shapes, "intermediate"@, 11008),
        heads,
        kv_heads: first_dim(shapes, "num_key_value_heads"@, heads as i64),
        head_dim: first_dim(shapes, "head_dim"@, (hidden / heads) as i64),
        vocab: first_dim(shapes, "vocab"@, 32000),
    }
}

/// The dimensions that a subgraph is built with.
pub fn subgraph_dims(shapes: &NameTable<Vec<i64>>) -> (r: SubgraphDims)
    requires
        shapes.wf(),
        first_dim(shapes@, "num_attention_heads"@, 32) > 0,
    ensures
        r == dims_of(shapes@),
{
    let hidden: u32 = dim_or(shapes, "hidden", 4096);
    let heads: u32 = dim_or(shapes, "num_attention_heads", 32);
    SubgraphDims {
        hidden,
        intermediate: dim_or(shapes, "intermediate", 11008),
        heads,
        kv_heads: dim_or(shapes, "num_key_value_heads", heads as i64),
        head_dim: dim_or(shapes, "head_dim", (hidden / heads) as i64),
        vocab: dim_or(shapes, "vocab", 32000),
    }
}

/// The kinds of subgraphs that a program can be built for.
#[derive(Debug, Clone, Copy, PartialEq, Eq, Structural)]
pub enum SubgraphKind {
    Matmul { k: u32, n: u32 },
    MlpBlock,
    RmsnormQkv,
    OutputProj,
    FfnOutput,
    QkvBundle,
}

/// The kind of subgraph that a name stands for.
pub open spec fn kind_of(name: Seq<char>, shapes: Map<Seq<char>, Vec<i64>>) -> Option<SubgraphKind> {
    if name == "matmul"@ {
        Some(
            SubgraphKind::Matmul {
                k: first_dim(shapes, "k"@, 64),
                n: first_dim(shapes, "n"@, 64),
            },
        )
    } else if name == "mlp_block"@ {
        Some(SubgraphKind::MlpBlock)
    } else if name == "rmsnorm_qkv"@ {
        Some(SubgraphKind::RmsnormQkv)
    } else if name == "output_proj"@ {
        Some(SubgraphKind::OutputProj)
    } else if name == "ffn_output"@ {
        Some(SubgraphKind::FfnOutput)
    } else if name == "qkv_bundle"@ {
        Some(SubgraphKind::QkvBundle)
    } else {
        None
    }
}

/// The kind of subgraph that a name stands for, or a report that there is none.
pub fn subgraph_kind(name: &str, shapes: &NameTable<Vec<i64>>) -> (r: Result<SubgraphKind, String>)
    requires
        shapes.wf(),
    ensures
        match r {
            Ok(k) => kind_of(name@, shapes@) == Some(k),
            Err(e) => kind_of(name@, shapes@) is None && e@ == "unknown subgraph kind '"@ + name@
                + "' — no MIL builder registered"@,
        },
{
    if text::same_text(name, "matmul") {
        Ok(SubgraphKind::Matmul { k: dim_or(shapes, "k", 64), n: dim_or(shapes, "n", 64) })
    } else if text::same_text(name, "mlp_block") {
        Ok(SubgraphKind::MlpBlock)
    } else if text::same_text(name, "rmsnorm_qkv") {
        Ok(SubgraphKind::RmsnormQkv)
    } else if text::same_text(name, "output_proj") {
        Ok(SubgraphKind::OutputProj)
    } else if text::same_text(name, "ffn_output") {
        Ok(SubgraphKind::FfnOutput)
    } else if text::same_text(name, "qkv_bundle") {
        Ok(SubgraphKind::QkvBundle)
    } else {
        Err(text::join3("unknown subgraph kind '", name, "' — no MIL builder registered"))
    }
}

/// The weights that a subgraph of that kind reads, in the order in which its
/// builder takes them.
pub open spec fn weight_keys(kind: SubgraphKind) -> Seq<Seq<char>> {
    match kind {
        SubgraphKind::Matmul { .. } => seq!["weight_values"@],
        SubgraphKind::MlpBlock => seq!["gate_w"@, "up_w"@, "down_w"@],
        SubgraphKind::RmsnormQkv => seq!["rms_w"@, "q_w"@, "k_w"@, "v_w"@],
        SubgraphKind::OutputProj => seq!["weight_values"@],
        SubgraphKind::FfnOutput => seq!["gate_w"@, "up_w"@, "down_w"@, "lm_head_w"@],
        SubgraphKind::QkvBundle => seq!["q_w"@, "k_w"@, "v_w"@],
    }
}

/// The weights that a subgraph of that kind reads.
pub fn subgraph_weights(kind: SubgraphKind) -> (r: Vec<String>)
    ensures
        order::views(r@) == weight_keys(kind),
{
    let mut r: Vec<String> = Vec::new();
    match kind {
        SubgraphKind::Matmul { .. } => {
            r.push("weight_values".to_owned());
        },
        SubgraphKind::MlpBlock => {
            r = list3("gate_w", "up_w", "down_w");
        },
        SubgraphKind::RmsnormQkv => {
            r = list3("rms_w", "q_w", "k_w");
            r.push("v_w".to_owned());
        },
        SubgraphKind::OutputProj => {
            r.push("weight_values".to_owned());
        },
        SubgraphKind::FfnOutput => {
            r = list3("gate_w", "up_w", "down_w");
            r.push("lm_head_w".to_owned());
        },
        SubgraphKind::QkvBundle => {
            r = list3("q_w", "k_w", "v_w");
        },
    }
    assert(order::views(r@) =~= weight_keys(kind));
    r
}

/// How a compiled subgraph is described.
#[derive(Debug)]
pub struct PackageMeta {
    pub model_name: String,
    pub function_name: String,
    pub short_description: String,
    pub version: String,
    pub author: String,
    pub output_name: String,
    /// The width of the two inputs, of the residual and of the output.
    pub width: i64,
}

/// The description of a subgraph, with the name of its first output where it
/// has one.
pub fn package_meta(name: &str, first_output: &Option<String>, hidden: u32) -> (m: PackageMeta)
    ensures
        m.model_name@ == "tribunus-subgraph-"@ + name@,
        m.function_name@ == name@,
        m.short_description@ == "Core ML subgraph: "@ + name@,
        m.version@ == "1.0"@,
        m.author@ == "Tribunus Compute"@,
        m.output_name@ == (match *first_output {
            Some(o) => o@,
            None => "output"@,
        }),
        m.width == hidden,
{
    PackageMeta {
        model_name: text::join2("tribunus-subgraph-", name),
        function_name: name.to_owned(),
        short_description: text::join2("Core ML subgraph: ", name),
        version: "1.0".to_owned(),
        author: "Tribunus Compute".to_owned(),
        output_name: match first_output {
            Some(o) => o.clone(),
            None => "output".to_owned(),
        },
        width: hidden as i64,
    }
}

// ---------------------------------------------------------------------------
// Fused islands
// ---------------------------------------------------------------------------

/// A weight of an island: its name and its number of rows and columns.
#[derive(Debug)]
pub struct IslandWeight {
    pub name: String,
    pub rows: u32,
    pub cols: u32,
}

impl IslandWeight {
    pub open spec fn view(&self) -> (Seq<char>, u32, u32) {
        (self.name@, self.rows, self.cols)
    }
}

/// What an island is compiled from.
#[derive(Debug)]
pub struct IslandPlan {
    pub weights: Vec<IslandWeight>,
    pub ops: Vec<String>,
    pub shapes: Vec<(String, i64)>,
}

/// The weights of an island of that kind.
pub open spec fn island_weights(kind: Seq<char>, a: TextArchitecture) -> Option<
    Seq<(Seq<char>, u32, u32)>,
> {
    let h = a.hidden_size;
    let i = a.intermediate_size;
    let v = a.vocab_size;
    let q = (a.head_dim * a.num_attention_heads) as u32;
    let k = (a.head_dim * a.num_key_value_heads) as u32;
    if kind == "mlp_block"@ {
        Some(seq![("gate_w"@, h, i), ("up_w"@, h, i), ("down_w"@, i, h)])
    } else if kind == "qkv_bundle"@ {
        Some(seq![("q_w"@, h, q), ("k_w"@, h, k), ("v_w"@, h, k)])
    } else if kind == "rmsnorm_qkv"@ {
        Some(seq![("q_w"@, h, q), ("k_w"@, h, k), ("v_w"@, h, k), ("rms_w"@, h, 1)])
    } else if kind == "output_proj"@ {
        Some(seq![("lm_head_w"@, h, v)])
    } else if kind == "ffn_output"@ {
        Some(seq![("gate_w"@, h, i), ("up_w"@, h, i), ("down_w"@, i, h), ("lm_head_w"@, h, v)])
    } else if kind == "matmul"@ {
        Some(Seq::empty())
    } else {
        None
    }
}

/// The operations of an island of that kind.
pub open spec fn island_ops(kind: Seq<char>) -> Option<Seq<Seq<char>>> {
    if kind == "mlp_block"@ {
        Some(seq!["gate_proj"@, "up_proj"@, "down_proj"@])
    } else if kind == "qkv_bundle"@ {
        Some(seq!["q_proj"@, "k_proj"@, "v_proj"@])
    } else if kind == "rmsnorm_qkv"@ {
        Some(seq!["q_proj"@, "k_proj"@, "v_proj"@])
    } else if kind == "output_proj"@ {
        Some(seq!["lm_head"@])
    } else if kind == "ffn_output"@ {
        Some(seq!["gate_proj"@, "up_proj"@, "down_proj"@, "lm_head"@])
    } else if kind == "matmul"@ {
        Some(seq!["matmul"@])
    } else {
        None
    }
}

/// The shapes that an island is compiled with.
pub open spec fn island_shapes(a: TextArchitecture) -> Seq<(Seq<char>, i64)> {
    seq![
        ("hidden"@, a.hidden_size as i64),
        ("intermediate"@, a.intermediate_size as i64),
        ("vocab"@, a.vocab_size as i64),
        ("head_dim"@, a.head_dim as i64),
        ("n_heads"@, a.num_attention_heads as i64),
        ("n_kv_heads"@, a.num_key_value_heads as i64),
    ]
}

fn weight(name: &str, rows: u32, cols: u32) -> (r: IslandWeight)
    ensures
        r@ == (name@, rows, cols),
{
    IslandWeight { name: name.to_owned(), rows, cols }
}

/// What an island is compiled from, or a report that its kind is not known.
pub fn plan_island(island_id: &str, kind: &str, a: &TextArchitecture) -> (r: Result<
    IslandPlan,
    String,
>)
    requires
        a.head_dim * a.num_attention_heads <= u32::MAX,
        a.head_dim * a.num_key_value_heads <= u32::MAX,
    ensures
        match r {
            Ok(p) => {
                &&& island_weights(kind@, *a) == Some(
                    p.weights@.map_values(|w: IslandWeight| w@),
                )
                &&& island_ops(kind@) == Some(order::views(p.ops@))
                &&& p.shapes@.map_values(|s: (String, i64)| (s.0@, s.1)) == island_shapes(*a)
            },
            Err(e) => island_weights(kind@, *a) is None && e@ == "unknown subgraph_kind '"@ + kind@
                + "' for island '"@ + island_id@ + "'"@,
        },
{
    let h: u32 = a.hidden_size;
    let i: u32 = a.intermediate_size;
    let v: u32 = a.vocab_size;
    let q: u32 = a.head_dim * a.num_attention_heads;
    let k: u32 = a.head_dim * a.num_key_value_heads;
    let mut weights: Vec<IslandWeight> = Vec::new();
    let mut ops: Vec<String> = Vec::new();
    if text::same_text(kind, "mlp_block") {
        weights.push(weight("gate_w", h, i));
        weights.push(weight("up_w", h, i));
        weights.push(weight("down_w", i, h));
        ops = list3("gate_proj", "up_proj", "down_proj");
    } else if text::same_text(kind, "qkv_bundle") {
        weights.push(weight("q_w", h, q));
        weights.push(weight("k_w", h, k));
        weights.push(weight("v_w", h, k));
        ops = list3("q_proj", "k_proj", "v_proj");
    } else if text::same_text(kind, "rmsnorm_qkv") {
        weights.push(weight("q_w", h, q));
        weights.push(weight("k_w", h, k));
        weights.push(weight("v_w", h, k));
        weights.push(weight("rms_w", h, 1));
        ops = list3("q_proj", "k_proj", "v_proj");
    } else if text::same_text(kind, "output_proj") {
        weights.push(weight("lm_head_w", h, v));
        ops.push("lm_head".to_owned());
    } else if text::same_text(kind, "ffn_output") {
        weights.push(weight("gate_w", h, i));
        weights.push(weight("up_w", h, i));
        weights.push(weight("down_w", i, h));
        weights.push(weight("lm_head_w", h, v));
        ops = list3("gate_proj", "up_proj", "down_proj");
        ops.push("lm_head".to_owned());
    } else if text::same_text(kind, "matmul") {
        ops.push("matmul".to_owned());
    } else {
        let mut e: String = text::join3("unknown subgraph_kind '", kind, "' for island '");
        e.append(island_id);
        e.append("'");
        return Err(e);
    }
    let shapes: Vec<(String, i64)> = shapes_of(a);
    proof {
        assert(weights@.map_values(|w: IslandWeight| w@) =~= island_weights(kind@, *a)->0);
        assert(order::views(ops@) =~= island_ops(kind@)->0);
    }
    Ok(IslandPlan { weights, ops, shapes })
}

fn shapes_of(a: &TextArchitecture) -> (r: Vec<(String, i64)>)
    ensures
        r@.map_values(|s: (String, i64)| (s.0@, s.1)) == island_shapes(*a),
{
    let mut r: Vec<(String, i64)> = Vec::new();
    r.push(("hidden".to_owned(), a.hidden_size as i64));
    r.push(("intermediate".to_owned(), a.intermediate_size as i64));
    r.push(("vocab".to_owned(), a.vocab_size as i64));
    r.push(("head_dim".to_owned(), a.head_dim as i64));
    r.push(("n_heads".to_owned(), a.num_attention_heads as i64));
    r.push(("n_kv_heads".to_owned(), a.num_key_value_heads as i64));
    assert(r@.map_values(|s: (String, i64)| (s.0@, s.1)) =~= island_shapes(*a));
    r
}

// ---------------------------------------------------------------------------
// Laws
// ---------------------------------------------------------------------------

/// Whether a dimension is the first one given under a key.
pub open spec fn gives(shapes: Map<Seq<char>, Vec<i64>>, key: Seq<char>, d: i64) -> bool {
    shapes.dom().contains(key) && shapes[key]@.len() > 0 && shapes[key]@[0] == d
}

/// The dimensions that are given count as they are; what is not given is 4096 wide with
/// 32 heads, 11008 inside the feed-forward layers and a vocabulary of 32000; there are as
/// many key and value heads as heads, and the heads share the width.
pub proof fn law_dimensions_given_count(
    shapes: &NameTable<Vec<i64>>,
    r: SubgraphDims,
    d: i64,
)
    requires
        call_ensures(subgraph_dims, (shapes,), r),
        0 <= d <= u32::MAX,
    ensures
        gives(shapes@, "hidden"@, d) ==> r.hidden == d,
        !shapes@.dom().contains("hidden"@) ==> r.hidden == 4096,
        gives(shapes@, "intermediate"@, d) ==> r.intermediate == d,
        !shapes@.dom().contains("intermediate"@) ==> r.intermediate == 11008,
        gives(shapes@, "num_attention_heads"@, d) ==> r.heads == d,
        !shapes@.dom().contains("num_attention_heads"@) ==> r.heads == 32,
        gives(shapes@, "num_key_value_heads"@, d) ==> r.kv_heads == d,
        !shapes@.dom().contains("num_key_value_heads"@) ==> r.kv_heads == r.heads,
        gives(shapes@, "head_dim"@, d) ==> r.head_dim == d,
        !shapes@.dom().contains("head_dim"@) && r.heads > 0 ==> r.head_dim == r.hidden / r.heads,
        gives(shapes@, "vocab"@, d) ==> r.vocab == d,
        !shapes@.dom().contains("vocab"@) ==> r.vocab == 32000,
{
    if r.heads > 0 {
        assert(r.hidden / r.heads <= r.hidden) by (nonlinear_arith)
            requires
                r.heads > 0,
        ;
    }
}

/// The kinds of subgraphs are known by their names, and each reads the weights of its own
/// projections.
pub proof fn law_subgraph_reads_its_weights(
    name: &str,
    shapes: &NameTable<Vec<i64>>,
    r: Result<SubgraphKind, String>,
    weights: Vec<String>,
)
    requires
        call_ensures(subgraph_kind, (name, shapes), r),
        r matches Ok(k) ==> call_ensures(subgraph_weights, (k,), weights),
    ensures
        ({
            let w = order::views(weights@);
            &&& r is Ok == (name@ == "matmul"@ || name@ == "mlp_block"@ || name@ == "rmsnorm_qkv"@
                || name@ == "output_proj"@ || name@ == "ffn_output"@ || name@ == "qkv_bundle"@)
            &&& name@ == "mlp_block"@ ==> w == seq!["gate_w"@, "up_w"@, "down_w"@]
            &&& name@ == "rmsnorm_qkv"@ ==> w == seq!["rms_w"@, "q_w"@, "k_w"@, "v_w"@]
            &&& name@ == "output_proj"@ || name@ == "matmul"@ ==> w == seq!["weight_values"@]
            &&& name@ == "ffn_output"@ ==> w == seq!["gate_w"@, "up_w"@, "down_w"@, "lm_head_w"@]
            &&& name@ == "qkv_bundle"@ ==> w == seq!["q_w"@, "k_w"@, "v_w"@]
            &&& r matches Err(e) ==> e@ == "unknown subgraph kind '"@ + name@
                + "' — no MIL builder registered"@
        }),
{
    lemma_subgraph_names_differ();
}

proof fn lemma_subgraph_names_differ()
    ensures
        "matmul"@.len() == 6,
        "mlp_block"@.len() == 9,
        "rmsnorm_qkv"@.len() == 11,
        "output_proj"@.len() == 11,
        "ffn_output"@.len() == 10,
        "qkv_bundle"@.len() == 10,
        "rmsnorm_qkv"@ != "output_proj"@,
        "ffn_output"@ != "qkv_bundle"@,
{
    reveal_strlit("matmul");
    reveal_strlit("mlp_block");
    reveal_strlit("rmsnorm_qkv");
    reveal_strlit("output_proj");
    reveal_strlit("ffn_output");
    reveal_strlit("qkv_bundle");
    assert("rmsnorm_qkv"@[0] == 'r' && "output_proj"@[0] == 'o');
    assert("ffn_output"@[0] == 'f' && "qkv_bundle"@[0] == 'q');
}

/// The weights of an island have the shapes of its projections: into the feed-forward
/// layer and out of it, from the width to the heads, and to the vocabulary.
pub proof fn law_island_weights_are_shaped(
    island: &str,
    kind: &str,
    a: &TextArchitecture,
    p: IslandPlan,
    i: int,
)
    requires
        call_ensures(plan_island, (island, kind, a), Ok::<IslandPlan, String>(p)),
        0 <= i < p.weights@.len(),
        a.head_dim * a.num_attention_heads <= u32::MAX,
        a.head_dim * a.num_key_value_heads <= u32::MAX,
    ensures
        ({
            let w = p.weights@[i];
            let n = w.name@;
            &&& n == "gate_w"@ || n == "up_w"@ ==> w.rows == a.hidden_size && w.cols
                == a.intermediate_size
            &&& n == "down_w"@ ==> w.rows == a.intermediate_size && w.cols == a.hidden_size
            &&& n == "q_w"@ ==> w.rows == a.hidden_size && w.cols == a.head_dim
                * a.num_attention_heads
            &&& n == "k_w"@ || n == "v_w"@ ==> w.rows == a.hidden_size && w.cols == a.head_dim
                * a.num_key_value_heads
            &&& n == "lm_head_w"@ ==> w.rows == a.hidden_size && w.cols == a.vocab_size
            &&& n == "rms_w"@ ==> w.rows == a.hidden_size && w.cols == 1
        }),
        kind@ == "mlp_block"@ ==> p.weights@.len() == 3 && order::views(p.ops@) == seq![
            "gate_proj"@,
            "up_proj"@,
            "down_proj"@,
        ],
        kind@ == "qkv_bundle"@ ==> p.weights@.len() == 3 && order::views(p.ops@) == seq![
            "q_proj"@,
            "k_proj"@,
            "v_proj"@,
        ],
{
    lemma_weight_names_differ();
    lemma_subgraph_names_differ();
    let v = p.weights@.map_values(|w: IslandWeight| w@);
    assert(island_weights(kind@, *a) == Some(v));
    assert(v[i] == p.weights@[i]@);
    assert(v.len() == p.weights@.len());
}

proof fn lemma_weight_names_differ()
    ensures
        "gate_w"@.len() == 6,
        "up_w"@.len() == 4,
        "down_w"@.len() == 6,
        "q_w"@.len() == 3,
        "k_w"@.len() == 3,
        "v_w"@.len() == 3,
        "rms_w"@.len() == 5,
        "lm_head_w"@.len() == 9,
        "gate_w"@ != "down_w"@,
        "q_w"@ != "k_w"@,
        "q_w"@ != "v_w"@,
        "k_w"@ != "v_w"@,
{
    reveal_strlit("gate_w");
    reveal_strlit("up_w");
    reveal_strlit("down_w");
    reveal_strlit("q_w");
    reveal_strlit("k_w");
    reveal_strlit("v_w");
    reveal_strlit("rms_w");
    reveal_strlit("lm_head_w");
    assert("gate_w"@[0] == 'g' && "down_w"@[0] == 'd');
    assert("q_w"@[0] == 'q' && "k_w"@[0] == 'k' && "v_w"@[0] == 'v');
}

/// The subgraphs that can be compiled, by name, each with the operations that it runs.
pub proof fn law_candidates_are_the_known_subgraphs(r: Vec<Subgraph>)
    requires
        call_ensures(candidate_subgraphs, (), r),
    ensures
        r@.len() == 5,
        r@[0].name@ == "mlp_block"@,
        order::views(r@[0].ops@) == seq![
            "gate_proj"@,
            "silu_mul"@,
            "up_proj"@,
            "mul"@,
            "down_proj"@,
            "residual_add"@,
        ],
        r@[1].name@ == "rmsnorm_qkv"@,
        order::views(r@[1].ops@) == seq!["rms_norm"@, "q_proj"@, "k_proj"@, "v_proj"@, "rope"@],
        r@[2].name@ == "output_proj"@,
        order::views(r@[2].ops@) == seq!["lm_head"@],
        r@[3].name@ == "ffn_output"@,
        order::views(r@[3].ops@) == seq![
            "gate_proj"@,
            "silu_mul"@,
            "up_proj"@,
            "mul"@,
            "down_proj"@,
            "rms_norm"@,
            "lm_head"@,
        ],
        r@[4].name@ == "qkv_bundle"@,
        order::views(r@[4].ops@) == seq!["q_proj"@, "k_proj"@, "v_proj"@],
{
    let v = subgraph_views(r@);
    assert(v == subgraph_catalog());
    assert(v.len() == r@.len());
    assert(v[0] == r@[0]@ && v[1] == r@[1]@ && v[2] == r@[2]@ && v[3] == r@[3]@ && v[4] == r@[4]@);
}

} // verus!
