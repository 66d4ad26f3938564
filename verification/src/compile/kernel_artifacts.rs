//! The matrix kernels that the quantized layers of an image call for.

use vstd::prelude::*;
use vstd::string::*;

use crate::config;
use crate::config::{BindingView, LayerSpec, LayerView, TensorBinding};
use crate::digest;
use crate::digest::sha256_bytes;
use crate::order;
use crate::table;
use crate::table::NameTable;
use crate::text;

verus! {

/// What a matrix kernel is specialized for.
#[derive(Debug, Clone, Copy, PartialEq, Eq, Structural)]
pub struct KernelRequest {
    pub bits: u8,
    pub group_size: u32,
    pub k: u64,
    pub n: u64,
}

/// The key of the kernel for a quantized layer.
pub open spec fn kernel_key(bits: u32, group_size: u32, k: u32, n: u32) -> Seq<char> {
    "metal:mlx-qmatmul:v1:affine:b"@ + text::decimal(bits as nat) + ":g"@ + text::decimal(
        group_size as nat,
    ) + ":gpu-m1:shape-k"@ + text::decimal(k as nat) + "-n"@ + text::decimal(n as nat)
}

fn build_key(bits: u32, group_size: u32, k: u32, n: u32) -> (r: String)
    ensures
        r@ == kernel_key(bits, group_size, k, n),
{
    let mut r: String = "metal:mlx-qmatmul:v1:affine:b".to_owned();
    text::push_decimal(&mut r, bits as u64);
    r.append(":g");
    text::push_decimal(&mut r, group_size as u64);
    r.append(":gpu-m1:shape-k");
    text::push_decimal(&mut r, k as u64);
    r.append("-n");
    text::push_decimal(&mut r, n as u64);
    r
}

/// Whether a quantized binding has the dimensions that its kernel is
/// specialized for.
pub open spec fn is_shaped(b: BindingView) -> bool {
    b.packed is Some ==> b.logical_shape.len() >= 2 && b.packed->0.weight.len() >= 1
}

/// Whether all bindings of the layers are shaped.
pub open spec fn all_shaped(layers: Seq<LayerView>) -> bool {
    forall|i: int, j: int|
        0 <= i < layers.len() && 0 <= j < layers[i].tensors.len() ==> is_shaped(
            #[trigger] layers[i].tensors[j],
        )
}

/// The kernels that bindings call for, by key; of two bindings with one key the
/// first counts.
pub open spec fn requests_among(
    m: Map<Seq<char>, KernelRequest>,
    bindings: Seq<BindingView>,
) -> Map<Seq<char>, KernelRequest>
    decreases bindings.len(),
{
    if bindings.len() == 0 {
        m
    } else {
        let rest = requests_among(m, bindings.drop_last());
        let b = bindings.last();
        match b.packed {
            Some(p) => {
                let key = kernel_key(p.bits, p.group_size, b.logical_shape[1], p.weight[0]);
                if rest.dom().contains(key) {
                    rest
                } else {
                    rest.insert(
                        key,
                        KernelRequest {
                            bits: (p.bits % 256) as u8,
                            group_size: p.group_size,
                            k: b.logical_shape[1] as u64,
                            n: p.weight[0] as u64,
                        },
                    )
                }
            },
            None => rest,
        }
    }
}

/// The kernels that layers call for, by key.
pub open spec fn requests_of(layers: Seq<LayerView>) -> Map<Seq<char>, KernelRequest>
    decreases layers.len(),
{
    if layers.len() == 0 {
        Map::empty()
    } else {
        requests_among(requests_of(layers.drop_last()), layers.last().tensors)
    }
}

fn add_requests(t: &mut NameTable<KernelRequest>, bindings: &Vec<TensorBinding>)
    requires
        old(t).wf(),
        forall|j: int| 0 <= j < bindings@.len() ==> is_shaped((#[trigger] bindings@[j])@),
    ensures
        final(t).wf(),
        final(t)@ == requests_among(old(t)@, config::binding_views(bindings@)),
{
    let ghost start = t@;
    let ghost views = config::binding_views(bindings@);
    let mut i: usize = 0;
    while i < bindings.len()
        invariant
            i <= bindings@.len(),
            t.wf(),
            views == config::binding_views(bindings@),
            forall|j: int| 0 <= j < bindings@.len() ==> is_shaped((#[trigger] bindings@[j])@),
            t@ == requests_among(start, views.take(i as int)),
        decreases bindings@.len() - i,
    {
        let b: &TensorBinding = &bindings[i];
        proof {
            assert(views.take(i + 1).drop_last() =~= views.take(i as int));
            assert(views.take(i + 1).last() == b@);
            assert(is_shaped(bindings@[i as int]@));
        }
        if let Some(p) = &b.packed_shape {
            let k: u32 = b.logical_shape[1];
            let n: u32 = p.weight[0];
            let key: String = build_key(p.bits, p.group_size, k, n);
            if !t.contains(key.as_str()) {
                t.insert(
                    key,
                    KernelRequest {
                        bits: (p.bits % 256) as u8,
                        group_size: p.group_size,
                        k: k as u64,
                        n: n as u64,
                    },
                );
            }
        }
        i = i + 1;
    }
    assert(views.take(views.len() as int) =~= views);
}

/// The kernels that the layers call for, by key.
pub fn kernel_requests(layers: &Vec<LayerSpec>) -> (t: NameTable<KernelRequest>)
    requires
        all_shaped(config::layer_views(layers@)),
    ensures
        t.wf(),
        t@ == requests_of(config::layer_views(layers@)),
{
    let ghost views = config::layer_views(layers@);
    let mut t: NameTable<KernelRequest> = NameTable::new();
    let mut i: usize = 0;
    while i < layers.len()
        invariant
            i <= layers@.len(),
            t.wf(),
            views == config::layer_views(layers@),
            views.len() == layers@.len(),
            all_shaped(views),
            t@ == requests_of(views.take(i as int)),
        decreases layers@.len() - i,
    {
        proof {
            assert(views.take(i + 1).drop_last() =~= views.take(i as int));
            assert(views.take(i + 1).last() == layers@[i as int]@);
            let bs = layers@[i as int].tensors@;
            assert forall|j: int| 0 <= j < bs.len() implies is_shaped((#[trigger] bs[j])@) by {
                assert(views[i as int].tensors[j] == bs[j]@);
                assert(is_shaped(views[i as int].tensors[j]));
            }
        }
        add_requests(&mut t, &layers[i].tensors);
        i = i + 1;
    }
    assert(views.take(views.len() as int) =~= views);
    t
}

/// A compiled matrix kernel and how it is dispatched. Its buffers are bound in
/// the order of `slot_names`.
#[derive(Debug)]
pub struct MetalKernelArtifact {
    pub artifact_id: String,
    pub logical_operation: String,
    pub metallib_relpath: String,
    pub metallib_byte_length: u64,
    pub entry_point: String,
    pub threads_per_threadgroup: [u32; 3],
    pub threadgroups_per_grid: [u32; 3],
    pub slot_names: Vec<String>,
    pub k: u64,
    pub n: u64,
    pub group_size: u32,
    pub bits: u8,
    pub kernel_abi_version: u32,
    pub logical_shape: Vec<u32>,
    pub storage_shape: Vec<u32>,
    pub gpu_family: String,
    pub checksum: String,
}

/// The number of threadgroups of 32 threads for `n` rows.
pub open spec fn row_groups(n: u64) -> int {
    (n + 31) / 32
}

/// Whether an artifact is the one for a request, with the given library bytes;
/// no bytes have no digest.
pub open spec fn is_artifact_for(
    a: MetalKernelArtifact,
    key: Seq<char>,
    r: KernelRequest,
    library: Seq<u8>,
) -> bool {
    &&& a.artifact_id@ == key
    &&& a.logical_operation@ == "quantized_matmul"@
    &&& a.metallib_relpath@ == "metal/kernels/"@ + key + ".metallib"@
    &&& a.metallib_byte_length == library.len()
    &&& a.entry_point@ == "quantized_matmul_nf4"@
    &&& a.threads_per_threadgroup@ == seq![32u32, 1, 1]
    &&& a.threadgroups_per_grid@ == seq![row_groups(r.n) as u32, 1, 1]
    &&& order::views(a.slot_names@) == seq!["input"@, "weight"@, "scale"@, "bias"@, "output"@]
    &&& a.k == r.k
    &&& a.n == r.n
    &&& a.group_size == r.group_size
    &&& a.bits == r.bits
    &&& a.kernel_abi_version == 1
    &&& a.logical_shape@ == seq![r.k as u32, r.n as u32]
    &&& a.storage_shape@ == seq![r.n as u32, ((r.k * r.bits / 32) % 0x1_0000_0000) as u32]
    &&& a.gpu_family@ == "m1"@
    &&& a.checksum@ == if library.len() == 0 {
        Seq::empty()
    } else {
        digest::sha256_hex(library)
    }
}

fn slots() -> (r: Vec<String>)
    ensures
        order::views(r@) == seq!["input"@, "weight"@, "scale"@, "bias"@, "output"@],
{
    let mut r: Vec<String> = Vec::new();
    r.push("input".to_owned());
    r.push("weight".to_owned());
    r.push("scale".to_owned());
    r.push("bias".to_owned());
    r.push("output".to_owned());
    assert(order::views(r@) =~= seq!["input"@, "weight"@, "scale"@, "bias"@, "output"@]);
    r
}

fn two(a: u32, b: u32) -> (r: Vec<u32>)
    ensures
        r@ == seq![a, b],
{
    let mut r: Vec<u32> = Vec::new();
    r.push(a);
    r.push(b);
    assert(r@ =~= seq![a, b]);
    r
}

/// The artifact for a request, from the bytes of its library where there is one.
pub fn kernel_artifact(key: &str, r: KernelRequest, library: &[u8]) -> (a: MetalKernelArtifact)
    requires
        r.k <= u32::MAX,
        r.n <= u32::MAX,
    ensures
        is_artifact_for(a, key@, r, library@),
{
    assert(r.k * r.bits <= 0xFFFF_FFFF * 255) by (nonlinear_arith)
        requires
            r.k <= 0xFFFF_FFFF,
            r.bits <= 255,
    ;
    let groups: u32 = ((r.n + 31) / 32) as u32;
    let stored: u32 = ((r.k * r.bits as u64 / 32) % 0x1_0000_0000) as u32;
    let a: MetalKernelArtifact = MetalKernelArtifact {
        artifact_id: key.to_owned(),
        logical_operation: "quantized_matmul".to_owned(),
        metallib_relpath: text::join3("metal/kernels/", key, ".metallib"),
        metallib_byte_length: library.len() as u64,
        entry_point: "quantized_matmul_nf4".to_owned(),
        threads_per_threadgroup: [32, 1, 1],
        threadgroups_per_grid: [groups, 1, 1],
        slot_names: slots(),
        k: r.k,
        n: r.n,
        group_size: r.group_size,
        bits: r.bits,
        kernel_abi_version: 1,
        logical_shape: two(r.k as u32, r.n as u32),
        storage_shape: two(r.n as u32, stored),
        gpu_family: "m1".to_owned(),
        checksum: if library.len() == 0 {
            String::new()
        } else {
            sha256_bytes(library)
        },
    };
    assert(a.threads_per_threadgroup@ =~= seq![32u32, 1, 1]);
    assert(a.threadgroups_per_grid@ =~= seq![groups, 1, 1]);
    assert(a.checksum@ =~= if library@.len() == 0 {
        Seq::empty()
    } else {
        digest::sha256_hex(library@)
    });
    a
}

/// Every request that layers call for is within the range of a dispatch.
pub proof fn law_requests_in_range(layers: Seq<LayerView>, key: Seq<char>)
    requires
        requests_of(layers).dom().contains(key),
    ensures
        requests_of(layers)[key].k <= u32::MAX,
        requests_of(layers)[key].n <= u32::MAX,
    decreases layers.len(),
{
    if layers.len() > 0 {
        let m = requests_of(layers.drop_last());
        if m.dom().contains(key) {
            law_requests_in_range(layers.drop_last(), key);
        }
        lemma_requests_among(m, layers.last().tensors, key);
    }
}

proof fn lemma_requests_among(
    m: Map<Seq<char>, KernelRequest>,
    bindings: Seq<BindingView>,
    key: Seq<char>,
)
    requires
        requests_among(m, bindings).dom().contains(key),
    ensures
        m.dom().contains(key) ==> requests_among(m, bindings)[key] == m[key],
        !m.dom().contains(key) ==> requests_among(m, bindings)[key].k <= u32::MAX && requests_among(
            m,
            bindings,
        )[key].n <= u32::MAX,
    decreases bindings.len(),
{
    if bindings.len() > 0 {
        let rest = requests_among(m, bindings.drop_last());
        lemma_requests_keep(m, bindings.drop_last(), key);
        if rest.dom().contains(key) {
            lemma_requests_among(m, bindings.drop_last(), key);
        }
    }
}

proof fn lemma_requests_keep(
    m: Map<Seq<char>, KernelRequest>,
    bindings: Seq<BindingView>,
    key: Seq<char>,
)
    ensures
        m.dom().contains(key) ==> requests_among(m, bindings).dom().contains(key),
    decreases bindings.len(),
{
    if bindings.len() > 0 {
        lemma_requests_keep(m, bindings.drop_last(), key);
    }
}

/// The keys of the kernels that the layers call for, in order.
pub fn sorted_kernel_keys(requests: &NameTable<KernelRequest>) -> (r: Vec<String>)
    requires
        requests.wf(),
    ensures
        table::lists_in_order(order::views(r@), requests@.dom()),
{
    table::sorted_names(requests)
}

proof fn lemma_request_added(
    m: Map<Seq<char>, KernelRequest>,
    bindings: Seq<BindingView>,
    key: Seq<char>,
    j: int,
)
    ensures
        m.dom().contains(key) ==> requests_among(m, bindings).dom().contains(key)
            && requests_among(m, bindings)[key] == m[key],
        0 <= j < bindings.len() && (bindings[j].packed matches Some(p) && key == kernel_key(
            p.bits,
            p.group_size,
            bindings[j].logical_shape[1],
            p.weight[0],
        )) ==> requests_among(m, bindings).dom().contains(key),
    decreases bindings.len(),
{
    if bindings.len() > 0 {
        let rest = bindings.drop_last();
        lemma_request_added(m, rest, key, j);
        if 0 <= j < rest.len() {
            assert(rest[j] == bindings[j]);
        }
    }
}

/// Every quantized tensor of a layer has the kernel that it needs among the requests:
/// under a key that gives its bits, its group size, its columns and its rows.
pub proof fn law_quantized_tensor_has_its_kernel(
    layers: Seq<LayerView>,
    l: int,
    j: int,
)
    requires
        0 <= l < layers.len(),
        0 <= j < layers[l].tensors.len(),
        layers[l].tensors[j].packed is Some,
    ensures
        ({
            let b = layers[l].tensors[j];
            let p = b.packed->0;
            requests_of(layers).dom().contains(
                "metal:mlx-qmatmul:v1:affine:b"@ + text::decimal(p.bits as nat) + ":g"@
                    + text::decimal(p.group_size as nat) + ":gpu-m1:shape-k"@ + text::decimal(
                    b.logical_shape[1] as nat,
                ) + "-n"@ + text::decimal(p.weight[0] as nat),
            )
        }),
    decreases layers.len(),
{
    let b = layers[l].tensors[j];
    let p = b.packed->0;
    let key = kernel_key(p.bits, p.group_size, b.logical_shape[1], p.weight[0]);
    let rest = layers.drop_last();
    if l < rest.len() {
        assert(rest[l] == layers[l]);
        law_quantized_tensor_has_its_kernel(rest, l, j);
        lemma_request_added(requests_of(rest), layers.last().tensors, key, -1);
    } else {
        lemma_request_added(requests_of(rest), layers.last().tensors, key, j);
    }
}

/// What a kernel is requested with is what its key says, and some quantized tensor calls
/// for it.
pub proof fn law_request_is_what_its_key_says(layers: Seq<LayerView>, key: Seq<char>) -> (at: (
    int,
    int,
))
    requires
        requests_of(layers).dom().contains(key),
    ensures
        0 <= at.0 < layers.len(),
        0 <= at.1 < layers[at.0].tensors.len(),
        ({
            let b = layers[at.0].tensors[at.1];
            let r = requests_of(layers)[key];
            &&& b.packed is Some
            &&& key == kernel_key(
                b.packed->0.bits,
                b.packed->0.group_size,
                b.logical_shape[1],
                b.packed->0.weight[0],
            )
            &&& r.bits == b.packed->0.bits % 256
            &&& r.group_size == b.packed->0.group_size
            &&& r.k == b.logical_shape[1]
            &&& r.n == b.packed->0.weight[0]
        }),
    decreases layers.len(),
{
    let rest = layers.drop_last();
    let last = layers.len() - 1;
    if requests_of(rest).dom().contains(key) {
        let at = law_request_is_what_its_key_says(rest, key);
        assert(rest[at.0] == layers[at.0]);
        lemma_request_added(requests_of(rest), layers.last().tensors, key, -1);
        at
    } else {
        let j = lemma_request_source(requests_of(rest), layers.last().tensors, key);
        (last, j)
    }
}

proof fn lemma_request_source(
    m: Map<Seq<char>, KernelRequest>,
    bindings: Seq<BindingView>,
    key: Seq<char>,
) -> (j: int)
    requires
        !m.dom().contains(key),
        requests_among(m, bindings).dom().contains(key),
    ensures
        0 <= j < bindings.len(),
        ({
            let b = bindings[j];
            let r = requests_among(m, bindings)[key];
            &&& b.packed is Some
            &&& key == kernel_key(
                b.packed->0.bits,
                b.packed->0.group_size,
                b.logical_shape[1],
                b.packed->0.weight[0],
            )
            &&& r.bits == b.packed->0.bits % 256
            &&& r.group_size == b.packed->0.group_size
            &&& r.k == b.logical_shape[1]
            &&& r.n == b.packed->0.weight[0]
        }),
    decreases bindings.len(),
{
    let rest = bindings.drop_last();
    if requests_among(m, rest).dom().contains(key) {
        let j = lemma_request_source(m, rest, key);
        assert(rest[j] == bindings[j]);
        j
    } else {
        bindings.len() - 1
    }
}

/// An artifact is dispatched in groups of 32 threads that cover the rows, and stores each
/// row in as many words as its columns take in bits; the digest is that of the library
/// that was found.
pub proof fn law_artifact_covers_the_rows(
    key: &str,
    r: KernelRequest,
    library: &[u8],
    a: MetalKernelArtifact,
)
    requires
        call_ensures(kernel_artifact, (key, r, library), a),
        r.k <= u32::MAX,
        r.n <= u32::MAX,
    ensures
        a.artifact_id@ == key@,
        a.metallib_relpath@ == "metal/kernels/"@ + key@ + ".metallib"@,
        a.metallib_byte_length == library@.len(),
        a.threads_per_threadgroup@ == seq![32u32, 1, 1],
        r.n <= 32 * a.threadgroups_per_grid@[0] < r.n + 32,
        a.threadgroups_per_grid@[1] == 1 && a.threadgroups_per_grid@[2] == 1,
        a.logical_shape@ == seq![r.k as u32, r.n as u32],
        a.storage_shape@[0] == r.n,
        r.bits <= 32 ==> 32 * a.storage_shape@[1] <= r.k * r.bits < 32 * a.storage_shape@[1] + 32,
        library@.len() > 0 ==> a.checksum@ == digest::sha256_hex(library@),
        library@.len() == 0 ==> a.checksum@.len() == 0,
{
    assert(0 <= r.k * r.bits) by (nonlinear_arith)
        requires
            0 <= r.k,
            0 <= r.bits,
    ;
    if r.bits <= 32 {
        assert(r.k * r.bits <= 0xFFFF_FFFF * 32) by (nonlinear_arith)
            requires
                0 <= r.k <= 0xFFFF_FFFF,
                0 <= r.bits <= 32,
        ;
    }
}

} // verus!
