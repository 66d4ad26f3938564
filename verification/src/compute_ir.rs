//! The intermediate form of a model's computation.

use vstd::prelude::*;

use crate::order;
use crate::table::NameTable;
use crate::text;

verus! {

/// How a tensor is quantized.
#[derive(Debug, Clone, Copy, PartialEq, Eq, Structural)]
pub enum QuantMode {
    /// Not at all.
    Absent,
    Ternary,
    Nf4,
    Int4,
}

/// What becomes of a tensor after its use.
#[derive(Debug, Clone, Copy, PartialEq, Eq, Structural)]
pub enum TensorDisposition {
    Transient,
    Persistent,
}

/// A tensor of the computation.
#[derive(Debug)]
pub struct IrTensor {
    pub id: String,
    pub name: String,
    pub logical_dtype: String,
    pub logical_shape: Vec<u32>,
    pub physical_dtype: String,
    pub physical_shape: Vec<u32>,
    pub strides: Vec<u64>,
    pub quant_mode: QuantMode,
    pub disposition: TensorDisposition,
}

/// A tensor in contracts.
#[verifier::ext_equal]
pub ghost struct IrTensorView {
    pub id: Seq<char>,
    pub name: Seq<char>,
    pub logical_dtype: Seq<char>,
    pub logical_shape: Seq<u32>,
    pub physical_dtype: Seq<char>,
    pub physical_shape: Seq<u32>,
    pub strides: Seq<u64>,
    pub quant_mode: QuantMode,
    pub disposition: TensorDisposition,
}

impl IrTensor {
    pub open spec fn view(&self) -> IrTensorView {
        IrTensorView {
            id: self.id@,
            name: self.name@,
            logical_dtype: self.logical_dtype@,
            logical_shape: self.logical_shape@,
            physical_dtype: self.physical_dtype@,
            physical_shape: self.physical_shape@,
            strides: self.strides@,
            quant_mode: self.quant_mode,
            disposition: self.disposition,
        }
    }
}

pub open spec fn ir_tensor_views(s: Seq<IrTensor>) -> Seq<IrTensorView> {
    s.map_values(|t: IrTensor| t@)
}

/// One operation.
#[derive(Debug)]
pub struct IROp {
    pub kind: String,
    pub input_tensors: Vec<String>,
    pub output_tensors: Vec<String>,
    pub metadata: NameTable<String>,
}

/// An operation in contracts.
#[verifier::ext_equal]
pub ghost struct OpView {
    pub kind: Seq<char>,
    pub inputs: Seq<Seq<char>>,
    pub outputs: Seq<Seq<char>>,
    pub metadata: Map<Seq<char>, Seq<char>>,
}

impl IROp {
    pub open spec fn wf(&self) -> bool {
        self.metadata.wf()
    }

    pub open spec fn view(&self) -> OpView {
        OpView {
            kind: self.kind@,
            inputs: order::views(self.input_tensors@),
            outputs: order::views(self.output_tensors@),
            metadata: self.metadata@.map_values(|v: String| v@),
        }
    }
}

pub open spec fn op_views(s: Seq<IROp>) -> Seq<OpView> {
    s.map_values(|o: IROp| o@)
}

/// Operations that are scheduled together.
#[derive(Debug)]
pub struct IrRegion {
    pub ops: Vec<IROp>,
    pub dependencies: Vec<String>,
    pub candidates: Vec<String>,
    pub state_effects: Vec<String>,
}

/// The computation.
#[derive(Debug)]
pub struct ComputeExecutionIR {
    pub tensors: Vec<IrTensor>,
    pub aliases: Vec<String>,
    pub layers: Vec<String>,
    pub regions: Vec<IrRegion>,
    pub metadata: NameTable<String>,
}

/// The operations of the regions, one region after the other.
pub open spec fn flat_ops(regions: Seq<IrRegion>) -> Seq<OpView>
    decreases regions.len(),
{
    if regions.len() == 0 {
        Seq::empty()
    } else {
        flat_ops(regions.drop_last()) + op_views(regions.last().ops@)
    }
}

/// The first tensor with the id.
pub open spec fn tensor_of_id(tensors: Seq<IrTensorView>, id: Seq<char>) -> Option<IrTensorView>
    decreases tensors.len(),
{
    if tensors.len() == 0 {
        None
    } else if tensors[0].id == id {
        Some(tensors[0])
    } else {
        tensor_of_id(tensors.drop_first(), id)
    }
}

/// Whether tensor `i` is the first with the id.
pub open spec fn is_first_with(tensors: Seq<IrTensor>, id: Seq<char>, i: int) -> bool {
    &&& 0 <= i < tensors.len()
    &&& tensors[i].id@ == id
    &&& forall|j: int| 0 <= j < i ==> (#[trigger] tensors[j]).id@ != id
}

impl ComputeExecutionIR {
    pub open spec fn wf(&self) -> bool {
        forall|r: int, o: int|
            0 <= r < self.regions@.len() && 0 <= o < self.regions@[r].ops@.len() ==> (
            #[trigger] self.regions@[r].ops@[o]).wf()
    }

    /// A computation of nothing.
    pub fn new() -> (ir: Self)
        ensures
            ir.wf(),
            ir.tensors@ == Seq::<IrTensor>::empty(),
            ir.aliases@ == Seq::<String>::empty(),
            ir.layers@ == Seq::<String>::empty(),
            ir.regions@ == Seq::<IrRegion>::empty(),
            ir.metadata@ == Map::<Seq<char>, String>::empty(),
    {
        ComputeExecutionIR {
            tensors: Vec::new(),
            aliases: Vec::new(),
            layers: Vec::new(),
            regions: Vec::new(),
            metadata: NameTable::new(),
        }
    }

    /// The first tensor with the id.
    pub fn tensor_by_id(&self, id: &str) -> (r: Option<&IrTensor>)
        ensures
            match r {
                Some(t) => tensor_of_id(ir_tensor_views(self.tensors@), id@) == Some(t@)
                    && exists|i: int| #[trigger] is_first_with(self.tensors@, id@, i) && *t
                    == self.tensors@[i],
                None => tensor_of_id(ir_tensor_views(self.tensors@), id@) is None,
            },
    {
        let ghost all = ir_tensor_views(self.tensors@);
        let mut i: usize = 0;
        assert(all.skip(0) =~= all);
        while i < self.tensors.len()
            invariant
                i <= self.tensors@.len(),
                all == ir_tensor_views(self.tensors@),
                forall|j: int| 0 <= j < i ==> (#[trigger] self.tensors@[j]).id@ != id@,
                tensor_of_id(all, id@) == tensor_of_id(all.skip(i as int), id@),
            decreases self.tensors@.len() - i,
        {
            assert(all.skip(i as int)[0] == self.tensors@[i as int]@);
            if text::same_text(self.tensors[i].id.as_str(), id) {
                assert(is_first_with(self.tensors@, id@, i as int));
                return Some(&self.tensors[i]);
            }
            assert(all.skip(i as int).drop_first() =~= all.skip(i + 1));
            i = i + 1;
        }
        None
    }
}

/// The operations of a computation are those of its regions, one region after the
/// other, each in its order.
pub proof fn law_operations_keep_their_order(regions: Seq<IrRegion>, r: int, o: int) -> (at: int)
    requires
        0 <= r < regions.len(),
        0 <= o < regions[r].ops@.len(),
    ensures
        0 <= at < flat_ops(regions).len(),
        at == regions.take(r).fold_left(0int, |n: int, x: IrRegion| n + x.ops@.len()) + o,
        flat_ops(regions)[at] == regions[r].ops@[o]@,
        flat_ops(regions).len() == regions.fold_left(0int, |n: int, x: IrRegion| n + x.ops@.len()),
    decreases regions.len(),
{
    lemma_flat_len(regions);
    let rest = regions.drop_last();
    if r < rest.len() {
        assert(rest[r] == regions[r]);
        assert(rest.take(r) =~= regions.take(r));
        law_operations_keep_their_order(rest, r, o)
    } else {
        lemma_flat_len(rest);
        assert(regions.take(r) =~= rest);
        flat_ops(rest).len() + o
    }
}

proof fn lemma_flat_len(regions: Seq<IrRegion>)
    ensures
        flat_ops(regions).len() == regions.fold_left(0int, |n: int, x: IrRegion| n + x.ops@.len()),
    decreases regions.len(),
{
    if regions.len() > 0 {
        lemma_flat_len(regions.drop_last());
    }
}

} // verus!
