//! Programs for Tensix cards.

use vstd::prelude::*;

verus! {

/// Where a card sits on the network of the chip.
#[derive(Debug, Clone, Copy, PartialEq, Eq, Structural)]
pub struct CardCoord {
    pub card_id: u32,
    pub noc_x: u32,
    pub noc_y: u32,
}

/// What links the cards.
#[derive(Debug, Clone, Copy, PartialEq, Eq, Structural)]
pub enum InterconnectType {
    Noc,
    Ethernet,
}

/// The route of the data through the cards.
#[derive(Debug)]
pub struct GoldenPath {
    pub ordered_cards: Vec<u32>,
    pub interconnect: InterconnectType,
}

/// The generation of the chip.
#[derive(Debug, Clone, Copy, PartialEq, Eq, Structural)]
pub enum TensixArch {
    WormholeB0,
    Blackhole,
}

/// The format of the numbers of a kernel.
#[derive(Debug, Clone, Copy, PartialEq, Eq, Structural)]
pub enum DataFormat {
    Float32,
    Float16,
    BFloat16,
    Int8,
    UInt8,
    Int32,
}

/// The unit of a core that a kernel runs on.
#[derive(Debug, Clone, Copy, PartialEq, Eq, Structural)]
pub enum KernelType {
    Math,
    Unpack,
    Pack,
    Relu,
}

/// How many passes the multiplier makes.
#[derive(Debug, Clone, Copy, PartialEq, Eq, Structural)]
pub enum MathFidelity {
    LoFi,
    HiFi2,
    HiFi3,
    HiFi4,
}

/// One kernel of a program.
#[derive(Debug)]
pub struct KernelConfig {
    pub name: String,
    pub kernel_type: KernelType,
    pub math_fidelity: MathFidelity,
    pub tile_dims: (u32, u32),
    pub data_format: DataFormat,
}

/// A kernel in contracts.
#[verifier::ext_equal]
pub ghost struct KernelView {
    pub name: Seq<char>,
    pub kernel_type: KernelType,
    pub math_fidelity: MathFidelity,
    pub tile_dims: (u32, u32),
    pub data_format: DataFormat,
}

impl KernelConfig {
    pub open spec fn view(&self) -> KernelView {
        KernelView {
            name: self.name@,
            kernel_type: self.kernel_type,
            math_fidelity: self.math_fidelity,
            tile_dims: self.tile_dims,
            data_format: self.data_format,
        }
    }
}

pub open spec fn kernel_views(s: Seq<KernelConfig>) -> Seq<KernelView> {
    s.map_values(|k: KernelConfig| k@)
}

/// Where a tensor lies in the memory of the card.
#[derive(Debug)]
pub struct TensorBinding {
    pub tensor_name: String,
    pub buffer_slot: u32,
    pub byte_offset: u64,
    pub byte_size: u64,
    pub tile_shape: (u32, u32),
}

/// A binding in contracts.
#[verifier::ext_equal]
pub ghost struct BindingView {
    pub tensor_name: Seq<char>,
    pub buffer_slot: int,
    pub byte_offset: int,
    pub byte_size: int,
    pub tile_shape: (u32, u32),
}

impl TensorBinding {
    pub open spec fn view(&self) -> BindingView {
        BindingView {
            tensor_name: self.tensor_name@,
            buffer_slot: self.buffer_slot as int,
            byte_offset: self.byte_offset as int,
            byte_size: self.byte_size as int,
            tile_shape: self.tile_shape,
        }
    }
}

pub open spec fn binding_views(s: Seq<TensorBinding>) -> Seq<BindingView> {
    s.map_values(|b: TensorBinding| b@)
}

/// A compiled program.
#[derive(Debug)]
pub struct TensixComputeImage {
    pub program_hash: u64,
    pub core_count: u32,
    pub dram_bytes: u64,
    pub sram_per_core: u64,
    pub kernel_configs: Vec<KernelConfig>,
    pub tensor_bindings: Vec<TensorBinding>,
    pub estimated_cycles: u64,
    pub target_arch: TensixArch,
    pub program_spec_json: String,
    pub card_count: u32,
    pub interconnect_map: Vec<CardCoord>,
    pub golden_path: GoldenPath,
}

} // verus!
