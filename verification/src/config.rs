//! What a model configuration settles: the architecture, the tensors that an
//! execution needs, and how they are to be quantized.

use vstd::prelude::*;

use crate::text;

verus! {

/// The sizes and settings of a text model. The two real numbers are held as the
/// bit patterns of 64-bit floats.
#[derive(Debug)]
pub struct TextArchitecture {
    pub hidden_size: u32,
    pub intermediate_size: u32,
    pub num_attention_heads: u32,
    pub num_key_value_heads: u32,
    pub head_dim: u32,
    pub num_hidden_layers: u32,
    pub vocab_size: u32,
    pub sliding_window: u32,
    pub max_position_embeddings: u32,
    pub rms_norm_eps_bits: u64,
    pub tie_word_embeddings: bool,
    pub attention_k_eq_v: bool,
    pub hidden_size_per_layer_input: u32,
    pub rope_theta_bits: u64,
    pub rope_type: String,
    pub model_type: String,
}

/// A text model in contracts.
#[verifier::ext_equal]
pub struct ArchitectureView {
    pub hidden_size: u32,
    pub intermediate_size: u32,
    pub num_attention_heads: u32,
    pub num_key_value_heads: u32,
    pub head_dim: u32,
    pub num_hidden_layers: u32,
    pub vocab_size: u32,
    pub sliding_window: u32,
    pub max_position_embeddings: u32,
    pub rms_norm_eps_bits: u64,
    pub tie_word_embeddings: bool,
    pub attention_k_eq_v: bool,
    pub hidden_size_per_layer_input: u32,
    pub rope_theta_bits: u64,
    pub rope_type: Seq<char>,
    pub model_type: Seq<char>,
}

impl TextArchitecture {
    pub open spec fn view(&self) -> ArchitectureView {
        ArchitectureView {
            hidden_size: self.hidden_size,
            intermediate_size: self.intermediate_size,
            num_attention_heads: self.num_attention_heads,
            num_key_value_heads: self.num_key_value_heads,
            head_dim: self.head_dim,
            num_hidden_layers: self.num_hidden_layers,
            vocab_size: self.vocab_size,
            sliding_window: self.sliding_window,
            max_position_embeddings: self.max_position_embeddings,
            rms_norm_eps_bits: self.rms_norm_eps_bits,
            tie_word_embeddings: self.tie_word_embeddings,
            attention_k_eq_v: self.attention_k_eq_v,
            hidden_size_per_layer_input: self.hidden_size_per_layer_input,
            rope_theta_bits: self.rope_theta_bits,
            rope_type: self.rope_type@,
            model_type: self.model_type@,
        }
    }

    pub fn copy(&self) -> (r: Self)
        ensures
            r@ == self@,
    {
        TextArchitecture {
            hidden_size: self.hidden_size,
            intermediate_size: self.intermediate_size,
            num_attention_heads: self.num_attention_heads,
            num_key_value_heads: self.num_key_value_heads,
            head_dim: self.head_dim,
            num_hidden_layers: self.num_hidden_layers,
            vocab_size: self.vocab_size,
            sliding_window: self.sliding_window,
            max_position_embeddings: self.max_position_embeddings,
            rms_norm_eps_bits: self.rms_norm_eps_bits,
            tie_word_embeddings: self.tie_word_embeddings,
            attention_k_eq_v: self.attention_k_eq_v,
            hidden_size_per_layer_input: self.hidden_size_per_layer_input,
            rope_theta_bits: self.rope_theta_bits,
            rope_type: self.rope_type.clone(),
            model_type: self.model_type.clone(),
        }
    }
}

/// A compile-time quantization scheme and the number of weights that share a
/// scale.
#[derive(Debug, Clone, Copy, PartialEq, Eq, Structural)]
pub enum CompileQuantMode {
    Nf4 { group_size: u32 },
    Af8 { group_size: u32 },
    Ternary { group_size: u32 },
    TernaryTile640 { group_size: u32 },
}

impl CompileQuantMode {
    pub open spec fn group(self) -> u32 {
        match self {
            CompileQuantMode::Nf4 { group_size } => group_size,
            CompileQuantMode::Af8 { group_size } => group_size,
            CompileQuantMode::Ternary { group_size } => group_size,
            CompileQuantMode::TernaryTile640 { group_size } => group_size,
        }
    }

    /// The number of weights that share a scale.
    pub fn group_size(&self) -> (r: u32)
        ensures
            r == self.group(),
    {
        match self {
            CompileQuantMode::Nf4 { group_size } => *group_size,
            CompileQuantMode::Af8 { group_size } => *group_size,
            CompileQuantMode::Ternary { group_size } => *group_size,
            CompileQuantMode::TernaryTile640 { group_size } => *group_size,
        }
    }
}

/// The shapes of a packed linear layer.
#[derive(Debug)]
pub struct PackedLinearShapes {
    pub weight: Vec<u32>,
    pub scales: Vec<u32>,
    pub biases: Vec<u32>,
    pub bits: u32,
    pub group_size: u32,
    pub groups: u32,
}

#[verifier::ext_equal]
pub struct PackedView {
    pub weight: Seq<u32>,
    pub scales: Seq<u32>,
    pub biases: Seq<u32>,
    pub bits: u32,
    pub group_size: u32,
    pub groups: u32,
}

/// A copy of a list of dimensions.
pub fn copy_dims(v: &Vec<u32>) -> (r: Vec<u32>)
    ensures
        r@ == v@,
{
    let r: Vec<u32> = v.clone();
    assert(r@ =~= v@);
    r
}

impl PackedLinearShapes {
    pub open spec fn view(&self) -> PackedView {
        PackedView {
            weight: self.weight@,
            scales: self.scales@,
            biases: self.biases@,
            bits: self.bits,
            group_size: self.group_size,
            groups: self.groups,
        }
    }

    pub fn copy(&self) -> (r: Self)
        ensures
            r@ == self@,
    {
        PackedLinearShapes {
            weight: copy_dims(&self.weight),
            scales: copy_dims(&self.scales),
            biases: copy_dims(&self.biases),
            bits: self.bits,
            group_size: self.group_size,
            groups: self.groups,
        }
    }
}

/// A tensor that an execution needs, with the role it plays there. The packed
/// shapes are there where the weight is stored quantized.
#[derive(Debug)]
pub struct TensorBinding {
    pub name: String,
    pub role: String,
    pub logical_shape: Vec<u32>,
    pub packed_shape: Option<PackedLinearShapes>,
}

#[verifier::ext_equal]
pub struct BindingView {
    pub name: Seq<char>,
    pub role: Seq<char>,
    pub logical_shape: Seq<u32>,
    pub packed: Option<PackedView>,
}

impl TensorBinding {
    pub open spec fn view(&self) -> BindingView {
        BindingView {
            name: self.name@,
            role: self.role@,
            logical_shape: self.logical_shape@,
            packed: match self.packed_shape {
                Some(p) => Some(p@),
                None => None,
            },
        }
    }
}

/// The views of a list of bindings.
pub open spec fn binding_views(bindings: Seq<TensorBinding>) -> Seq<BindingView> {
    bindings.map_values(|b: TensorBinding| b@)
}

/// The tensors of one layer.
#[derive(Debug)]
pub struct LayerSpec {
    pub index: u32,
    pub tensors: Vec<TensorBinding>,
}

#[verifier::ext_equal]
pub struct LayerView {
    pub index: u32,
    pub tensors: Seq<BindingView>,
}

impl LayerSpec {
    pub open spec fn view(&self) -> LayerView {
        LayerView { index: self.index, tensors: binding_views(self.tensors@) }
    }
}

/// The views of a list of layers.
pub open spec fn layer_views(layers: Seq<LayerSpec>) -> Seq<LayerView> {
    layers.map_values(|l: LayerSpec| l@)
}

/// The tensors that an execution needs, those of no layer first.
#[derive(Debug)]
pub struct ExecutionSpec {
    pub global_tensors: Vec<TensorBinding>,
    pub layers: Vec<LayerSpec>,
}

#[verifier::ext_equal]
pub struct ExecutionView {
    pub global_tensors: Seq<BindingView>,
    pub layers: Seq<LayerView>,
}

impl ExecutionSpec {
    pub open spec fn view(&self) -> ExecutionView {
        ExecutionView {
            global_tensors: binding_views(self.global_tensors@),
            layers: layer_views(self.layers@),
        }
    }
}

/// Under which root the tensors of a model are named, and whether the output
/// head is the embedding table.
#[derive(Debug)]
pub struct NamespaceBinding {
    pub root: String,
    pub lm_head_aliased: bool,
}

/// What the configuration file says of the source model.
#[derive(Debug)]
pub struct ModelManifest {
    pub config_hash: String,
    pub model_type: String,
    pub quantization_bits: Option<u32>,
    pub quantization_group_size: Option<u32>,
    pub quantization_mode: Option<String>,
    pub has_vision: bool,
    pub has_audio: bool,
}

/// The class name that goes with a model type.
pub open spec fn class_name(model_type: Seq<char>) -> Seq<char> {
    if model_type == "gemma4"@ {
        "Gemma4ForCausalLM"@
    } else if model_type == "gemma"@ || model_type == "gemma2"@ {
        "GemmaForCausalLM"@
    } else {
        "LlamaForCausalLM"@
    }
}

/// The class name that goes with a model type.
pub fn architecture_name(model_type: &str) -> (r: &'static str)
    ensures
        r@ == class_name(model_type@),
{
    if text::same_text(model_type, "gemma4") {
        "Gemma4ForCausalLM"
    } else if text::same_text(model_type, "gemma") || text::same_text(model_type, "gemma2") {
        "GemmaForCausalLM"
    } else {
        "LlamaForCausalLM"
    }
}

/// The class of a model goes by its type: the fourth Gemma has one, the earlier two share
/// one, and all others have that of Llama.
pub proof fn law_class_goes_by_type(model_type: &str, r: &'static str)
    requires
        call_ensures(architecture_name, (model_type,), r),
    ensures
        model_type@ == "gemma4"@ ==> r@ == "Gemma4ForCausalLM"@,
        model_type@ == "gemma"@ || model_type@ == "gemma2"@ ==> r@ == "GemmaForCausalLM"@,
        model_type@ != "gemma4"@ && model_type@ != "gemma"@ && model_type@ != "gemma2"@ ==> r@
            == "LlamaForCausalLM"@,
{
    reveal_strlit("gemma");
    reveal_strlit("gemma2");
    reveal_strlit("gemma4");
    assert("gemma"@.len() == 5 && "gemma2"@.len() == 6 && "gemma4"@.len() == 6);
    assert("gemma2"@[5] == '2');
    assert("gemma4"@[5] == '4');
}

} // verus!
