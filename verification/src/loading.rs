//! What the layers of a quantized model learn from the dimensions of their tensors.
use crate::attention::AttentionWeights;
use crate::gguf;
use crate::gguf::{MissingTensor, TensorInfo};
use crate::graph::FloatSetting;
use crate::quantized_qwen3_5::{
    LayerKind, LayerTensorNames, MetadataSummary, QuantizedArchitecture,
};
use crate::state_space::StateSpaceWeights;
use crate::text;
use vstd::prelude::*;

verus! {

/// What the names of a layer's tensors tell about it.
pub struct LayerFacts {
    pub layer_idx: nat,
    pub kind: LayerKind,
    pub prefix: Seq<char>,
    pub q_proj: Seq<char>,
    pub o_proj: Seq<char>,
    pub q_norm: bool,
    pub k_norm: bool,
    pub q_bias: bool,
    pub k_bias: bool,
    pub v_bias: bool,
}

impl LayerTensorNames {
    pub open spec fn facts(self) -> LayerFacts {
        LayerFacts {
            layer_idx: self.layer_idx as nat,
            kind: self.kind,
            prefix: self.prefix@,
            q_proj: self.q_proj@,
            o_proj: self.o_proj@,
            q_norm: self.q_norm is Some,
            k_norm: self.k_norm is Some,
            q_bias: self.q_bias is Some,
            k_bias: self.k_bias is Some,
            v_bias: self.v_bias is Some,
        }
    }
}

/// The numbers of a model that its metadata give.
pub struct ModelNumbers {
    pub architecture: QuantizedArchitecture,
    pub heads: usize,
    pub kv_heads: usize,
    pub head_dim: usize,
    pub layers: usize,
    pub hidden_size: usize,
    pub norm_eps: FloatSetting,
}

impl MetadataSummary {
    pub open spec fn numbers(self) -> ModelNumbers {
        ModelNumbers {
            architecture: self.architecture,
            heads: self.num_attention_heads,
            kv_heads: self.num_kv_heads,
            head_dim: self.head_dim,
            layers: self.num_layers,
            hidden_size: self.hidden_size,
            norm_eps: self.rms_norm_eps,
        }
    }
}

/// Why a model cannot be loaded.
#[derive(Debug)]
pub enum LoadError {
    UnsupportedArchitecture { architecture: QuantizedArchitecture },
    /// A number of heads or layers, or a width, is missing.
    IncompleteMetadata,
    Missing { tensor: MissingTensor },
    MissingInfo { name: String },
    UnexpectedRank { name: String, expected: usize, dims: Vec<usize> },
    /// The values cannot be divided among the heads.
    ValueDim { value_dim: usize, heads: usize },
    /// The channels of the convolution do not hold two keys and a value.
    ConvDim { conv_dim: usize, value_dim: usize },
    /// The keys cannot be divided among the heads.
    KeyDim { key_dim: usize, heads: usize },
    /// The norm has another width than a head.
    HeadDim { norm: usize, derived: usize },
    /// A tensor that has to be read is not in the file.
    Absent { name: String },
    UnsupportedLayer { layer_idx: usize },
}

/// The mathematical content of a [`LoadError`].
pub enum LoadFault {
    UnsupportedArchitecture { architecture: QuantizedArchitecture },
    IncompleteMetadata,
    Missing { candidates: Seq<Seq<char>> },
    MissingInfo { name: Seq<char> },
    UnexpectedRank { name: Seq<char>, expected: nat, dims: Seq<usize> },
    ValueDim { value_dim: nat, heads: nat },
    ConvDim { conv_dim: nat, value_dim: nat },
    KeyDim { key_dim: nat, heads: nat },
    HeadDim { norm: nat, derived: nat },
    Absent { name: Seq<char> },
    UnsupportedLayer { layer_idx: nat },
}

impl View for LoadError {
    type V = LoadFault;

    open spec fn view(&self) -> LoadFault {
        match *self {
            LoadError::UnsupportedArchitecture { architecture } =>
                LoadFault::UnsupportedArchitecture { architecture },
            LoadError::IncompleteMetadata => LoadFault::IncompleteMetadata,
            LoadError::Missing { tensor } => LoadFault::Missing {
                candidates: text::views(tensor.candidates@),
            },
            LoadError::MissingInfo { name } => LoadFault::MissingInfo { name: name@ },
            LoadError::UnexpectedRank { name, expected, dims } => LoadFault::UnexpectedRank {
                name: name@,
                expected: expected as nat,
                dims: dims@,
            },
            LoadError::ValueDim { value_dim, heads } => LoadFault::ValueDim {
                value_dim: value_dim as nat,
                heads: heads as nat,
            },
            LoadError::ConvDim { conv_dim, value_dim } => LoadFault::ConvDim {
                conv_dim: conv_dim as nat,
                value_dim: value_dim as nat,
            },
            LoadError::KeyDim { key_dim, heads } => LoadFault::KeyDim {
                key_dim: key_dim as nat,
                heads: heads as nat,
            },
            LoadError::HeadDim { norm, derived } => LoadFault::HeadDim {
                norm: norm as nat,
                derived: derived as nat,
            },
            LoadError::Absent { name } => LoadFault::Absent { name: name@ },
            LoadError::UnsupportedLayer { layer_idx } => LoadFault::UnsupportedLayer {
                layer_idx: layer_idx as nat,
            },
        }
    }
}

/// Why a tensor does not have `rank` dimensions.
pub open spec fn rank_fault(tensors: Seq<TensorInfo>, name: Seq<char>, rank: nat) -> Option<
    LoadFault,
> {
    match gguf::dims_of(tensors, name) {
        Some(dims) => if dims.len() == rank {
            None
        } else {
            Some(LoadFault::UnexpectedRank { name, expected: rank, dims })
        },
        None => Some(LoadFault::MissingInfo { name }),
    }
}

/// The dimensions of a tensor that has `rank` of them.
fn dims_of_rank<'a>(tensors: &'a Vec<TensorInfo>, name: &str, rank: usize) -> (r: Result<
    &'a Vec<usize>,
    LoadError,
>)
    ensures
        match rank_fault(tensors@, name@, rank as nat) {
            Some(fault) => r matches Err(e) && e@ == fault,
            None => r matches Ok(dims) && Some(dims@) == gguf::dims_of(tensors@, name@)
                && dims@.len() == rank,
        },
{
    match gguf::tensor_dims(tensors, name) {
        Some(dims) => if dims.len() == rank {
            Ok(dims)
        } else {
            let mut copy: Vec<usize> = Vec::new();
            copy.extend_from_slice(dims.as_slice());
            assert(copy@ =~= dims@);
            let error = LoadError::UnexpectedRank {
                name: name.to_owned(),
                expected: rank,
                dims: copy,
            };
            Err(error)
        },
        None => Err(LoadError::MissingInfo { name: name.to_owned() }),
    }
}

/// A dimension of a tensor.
pub open spec fn dim(tensors: Seq<TensorInfo>, name: Seq<char>, i: int) -> usize {
    (gguf::dims_of(tensors, name)->0)[i]
}

impl AttentionWeights {
    /// An attention layer, with nothing cached. The query projection must be a matrix; its rows
    /// tell whether it holds a gate.
    pub fn new(
        tensors: &Vec<TensorInfo>,
        names: &LayerTensorNames,
        summary: &MetadataSummary,
    ) -> (r: Result<AttentionWeights, LoadError>)
        requires
            rank_fault(tensors@, names.q_proj@, 2) is None ==> summary.num_kv_heads != 0,
        ensures
            match rank_fault(tensors@, names.q_proj@, 2) {
                Some(fault) => r matches Err(e) && e@ == fault,
                None => r == Ok::<AttentionWeights, LoadError>(
                    attention_of(tensors@, names.facts(), summary.numbers()),
                ),
            },
    {
        let q_out_dim: usize = match dims_of_rank(tensors, names.q_proj.as_str(), 2) {
            Ok(dims) => dims[0],
            Err(error) => return Err(error),
        };
        Ok(
            AttentionWeights {
                num_heads: summary.num_attention_heads,
                num_kv_heads: summary.num_kv_heads,
                num_kv_groups: summary.num_attention_heads / summary.num_kv_heads,
                head_dim: summary.head_dim,
                q_out_dim,
                q_norm: names.q_norm.is_some(),
                k_norm: names.k_norm.is_some(),
                q_bias: names.q_bias.is_some(),
                k_bias: names.k_bias.is_some(),
                v_bias: names.v_bias.is_some(),
                norm_eps: summary.rms_norm_eps,
                cached: false,
            },
        )
    }
}

/// The attention layer with the given tensors.
pub open spec fn attention_of(
    tensors: Seq<TensorInfo>,
    names: LayerFacts,
    numbers: ModelNumbers,
) -> AttentionWeights {
    AttentionWeights {
        num_heads: numbers.heads,
        num_kv_heads: numbers.kv_heads,
        num_kv_groups: numbers.heads / numbers.kv_heads,
        head_dim: numbers.head_dim,
        q_out_dim: dim(tensors, names.q_proj, 0),
        q_norm: names.q_norm,
        k_norm: names.k_norm,
        q_bias: names.q_bias,
        k_bias: names.k_bias,
        v_bias: names.v_bias,
        norm_eps: numbers.norm_eps,
        cached: false,
    }
}

/// Why the tensors of a recurrent layer do not have the ranks that it needs.
pub open spec fn state_space_rank_fault(tensors: Seq<TensorInfo>, names: LayerFacts) -> Option<
    LoadFault,
> {
    let p = names.prefix;
    if rank_fault(tensors, names.q_proj, 2) is Some {
        rank_fault(tensors, names.q_proj, 2)
    } else if rank_fault(tensors, names.o_proj, 2) is Some {
        rank_fault(tensors, names.o_proj, 2)
    } else if rank_fault(tensors, p + ".ssm_alpha.weight"@, 2) is Some {
        rank_fault(tensors, p + ".ssm_alpha.weight"@, 2)
    } else if rank_fault(tensors, p + ".ssm_conv1d.weight"@, 2) is Some {
        rank_fault(tensors, p + ".ssm_conv1d.weight"@, 2)
    } else {
        rank_fault(tensors, p + ".ssm_norm.weight"@, 1)
    }
}

/// The number of heads of a recurrent layer: the rows of its decay projection.
pub open spec fn state_space_heads(tensors: Seq<TensorInfo>, names: LayerFacts) -> usize {
    dim(tensors, names.prefix + ".ssm_alpha.weight"@, 0)
}

/// A recurrent layer whose tensors have the right ranks, but that has no heads.
pub open spec fn headless(tensors: Seq<TensorInfo>, names: LayerFacts) -> bool {
    state_space_rank_fault(tensors, names) is None && state_space_heads(tensors, names) == 0
}

/// Why dimensions do not belong to one recurrent layer.
pub open spec fn division_fault(conv_dim: nat, value_dim: nat, heads: nat, norm: nat) -> Option<
    LoadFault,
> {
    let key_dim = ((conv_dim - value_dim) / 2) as nat;
    if value_dim % heads != 0 {
        Some(LoadFault::ValueDim { value_dim, heads })
    } else if conv_dim < value_dim || (conv_dim - value_dim) % 2 != 0 {
        Some(LoadFault::ConvDim { conv_dim, value_dim })
    } else if key_dim % heads != 0 {
        Some(LoadFault::KeyDim { key_dim, heads })
    } else if norm != value_dim / heads {
        Some(LoadFault::HeadDim { norm, derived: value_dim / heads })
    } else {
        None
    }
}

/// Which of the tensors that are read whatever their dimensions is not in the file.
pub open spec fn absence_fault(tensors: Seq<TensorInfo>, prefix: Seq<char>) -> Option<LoadFault> {
    if gguf::dims_of(tensors, prefix + ".ssm_beta.weight"@) is None {
        Some(LoadFault::Absent { name: prefix + ".ssm_beta.weight"@ })
    } else if gguf::dims_of(tensors, prefix + ".ssm_dt.bias"@) is None {
        Some(LoadFault::Absent { name: prefix + ".ssm_dt.bias"@ })
    } else if gguf::dims_of(tensors, prefix + ".ssm_a"@) is None {
        Some(LoadFault::Absent { name: prefix + ".ssm_a"@ })
    } else if gguf::dims_of(tensors, prefix + ".ssm_out.weight"@) is None {
        Some(LoadFault::Absent { name: prefix + ".ssm_out.weight"@ })
    } else {
        None
    }
}

/// Looks for a tensor of the layer with the given prefix.
fn present(tensors: &Vec<TensorInfo>, prefix: &str, suffix: &str) -> (r: Result<(), LoadError>)
    ensures
        match gguf::dims_of(tensors@, prefix@ + suffix@) {
            Some(_) => r is Ok,
            None => r matches Err(e) && e@ == (LoadFault::Absent { name: prefix@ + suffix@ }),
        },
{
    let name = text::concat(prefix, suffix);
    match gguf::tensor_dims(tensors, name.as_str()) {
        Some(_) => Ok(()),
        None => Err(LoadError::Absent { name }),
    }
}

/// Looks for the tensors that are read whatever their dimensions.
fn all_present(tensors: &Vec<TensorInfo>, prefix: &str) -> (r: Result<(), LoadError>)
    ensures
        match absence_fault(tensors@, prefix@) {
            Some(fault) => r matches Err(e) && e@ == fault,
            None => r is Ok,
        },
{
    match present(tensors, prefix, ".ssm_beta.weight") {
        Ok(()) => {},
        Err(error) => return Err(error),
    }
    match present(tensors, prefix, ".ssm_dt.bias") {
        Ok(()) => {},
        Err(error) => return Err(error),
    }
    match present(tensors, prefix, ".ssm_a") {
        Ok(()) => {},
        Err(error) => return Err(error),
    }
    present(tensors, prefix, ".ssm_out.weight")
}

/// Why a recurrent layer cannot be loaded.
pub open spec fn state_space_fault(tensors: Seq<TensorInfo>, names: LayerFacts) -> Option<
    LoadFault,
> {
    match state_space_rank_fault(tensors, names) {
        Some(fault) => Some(fault),
        None => match division_fault(
            dim(tensors, names.q_proj, 0) as nat,
            dim(tensors, names.o_proj, 0) as nat,
            state_space_heads(tensors, names) as nat,
            dim(tensors, names.prefix + ".ssm_norm.weight"@, 0) as nat,
        ) {
            Some(fault) => Some(fault),
            None => absence_fault(tensors, names.prefix),
        },
    }
}

/// The recurrent layer with the given tensors.
pub open spec fn state_space_of(
    tensors: Seq<TensorInfo>,
    names: LayerFacts,
    numbers: ModelNumbers,
) -> StateSpaceWeights {
    let conv_dim = dim(tensors, names.q_proj, 0);
    let value_dim = dim(tensors, names.o_proj, 0);
    let heads = state_space_heads(tensors, names);
    let key_dim = ((conv_dim - value_dim) / 2) as usize;
    StateSpaceWeights {
        num_v_heads: heads,
        num_k_heads: heads,
        head_k_dim: key_dim / heads,
        head_v_dim: value_dim / heads,
        key_dim,
        value_dim,
        conv_kernel_size: dim(tensors, names.prefix + ".ssm_conv1d.weight"@, 1),
        conv_dim,
        norm_eps: numbers.norm_eps,
        primed: false,
    }
}

/// A number without remainder is the product of divisor and quotient.
proof fn lemma_exact(n: nat, d: nat)
    requires
        d > 0,
        n % d == 0,
    ensures
        n == d * (n / d),
{
    vstd::arithmetic::div_mod::lemma_fundamental_div_mod(n as int, d as int);
}

impl StateSpaceWeights {
    /// A recurrent layer, with no states. The heads share its channels evenly: as many keys as
    /// queries, and a value for each head.
    pub fn new(
        tensors: &Vec<TensorInfo>,
        names: &LayerTensorNames,
        summary: &MetadataSummary,
    ) -> (r: Result<StateSpaceWeights, LoadError>)
        requires
            !headless(tensors@, names.facts()),
        ensures
            match state_space_fault(tensors@, names.facts()) {
                Some(fault) => r matches Err(e) && e@ == fault,
                None => r == Ok::<StateSpaceWeights, LoadError>(
                    state_space_of(tensors@, names.facts(), summary.numbers()),
                ) && state_space_of(tensors@, names.facts(), summary.numbers()).well_formed(),
            },
    {
        let prefix = names.prefix.as_str();
        let conv_dim: usize = match dims_of_rank(tensors, names.q_proj.as_str(), 2) {
            Ok(dims) => dims[0],
            Err(error) => return Err(error),
        };
        let value_dim: usize = match dims_of_rank(tensors, names.o_proj.as_str(), 2) {
            Ok(dims) => dims[0],
            Err(error) => return Err(error),
        };
        let alpha = text::concat(prefix, ".ssm_alpha.weight");
        let heads: usize = match dims_of_rank(tensors, alpha.as_str(), 2) {
            Ok(dims) => dims[0],
            Err(error) => return Err(error),
        };
        let conv = text::concat(prefix, ".ssm_conv1d.weight");
        let conv_kernel_size: usize = match dims_of_rank(tensors, conv.as_str(), 2) {
            Ok(dims) => dims[1],
            Err(error) => return Err(error),
        };
        let norm_name = text::concat(prefix, ".ssm_norm.weight");
        let norm: usize = match dims_of_rank(tensors, norm_name.as_str(), 1) {
            Ok(dims) => dims[0],
            Err(error) => return Err(error),
        };
        if value_dim % heads != 0 {
            return Err(LoadError::ValueDim { value_dim, heads });
        }
        if conv_dim < value_dim || (conv_dim - value_dim) % 2 != 0 {
            return Err(LoadError::ConvDim { conv_dim, value_dim });
        }
        let key_dim: usize = (conv_dim - value_dim) / 2;
        if key_dim % heads != 0 {
            return Err(LoadError::KeyDim { key_dim, heads });
        }
        let derived: usize = value_dim / heads;
        if norm != derived {
            return Err(LoadError::HeadDim { norm, derived });
        }
        match all_present(tensors, prefix) {
            Ok(()) => {},
            Err(error) => return Err(error),
        }
        proof {
            lemma_exact(value_dim as nat, heads as nat);
            lemma_exact(key_dim as nat, heads as nat);
        }
        Ok(
            StateSpaceWeights {
                num_v_heads: heads,
                num_k_heads: heads,
                head_k_dim: key_dim / heads,
                head_v_dim: norm,
                key_dim,
                value_dim,
                conv_kernel_size,
                conv_dim,
                norm_eps: summary.rms_norm_eps,
                primed: false,
            },
        )
    }
}

/// A layer of either kind.
#[derive(Debug, Clone, Copy, PartialEq, Eq, Structural)]
pub enum LayerWeights {
    FullAttention(AttentionWeights),
    StateSpace(StateSpaceWeights),
}

/// Why a layer cannot be loaded.
pub open spec fn layer_fault(tensors: Seq<TensorInfo>, names: LayerFacts) -> Option<LoadFault> {
    match names.kind {
        LayerKind::FullAttention => rank_fault(tensors, names.q_proj, 2),
        LayerKind::StateSpace => state_space_fault(tensors, names),
        LayerKind::Unknown => Some(
            LoadFault::UnsupportedLayer { layer_idx: names.layer_idx },
        ),
    }
}

/// Loading a layer divides by no number of heads that is zero.
pub open spec fn divisible(tensors: Seq<TensorInfo>, names: LayerFacts, kv_heads: nat) -> bool {
    match names.kind {
        LayerKind::FullAttention => rank_fault(tensors, names.q_proj, 2) is None ==> kv_heads != 0,
        LayerKind::StateSpace => !headless(tensors, names),
        LayerKind::Unknown => true,
    }
}

/// Whether a recurrent layer whose tensors have the right ranks has no heads.
pub fn is_headless(tensors: &Vec<TensorInfo>, names: &LayerTensorNames) -> (r: bool)
    ensures
        r == headless(tensors@, names.facts()),
{
    let prefix = names.prefix.as_str();
    let alpha = text::concat(prefix, ".ssm_alpha.weight");
    let conv = text::concat(prefix, ".ssm_conv1d.weight");
    let norm = text::concat(prefix, ".ssm_norm.weight");
    if dims_of_rank(tensors, names.q_proj.as_str(), 2).is_err() || dims_of_rank(
        tensors,
        names.o_proj.as_str(),
        2,
    ).is_err() || dims_of_rank(tensors, conv.as_str(), 2).is_err() || dims_of_rank(
        tensors,
        norm.as_str(),
        1,
    ).is_err() {
        return false;
    }
    match dims_of_rank(tensors, alpha.as_str(), 2) {
        Ok(dims) => dims[0] == 0,
        Err(_) => false,
    }
}

/// The layer with the given tensors.
pub open spec fn layer_of(
    tensors: Seq<TensorInfo>,
    names: LayerFacts,
    numbers: ModelNumbers,
) -> LayerWeights {
    if names.kind == LayerKind::FullAttention {
        LayerWeights::FullAttention(attention_of(tensors, names, numbers))
    } else {
        LayerWeights::StateSpace(state_space_of(tensors, names, numbers))
    }
}

impl LayerWeights {
    /// The dimensions of the layer belong together.
    pub open spec fn well_formed(self) -> bool {
        match self {
            LayerWeights::FullAttention(_) => true,
            LayerWeights::StateSpace(w) => w.well_formed(),
        }
    }

    /// A layer, with nothing cached.
    pub fn new(
        tensors: &Vec<TensorInfo>,
        names: &LayerTensorNames,
        summary: &MetadataSummary,
    ) -> (r: Result<LayerWeights, LoadError>)
        requires
            divisible(tensors@, names.facts(), summary.num_kv_heads as nat),
        ensures
            match layer_fault(tensors@, names.facts()) {
                Some(fault) => r matches Err(e) && e@ == fault,
                None => r == Ok::<LayerWeights, LoadError>(layer_of(tensors@, names.facts(), summary.numbers()))
                    && layer_of(tensors@, names.facts(), summary.numbers()).well_formed(),
            },
    {
        match names.kind {
            LayerKind::FullAttention => match AttentionWeights::new(tensors, names, summary) {
                Ok(weights) => Ok(LayerWeights::FullAttention(weights)),
                Err(error) => Err(error),
            },
            LayerKind::StateSpace => match StateSpaceWeights::new(tensors, names, summary) {
                Ok(weights) => Ok(LayerWeights::StateSpace(weights)),
                Err(error) => Err(error),
            },
            LayerKind::Unknown => Err(LoadError::UnsupportedLayer { layer_idx: names.layer_idx }),
        }
    }
}

/// The decimal notations of dimensions.
pub open spec fn dim_texts(dims: Seq<usize>) -> Seq<Seq<char>> {
    Seq::new(dims.len(), |i: int| text::decimal(dims[i] as nat))
}

/// The name of an architecture.
pub open spec fn architecture_name(architecture: QuantizedArchitecture) -> Seq<char> {
    match architecture {
        QuantizedArchitecture::Qwen3 => "Qwen3"@,
        QuantizedArchitecture::Qwen3_5 => "Qwen3_5"@,
        QuantizedArchitecture::Unknown => "Unknown"@,
    }
}

/// A fault in words.
pub open spec fn fault_message(fault: LoadFault) -> Seq<char> {
    match fault {
        LoadFault::UnsupportedArchitecture { architecture } =>
            "quantized_qwen3_5 received unsupported architecture "@ + architecture_name(
                architecture,
            ),
        LoadFault::IncompleteMetadata => "incomplete qwen3.5 gguf metadata"@,
        LoadFault::Missing { candidates } => "missing tensor; tried candidates: "@ + text::joined(
            candidates,
            ", "@,
        ),
        LoadFault::MissingInfo { name } => "missing tensor info for "@ + name,
        LoadFault::UnexpectedRank { name, expected, dims } => "unexpected rank, expected: "@
            + text::decimal(expected) + ", got: "@ + text::decimal(dims.len()) + " (["@
            + text::joined(dim_texts(dims), ", "@) + "])"@,
        LoadFault::ValueDim { value_dim, heads } => "invalid qwen3.5 state-space value_dim "@
            + text::decimal(value_dim) + " for "@ + text::decimal(heads) + " heads"@,
        LoadFault::ConvDim { conv_dim, value_dim } => "invalid qwen3.5 state-space conv_dim "@
            + text::decimal(conv_dim) + " and value_dim "@ + text::decimal(value_dim),
        LoadFault::KeyDim { key_dim, heads } => "invalid qwen3.5 state-space key_dim "@
            + text::decimal(key_dim) + " for "@ + text::decimal(heads) + " heads"@,
        LoadFault::HeadDim { norm, derived } =>
            "qwen3.5 state-space head_v_dim mismatch: norm="@ + text::decimal(norm)
            + ", derived="@ + text::decimal(derived),
        LoadFault::Absent { name } => "cannot find tensor info for "@ + name,
        LoadFault::UnsupportedLayer { layer_idx } => "layer "@ + text::decimal(layer_idx)
            + " uses unsupported quantized qwen3.5 layout (Unknown)"@,
    }
}

/// A text with a number in it.
fn numbered(before: &str, n: usize, after: &str) -> (r: String)
    ensures
        r@ == before@ + text::decimal(n as nat) + after@,
{
    let mut r = before.to_owned();
    text::push_decimal(&mut r, n as u64);
    r.append(after);
    r
}

fn dims_in_words(dims: &Vec<usize>) -> (r: Vec<String>)
    ensures
        text::views(r@) == dim_texts(dims@),
{
    let mut r: Vec<String> = Vec::new();
    let mut i: usize = 0;
    while i < dims.len()
        invariant
            0 <= i <= dims@.len(),
            r@.len() == i,
            forall|k: int| 0 <= k < i ==> (#[trigger] r@[k])@ == text::decimal(dims@[k] as nat),
        decreases dims@.len() - i,
    {
        r.push(text::decimal_text(dims[i] as u64));
        i = i + 1;
    }
    assert(text::views(r@) =~= dim_texts(dims@));
    r
}

/// What is said of incomplete metadata, with `summary` telling what they hold.
pub fn incomplete_metadata(summary: &str) -> (r: String)
    ensures
        r@ == fault_message(LoadFault::IncompleteMetadata) + ": "@ + summary@,
{
    let mut r = "incomplete qwen3.5 gguf metadata".to_owned();
    r.append(": ");
    r.append(summary);
    r
}

impl LoadError {
    /// The error in words. What the metadata hold is left to [`incomplete_metadata`].
    pub fn message(&self) -> (r: String)
        ensures
            r@ == fault_message(self@),
    {
        match self {
            LoadError::UnsupportedArchitecture { architecture } => {
                let name = match architecture {
                    QuantizedArchitecture::Qwen3 => "Qwen3",
                    QuantizedArchitecture::Qwen3_5 => "Qwen3_5",
                    QuantizedArchitecture::Unknown => "Unknown",
                };
                text::concat("quantized_qwen3_5 received unsupported architecture ", name)
            },
            LoadError::IncompleteMetadata => "incomplete qwen3.5 gguf metadata".to_owned(),
            LoadError::Missing { tensor } => tensor.message(),
            LoadError::MissingInfo { name } => text::concat(
                "missing tensor info for ",
                name.as_str(),
            ),
            LoadError::UnexpectedRank { expected, dims, .. } => {
                let mut r = numbered("unexpected rank, expected: ", *expected, ", got: ");
                text::push_decimal(&mut r, dims.len() as u64);
                r.append(" ([");
                let list = text::join(&dims_in_words(dims), ", ");
                r.append(list.as_str());
                r.append("])");
                r
            },
            LoadError::ValueDim { value_dim, heads } => {
                let mut r = numbered(
                    "invalid qwen3.5 state-space value_dim ",
                    *value_dim,
                    " for ",
                );
                text::push_decimal(&mut r, *heads as u64);
                r.append(" heads");
                r
            },
            LoadError::ConvDim { conv_dim, value_dim } => {
                let mut r = numbered(
                    "invalid qwen3.5 state-space conv_dim ",
                    *conv_dim,
                    " and value_dim ",
                );
                text::push_decimal(&mut r, *value_dim as u64);
                r
            },
            LoadError::KeyDim { key_dim, heads } => {
                let mut r = numbered("invalid qwen3.5 state-space key_dim ", *key_dim, " for ");
                text::push_decimal(&mut r, *heads as u64);
                r.append(" heads");
                r
            },
            LoadError::HeadDim { norm, derived } => {
                let mut r = numbered(
                    "qwen3.5 state-space head_v_dim mismatch: norm=",
                    *norm,
                    ", derived=",
                );
                text::push_decimal(&mut r, *derived as u64);
                r
            },
            LoadError::Absent { name } => text::concat(
                "cannot find tensor info for ",
                name.as_str(),
            ),
            LoadError::UnsupportedLayer { layer_idx } => numbered(
                "layer ",
                *layer_idx,
                " uses unsupported quantized qwen3.5 layout (Unknown)",
            ),
        }
    }
}

/// The dimensions of a recurrent layer belong together where every head has as many values as the
/// norm has weights, and the other channels are queries and keys, shared evenly by the heads.
pub proof fn dimensions_that_belong_together(conv_dim: nat, heads: nat, norm: nat, key: nat)
    requires
        heads > 0,
        conv_dim == heads * key + heads * key + heads * norm,
    ensures
        division_fault(conv_dim, heads * norm, heads, norm) is None,
{
    assert((heads * norm) % heads == 0 && (heads * norm) / heads == norm) by (nonlinear_arith)
        requires
            heads > 0,
    ;
    assert((heads * key) % heads == 0) by (nonlinear_arith)
        requires
            heads > 0,
    ;
    assert((conv_dim - heads * norm) / 2 == heads * key);
}

/// What is wrong with dimensions that do not belong together is what is said of them: values that
/// the heads cannot share, channels that leave no even rest for queries and keys, keys that the
/// heads cannot share, or a norm of another width. One that is said earlier rules out the others.
pub proof fn said_fault_is_there(conv_dim: nat, value_dim: nat, heads: nat, norm: nat, each: nat)
    requires
        heads > 0,
        value_dim == heads * each,
    ensures
        match division_fault(conv_dim, value_dim, heads, norm) {
            Some(LoadFault::ConvDim { conv_dim: c, value_dim: v }) => c == conv_dim && v
                == value_dim && (c < v || (c - v) % 2 == 1),
            Some(LoadFault::KeyDim { key_dim, heads: h }) => h == heads && conv_dim == value_dim + 2
                * key_dim && key_dim % heads != 0,
            Some(LoadFault::HeadDim { norm: n, derived }) => n == norm && derived == each && n
                != each && conv_dim >= value_dim,
            Some(_) => false,
            None => norm == each && conv_dim >= value_dim,
        },
{
    assert((heads * each) % heads == 0 && (heads * each) / heads == each) by (nonlinear_arith)
        requires
            heads > 0,
    ;
}

/// Values that the heads cannot share evenly are reported before anything else.
pub proof fn uneven_values_are_reported_first(
    conv_dim: nat,
    value_dim: nat,
    heads: nat,
    norm: nat,
    each: nat,
    rest: nat,
)
    requires
        0 < rest < heads,
        value_dim == heads * each + rest,
    ensures
        division_fault(conv_dim, value_dim, heads, norm) == Some(
            LoadFault::ValueDim { value_dim, heads },
        ),
{
    assert((heads * each + rest) % heads == rest) by (nonlinear_arith)
        requires
            0 < rest < heads,
    ;
}

/// A tensor has the number of dimensions that is asked for, or it is said which it has instead, or
/// that there is no such tensor.
pub proof fn ranks_are_counted(tensors: Seq<TensorInfo>, name: Seq<char>, rank: nat, i: int)
    requires
        0 <= i < tensors.len(),
        tensors[i].name@ == name,
        gguf::distinct_names(tensors),
    ensures
        rank_fault(tensors, name, rank) is None <==> tensors[i].dims@.len() == rank,
        rank_fault(tensors, name, rank) is Some ==> rank_fault(tensors, name, rank) == Some(
            LoadFault::UnexpectedRank { name, expected: rank, dims: tensors[i].dims@ },
        ),
{
    gguf::first_entry_counts(Seq::empty(), tensors, i);
}

}
