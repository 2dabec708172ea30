//! The quantized model: what its file has to hold, and how a forward pass goes.
use crate::attention;
use crate::delta;
use crate::gguf;
use crate::gguf::{Content, Entry, MetaValue, MissingTensor, TensorInfo};
use crate::graph;
use crate::graph::{Dims, FloatSetting, Node, Pairwise, Projection, SameShape, Slot};
use crate::loading;
use crate::loading::{LayerWeights, LoadError, LoadFault, ModelNumbers};
use crate::ops::{apply, causal, embed, leaf, linear, pair, reshape, rms_norm, scan_state, select};
use crate::pass::{ForwardPass, Kept, LayerPass, Step};
use crate::runtime;
use crate::runtime::DTypeKind;
use crate::shapes;
use crate::state_space;
use crate::text;
use std::rc::Rc;
use vstd::prelude::*;

verus! {

broadcast use {graph::group_shape, graph::group_closed};

#[derive(Debug, Clone, Copy, PartialEq, Eq, Structural)]
pub enum QuantizedArchitecture {
    Qwen3,
    Qwen3_5,
    Unknown,
}

#[derive(Debug, Clone, Copy, PartialEq, Eq, Structural)]
pub enum LayerKind {
    FullAttention,
    StateSpace,
    Unknown,
}

/// What the metadata of a file say of the model in it; a number that is missing is zero.
#[derive(Debug)]
pub struct MetadataSummary {
    pub architecture: QuantizedArchitecture,
    pub metadata_prefix: Option<String>,
    pub general_architecture: Option<String>,
    pub num_attention_heads: usize,
    pub num_kv_heads: usize,
    pub head_dim: usize,
    pub num_layers: usize,
    pub hidden_size: usize,
    pub max_position_embeddings: usize,
    /// One millionth by default.
    pub rms_norm_eps: FloatSetting,
    /// Ten thousand by default.
    pub rope_freq_base: FloatSetting,
}

/// The view of an optional string.
pub open spec fn view_of(s: Option<String>) -> Option<Seq<char>> {
    match s {
        Some(s) => Some(s@),
        None => None,
    }
}

/// The architecture that a file names.
pub open spec fn named_architecture(metadata: Seq<Entry>) -> Option<Seq<char>> {
    match gguf::value_of(metadata, "general.architecture"@) {
        Some(v) => v.text(),
        None => None,
    }
}

/// Whether a file gives the number of attention heads under a prefix.
pub open spec fn counts_heads(metadata: Seq<Entry>, prefix: Seq<char>) -> bool {
    gguf::value_of(metadata, prefix + ".attention.head_count"@) is Some
}

/// The prefix of the model's keys: that of a known architecture, then the architecture that the
/// file names, then any under which a number of heads stands.
pub open spec fn prefix_of(metadata: Seq<Entry>, architecture: Option<Seq<char>>) -> Option<
    Seq<char>,
> {
    if gguf::value_of(metadata, "qwen3.attention.head_count"@) is Some {
        Some("qwen3"@)
    } else if gguf::value_of(metadata, "qwen2.attention.head_count"@) is Some {
        Some("qwen2"@)
    } else if gguf::value_of(metadata, "qwen35.attention.head_count"@) is Some {
        Some("qwen35"@)
    } else if architecture is Some && counts_heads(metadata, architecture->0) {
        architecture
    } else {
        gguf::first_before(metadata, ".attention.head_count"@)
    }
}

/// The architecture that goes with a prefix.
pub open spec fn architecture_of(prefix: Option<Seq<char>>) -> QuantizedArchitecture {
    if prefix == Some("qwen3"@) {
        QuantizedArchitecture::Qwen3
    } else if prefix == Some("qwen2"@) || prefix == Some("qwen35"@) {
        QuantizedArchitecture::Qwen3_5
    } else {
        QuantizedArchitecture::Unknown
    }
}

/// The value under a prefix.
pub open spec fn prefixed(
    metadata: Seq<Entry>,
    prefix: Option<Seq<char>>,
    suffix: Seq<char>,
) -> Option<MetaValue> {
    match prefix {
        Some(p) => gguf::value_of(metadata, p + "."@ + suffix),
        None => None,
    }
}

/// The number under a prefix, zero where there is none.
pub open spec fn count_of(
    metadata: Seq<Entry>,
    prefix: Option<Seq<char>>,
    suffix: Seq<char>,
) -> usize {
    match prefixed(metadata, prefix, suffix) {
        Some(v) => match v.unsigned() {
            Some(n) => n as usize,
            None => 0,
        },
        None => 0,
    }
}

/// The floating-point setting under a prefix.
pub open spec fn float_of(
    metadata: Seq<Entry>,
    prefix: Option<Seq<char>>,
    suffix: Seq<char>,
) -> FloatSetting {
    match prefixed(metadata, prefix, suffix) {
        Some(v) => v.float(),
        None => FloatSetting::Default,
    }
}

/// The prefix of the model's keys.
pub fn detect_metadata_prefix(metadata: &Vec<Entry>, general_architecture: Option<&str>) -> (r:
    Option<String>)
    ensures
        view_of(r) == prefix_of(
            metadata@,
            match general_architecture {
                Some(a) => Some(a@),
                None => None,
            },
        ),
{
    if gguf::lookup(metadata, "qwen3.attention.head_count").is_some() {
        return Some("qwen3".to_owned());
    }
    if gguf::lookup(metadata, "qwen2.attention.head_count").is_some() {
        return Some("qwen2".to_owned());
    }
    if gguf::lookup(metadata, "qwen35.attention.head_count").is_some() {
        return Some("qwen35".to_owned());
    }
    if let Some(architecture) = general_architecture {
        let key = text::concat(architecture, ".attention.head_count");
        if gguf::lookup(metadata, key.as_str()).is_some() {
            return Some(architecture.to_owned());
        }
    }
    gguf::first_key_before(metadata, ".attention.head_count")
}

/// The value under a prefix.
pub fn metadata_value<'a>(
    metadata: &'a Vec<Entry>,
    prefix: &Option<String>,
    suffix: &str,
) -> (r: Option<&'a MetaValue>)
    ensures
        match prefixed(metadata@, view_of(*prefix), suffix@) {
            Some(v) => r matches Some(found) && *found == v,
            None => r is None,
        },
{
    match prefix {
        Some(prefix) => {
            let mut key = text::concat(prefix.as_str(), ".");
            key.append(suffix);
            gguf::lookup(metadata, key.as_str())
        },
        None => None,
    }
}

/// The number under a prefix, zero where there is none.
fn count(metadata: &Vec<Entry>, prefix: &Option<String>, suffix: &str) -> (r: usize)
    ensures
        r == count_of(metadata@, view_of(*prefix), suffix@),
{
    match metadata_value(metadata, prefix, suffix) {
        Some(value) => match value.as_u64() {
            Some(n) => n as usize,
            None => 0,
        },
        None => 0,
    }
}

/// The floating-point setting under a prefix.
fn float(metadata: &Vec<Entry>, prefix: &Option<String>, suffix: &str) -> (r: FloatSetting)
    ensures
        r == float_of(metadata@, view_of(*prefix), suffix@),
{
    match metadata_value(metadata, prefix, suffix) {
        Some(value) => value.as_f64(),
        None => FloatSetting::Default,
    }
}

impl MetadataSummary {
    /// The summary is that of the metadata.
    pub open spec fn summarises(self, metadata: Seq<Entry>) -> bool {
        let named = named_architecture(metadata);
        let prefix = prefix_of(metadata, named);
        &&& view_of(self.general_architecture) == named
        &&& view_of(self.metadata_prefix) == prefix
        &&& self.architecture == architecture_of(prefix)
        &&& self.num_attention_heads == count_of(metadata, prefix, "attention.head_count"@)
        &&& self.num_kv_heads == count_of(metadata, prefix, "attention.head_count_kv"@)
        &&& self.head_dim == count_of(metadata, prefix, "attention.key_length"@)
        &&& self.num_layers == count_of(metadata, prefix, "block_count"@)
        &&& self.hidden_size == count_of(metadata, prefix, "embedding_length"@)
        &&& self.max_position_embeddings == count_of(metadata, prefix, "context_length"@)
        &&& self.rms_norm_eps == float_of(
            metadata,
            prefix,
            "attention.layer_norm_rms_epsilon"@,
        )
        &&& self.rope_freq_base == float_of(metadata, prefix, "rope.freq_base"@)
    }

    /// The summary of a file's metadata.
    pub fn detect(metadata: &Vec<Entry>) -> (r: MetadataSummary)
        ensures
            r.summarises(metadata@),
    {
        let general_architecture = match gguf::lookup(metadata, "general.architecture") {
            Some(value) => value.as_string(),
            None => None,
        };
        let prefix = match &general_architecture {
            Some(architecture) => detect_metadata_prefix(metadata, Some(architecture.as_str())),
            None => detect_metadata_prefix(metadata, None),
        };
        let architecture = match &prefix {
            Some(prefix) => {
                if text::same_text(prefix.as_str(), "qwen3") {
                    QuantizedArchitecture::Qwen3
                } else if text::same_text(prefix.as_str(), "qwen2") || text::same_text(
                    prefix.as_str(),
                    "qwen35",
                ) {
                    QuantizedArchitecture::Qwen3_5
                } else {
                    QuantizedArchitecture::Unknown
                }
            },
            None => QuantizedArchitecture::Unknown,
        };
        MetadataSummary {
            architecture,
            num_attention_heads: count(metadata, &prefix, "attention.head_count"),
            num_kv_heads: count(metadata, &prefix, "attention.head_count_kv"),
            head_dim: count(metadata, &prefix, "attention.key_length"),
            num_layers: count(metadata, &prefix, "block_count"),
            hidden_size: count(metadata, &prefix, "embedding_length"),
            max_position_embeddings: count(metadata, &prefix, "context_length"),
            rms_norm_eps: float(metadata, &prefix, "attention.layer_norm_rms_epsilon"),
            rope_freq_base: float(metadata, &prefix, "rope.freq_base"),
            metadata_prefix: prefix,
            general_architecture,
        }
    }
}

/// The names of the tensors of a model.
#[derive(Debug)]
pub struct TensorNameMap {
    pub token_embeddings: String,
    pub output_norm: String,
    pub output: String,
    pub layers: Vec<LayerTensorNames>,
}

/// The names of the tensors of a layer.
#[derive(Debug)]
pub struct LayerTensorNames {
    pub layer_idx: usize,
    pub kind: LayerKind,
    pub prefix: String,
    pub attn_norm: String,
    pub ffn_norm: String,
    pub q_proj: String,
    pub k_proj: String,
    pub v_proj: String,
    pub o_proj: String,
    pub q_norm: Option<String>,
    pub k_norm: Option<String>,
    pub q_bias: Option<String>,
    pub k_bias: Option<String>,
    pub v_bias: Option<String>,
    pub ffn_gate: String,
    pub ffn_up: String,
    pub ffn_down: String,
}

/// The prefix of a layer's names.
pub open spec fn layer_prefix(layer: nat) -> Seq<char> {
    "blk."@ + text::decimal(layer)
}

/// One candidate.
pub open spec fn one(prefix: Seq<char>, a: Seq<char>) -> Seq<Seq<char>> {
    seq![prefix + a]
}

/// Two candidates, the first preferred.
pub open spec fn either(prefix: Seq<char>, a: Seq<char>, b: Seq<char>) -> Seq<Seq<char>> {
    seq![prefix + a, prefix + b]
}

/// The candidates for the tensors that every layer has.
pub open spec fn layer_candidates(p: Seq<char>) -> Seq<Seq<Seq<char>>> {
    seq![
        one(p, ".attn_norm.weight"@),
        either(p, ".ffn_norm.weight"@, ".post_attention_norm.weight"@),
        either(p, ".attn_q.weight"@, ".attn_qkv.weight"@),
        either(p, ".attn_k.weight"@, ".attn_qkv.weight"@),
        either(p, ".attn_v.weight"@, ".attn_qkv.weight"@),
        either(p, ".attn_output.weight"@, ".attn_gate.weight"@),
        one(p, ".ffn_gate.weight"@),
        one(p, ".ffn_up.weight"@),
        one(p, ".ffn_down.weight"@),
    ]
}

/// The first list none of whose candidates names a tensor.
pub open spec fn first_missing(tensors: Seq<TensorInfo>, lists: Seq<Seq<Seq<char>>>) -> Option<
    Seq<Seq<char>>,
>
    decreases lists.len(),
{
    if lists.len() == 0 {
        None
    } else if gguf::first_existing(tensors, lists[0]) is None {
        Some(lists[0])
    } else {
        first_missing(tensors, lists.drop_first())
    }
}

/// The kind of a layer: by the query projection that it has.
pub open spec fn layer_kind(tensors: Seq<TensorInfo>, prefix: Seq<char>) -> LayerKind {
    if gguf::dims_of(tensors, prefix + ".attn_q.weight"@) is Some {
        LayerKind::FullAttention
    } else if gguf::dims_of(tensors, prefix + ".attn_qkv.weight"@) is Some {
        LayerKind::StateSpace
    } else {
        LayerKind::Unknown
    }
}

/// A list that is not missing, and none before it, is followed by the rest.
proof fn lemma_first_missing(
    tensors: Seq<TensorInfo>,
    lists: Seq<Seq<Seq<char>>>,
    i: int,
)
    requires
        0 <= i < lists.len(),
        forall|j: int|
            0 <= j < i ==> gguf::first_existing(tensors, #[trigger] lists[j]) is Some,
    ensures
        first_missing(tensors, lists) == first_missing(tensors, lists.skip(i)),
        gguf::first_existing(tensors, lists[i]) is None ==> first_missing(tensors, lists) == Some(
            lists[i],
        ),
        gguf::first_existing(tensors, lists[i]) is Some && i + 1 == lists.len()
            ==> first_missing(tensors, lists) is None,
    decreases i,
{
    reveal_with_fuel(first_missing, 2);
    if i == 0 {
        assert(lists.skip(0) =~= lists);
    } else {
        lemma_first_missing(tensors, lists, i - 1);
        assert(lists.skip(i - 1).drop_first() =~= lists.skip(i));
        assert(lists.skip(i - 1)[0] == lists[i - 1]);
    }
    assert(lists.skip(i)[0] == lists[i]);
    if i + 1 == lists.len() {
        assert(lists.skip(i).drop_first() =~= Seq::empty());
    }
}

fn one_name(prefix: &str, a: &str) -> (r: Vec<String>)
    ensures
        text::views(r@) == one(prefix@, a@),
{
    let mut r: Vec<String> = Vec::new();
    r.push(text::concat(prefix, a));
    assert(text::views(r@) =~= one(prefix@, a@));
    r
}

fn either_name(prefix: &str, a: &str, b: &str) -> (r: Vec<String>)
    ensures
        text::views(r@) == either(prefix@, a@, b@),
{
    let mut r: Vec<String> = Vec::new();
    r.push(text::concat(prefix, a));
    r.push(text::concat(prefix, b));
    assert(text::views(r@) =~= either(prefix@, a@, b@));
    r
}

/// The name of a tensor that a layer may have.
fn optional_name(tensors: &Vec<TensorInfo>, prefix: &str, a: &str) -> (r: Option<String>)
    ensures
        view_of(r) == gguf::first_existing(tensors@, one(prefix@, a@)),
{
    gguf::first_existing_tensor(tensors, &one_name(prefix, a))
}

impl LayerTensorNames {
    /// The names of the tensors that every layer has.
    pub open spec fn required_names(self) -> Seq<Seq<char>> {
        seq![
            self.attn_norm@,
            self.ffn_norm@,
            self.q_proj@,
            self.k_proj@,
            self.v_proj@,
            self.o_proj@,
            self.ffn_gate@,
            self.ffn_up@,
            self.ffn_down@,
        ]
    }

    /// The names are those of a layer: of the tensors that every layer has the first candidate
    /// that exists, of the others the one candidate if it exists.
    pub open spec fn names(self, tensors: Seq<TensorInfo>, layer: nat) -> bool {
        let p = layer_prefix(layer);
        let lists = layer_candidates(p);
        &&& self.layer_idx == layer
        &&& self.prefix@ == p
        &&& self.kind == layer_kind(tensors, p)
        &&& forall|i: int|
            0 <= i < lists.len() ==> gguf::first_existing(tensors, #[trigger] lists[i]) == Some(
                self.required_names()[i],
            )
        &&& view_of(self.q_norm) == gguf::first_existing(tensors, one(p, ".attn_q_norm.weight"@))
        &&& view_of(self.k_norm) == gguf::first_existing(tensors, one(p, ".attn_k_norm.weight"@))
        &&& view_of(self.q_bias) == gguf::first_existing(tensors, one(p, ".attn_q.bias"@))
        &&& view_of(self.k_bias) == gguf::first_existing(tensors, one(p, ".attn_k.bias"@))
        &&& view_of(self.v_bias) == gguf::first_existing(tensors, one(p, ".attn_v.bias"@))
    }

    /// The names of a layer's tensors, or the first of its lists of candidates that has none.
    pub fn detect(tensors: &Vec<TensorInfo>, layer_idx: usize) -> (r: Result<
        LayerTensorNames,
        MissingTensor,
    >)
        ensures
            match first_missing(tensors@, layer_candidates(layer_prefix(layer_idx as nat))) {
                None => r matches Ok(l) && l.names(tensors@, layer_idx as nat),
                Some(list) => r matches Err(e) && text::views(e.candidates@) == list,
            },
    {
        let prefix_text = text::concat("blk.", text::decimal_text(layer_idx as u64).as_str());
        let prefix = prefix_text.as_str();
        let ghost lists = layer_candidates(prefix@);
        let attn_q = text::concat(prefix, ".attn_q.weight");
        let attn_qkv = text::concat(prefix, ".attn_qkv.weight");
        let kind = if gguf::tensor_dims(tensors, attn_q.as_str()).is_some() {
            LayerKind::FullAttention
        } else if gguf::tensor_dims(tensors, attn_qkv.as_str()).is_some() {
            LayerKind::StateSpace
        } else {
            LayerKind::Unknown
        };
        proof {
            lemma_first_missing(tensors@, lists, 0);
        }
        let attn_norm = match gguf::require_tensor(
            tensors,
            one_name(prefix, ".attn_norm.weight"),
        ) {
            Ok(name) => name,
            Err(missing) => return Err(missing),
        };
        proof {
            lemma_first_missing(tensors@, lists, 1);
        }
        let ffn_norm = match gguf::require_tensor(
            tensors,
            either_name(prefix, ".ffn_norm.weight", ".post_attention_norm.weight"),
        ) {
            Ok(name) => name,
            Err(missing) => return Err(missing),
        };
        proof {
            lemma_first_missing(tensors@, lists, 2);
        }
        let q_proj = match gguf::require_tensor(
            tensors,
            either_name(prefix, ".attn_q.weight", ".attn_qkv.weight"),
        ) {
            Ok(name) => name,
            Err(missing) => return Err(missing),
        };
        proof {
            lemma_first_missing(tensors@, lists, 3);
        }
        let k_proj = match gguf::require_tensor(
            tensors,
            either_name(prefix, ".attn_k.weight", ".attn_qkv.weight"),
        ) {
            Ok(name) => name,
            Err(missing) => return Err(missing),
        };
        proof {
            lemma_first_missing(tensors@, lists, 4);
        }
        let v_proj = match gguf::require_tensor(
            tensors,
            either_name(prefix, ".attn_v.weight", ".attn_qkv.weight"),
        ) {
            Ok(name) => name,
            Err(missing) => return Err(missing),
        };
        proof {
            lemma_first_missing(tensors@, lists, 5);
        }
        let o_proj = match gguf::require_tensor(
            tensors,
            either_name(prefix, ".attn_output.weight", ".attn_gate.weight"),
        ) {
            Ok(name) => name,
            Err(missing) => return Err(missing),
        };
        proof {
            lemma_first_missing(tensors@, lists, 6);
        }
        let ffn_gate = match gguf::require_tensor(tensors, one_name(prefix, ".ffn_gate.weight")) {
            Ok(name) => name,
            Err(missing) => return Err(missing),
        };
        proof {
            lemma_first_missing(tensors@, lists, 7);
        }
        let ffn_up = match gguf::require_tensor(tensors, one_name(prefix, ".ffn_up.weight")) {
            Ok(name) => name,
            Err(missing) => return Err(missing),
        };
        proof {
            lemma_first_missing(tensors@, lists, 8);
        }
        let ffn_down = match gguf::require_tensor(tensors, one_name(prefix, ".ffn_down.weight")) {
            Ok(name) => name,
            Err(missing) => return Err(missing),
        };
        Ok(
            LayerTensorNames {
                layer_idx,
                kind,
                attn_norm,
                ffn_norm,
                q_proj,
                k_proj,
                v_proj,
                o_proj,
                q_norm: optional_name(tensors, prefix, ".attn_q_norm.weight"),
                k_norm: optional_name(tensors, prefix, ".attn_k_norm.weight"),
                q_bias: optional_name(tensors, prefix, ".attn_q.bias"),
                k_bias: optional_name(tensors, prefix, ".attn_k.bias"),
                v_bias: optional_name(tensors, prefix, ".attn_v.bias"),
                ffn_gate,
                ffn_up,
                ffn_down,
                prefix: prefix.to_owned(),
            },
        )
    }
}

/// The first list of candidates of the layers from `layer` to `layers` that has none.
pub open spec fn missing_in_layers(tensors: Seq<TensorInfo>, layer: nat, layers: nat) -> Option<
    Seq<Seq<char>>,
>
    decreases layers - layer,
{
    if layer >= layers {
        None
    } else {
        match first_missing(tensors, layer_candidates(layer_prefix(layer))) {
            Some(list) => Some(list),
            None => missing_in_layers(tensors, layer + 1, layers),
        }
    }
}

/// The first list of candidates of a model that has none.
pub open spec fn missing_in_model(tensors: Seq<TensorInfo>, layers: nat) -> Option<
    Seq<Seq<char>>,
> {
    if gguf::dims_of(tensors, "token_embd.weight"@) is None {
        Some(seq!["token_embd.weight"@])
    } else if gguf::dims_of(tensors, "output_norm.weight"@) is None {
        Some(seq!["output_norm.weight"@])
    } else {
        missing_in_layers(tensors, 0, layers)
    }
}

/// The tensor behind the output scores: its own, or that of the embedding.
pub open spec fn output_name(tensors: Seq<TensorInfo>) -> Seq<char> {
    if gguf::dims_of(tensors, "output.weight"@) is Some {
        "output.weight"@
    } else {
        "token_embd.weight"@
    }
}

impl TensorNameMap {
    /// The names are those of a model of `layers` layers.
    pub open spec fn names(self, tensors: Seq<TensorInfo>, layers: nat) -> bool {
        &&& self.token_embeddings@ == "token_embd.weight"@
        &&& self.output_norm@ == "output_norm.weight"@
        &&& self.output@ == output_name(tensors)
        &&& self.layers@.len() == layers
        &&& forall|i: int| 0 <= i < layers ==> (#[trigger] self.layers@[i]).names(tensors, i as nat)
    }

    /// The names of a model's tensors, or the first list of candidates that has none.
    pub fn detect(tensors: &Vec<TensorInfo>, summary: &MetadataSummary) -> (r: Result<
        TensorNameMap,
        MissingTensor,
    >)
        ensures
            match missing_in_model(tensors@, summary.num_layers as nat) {
                None => r matches Ok(m) && m.names(tensors@, summary.num_layers as nat),
                Some(list) => r matches Err(e) && text::views(e.candidates@) == list,
            },
    {
        proof {
            reveal_strlit("");
            reveal_with_fuel(gguf::first_existing, 3);
            assert(one(""@, "token_embd.weight"@)[0] =~= "token_embd.weight"@);
            assert(one(""@, "output_norm.weight"@)[0] =~= "output_norm.weight"@);
            assert(either(""@, "output.weight"@, "token_embd.weight"@)[0] =~= "output.weight"@);
            assert(either(
                ""@,
                "output.weight"@,
                "token_embd.weight"@,
            ).drop_first()[0] =~= "token_embd.weight"@);
            assert(one(""@, "token_embd.weight"@) =~= seq!["token_embd.weight"@]);
            assert(one(""@, "output_norm.weight"@) =~= seq!["output_norm.weight"@]);
        }
        let token_embeddings = match gguf::require_tensor(
            tensors,
            one_name("", "token_embd.weight"),
        ) {
            Ok(name) => name,
            Err(missing) => return Err(missing),
        };
        let output_norm = match gguf::require_tensor(tensors, one_name("", "output_norm.weight")) {
            Ok(name) => name,
            Err(missing) => return Err(missing),
        };
        let output = match gguf::first_existing_tensor(
            tensors,
            &either_name("", "output.weight", "token_embd.weight"),
        ) {
            Some(name) => name,
            None => "token_embd.weight".to_owned(),
        };
        let mut layers: Vec<LayerTensorNames> = Vec::new();
        let mut layer_idx: usize = 0;
        while layer_idx < summary.num_layers
            invariant
                0 <= layer_idx <= summary.num_layers,
                layers@.len() == layer_idx,
                forall|i: int|
                    0 <= i < layer_idx ==> (#[trigger] layers@[i]).names(tensors@, i as nat),
                missing_in_layers(tensors@, 0, summary.num_layers as nat) == missing_in_layers(
                    tensors@,
                    layer_idx as nat,
                    summary.num_layers as nat,
                ),
                missing_in_model(tensors@, summary.num_layers as nat) == missing_in_layers(
                    tensors@,
                    0,
                    summary.num_layers as nat,
                ),
            decreases summary.num_layers - layer_idx,
        {
            match LayerTensorNames::detect(tensors, layer_idx) {
                Ok(names) => layers.push(names),
                Err(missing) => return Err(missing),
            }
            layer_idx = layer_idx + 1;
        }
        Ok(TensorNameMap { token_embeddings, output_norm, output, layers })
    }
}

/// A model, and what its layers have kept.
#[derive(Debug)]
pub struct ModelWeights {
    pub names: TensorNameMap,
    pub summary: MetadataSummary,
    pub layers: Vec<LayerWeights>,
    /// The number format of the rotary tables and the mask.
    pub dtype: DTypeKind,
}

/// The feed-forward part of a layer: `down(silu(gate(x)) * up(x))`.
#[verifier::allow_in_spec]
pub fn mlp(x: &Rc<Node>) -> Rc<Node>
    returns
        linear(
            Projection::Down,
            &pair(
                Pairwise::Mul,
                &apply(SameShape::Silu, &linear(Projection::Gate, x)),
                &linear(Projection::Up, x),
            ),
        ),
{
    linear(
        Projection::Down,
        &pair(
            Pairwise::Mul,
            &apply(SameShape::Silu, &linear(Projection::Gate, x)),
            &linear(Projection::Up, x),
        ),
    )
}

/// `x` with `mixed` added, and the feed-forward part of the sum added to that.
#[verifier::allow_in_spec]
pub fn with_mlp(x: &Rc<Node>, mixed: &Rc<Node>, eps: FloatSetting) -> Rc<Node>
    returns
        pair(
            Pairwise::Add,
            &pair(Pairwise::Add, x, mixed),
            &mlp(&rms_norm(Slot::MlpNorm, eps, &pair(Pairwise::Add, x, mixed))),
        ),
{
    let sum = pair(Pairwise::Add, x, mixed);
    pair(Pairwise::Add, &sum, &mlp(&rms_norm(Slot::MlpNorm, eps, &sum)))
}

/// The mask of a pass over `len` positions: row `i` hides what comes after `i`.
#[verifier::allow_in_spec]
pub fn causal_mask(len: usize) -> Rc<Node>
    returns
        apply(SameShape::ModelFormat, &reshape(&causal(len), Dims::Four(1, 1, len, len))),
{
    apply(SameShape::ModelFormat, &reshape(&causal(len), Dims::Four(1, 1, len, len)))
}

/// The scores of the last of `len` positions.
#[verifier::allow_in_spec]
pub fn last_scores(len: usize, eps: FloatSetting) -> Rc<Node>
    requires
        len >= 1,
    returns
        linear(
            Projection::Head,
            &select(
                &rms_norm(Slot::FinalNorm, eps, &leaf(Slot::Input)),
                1,
                (len - 1) as usize,
            ),
        ),
{
    linear(
        Projection::Head,
        &select(&rms_norm(Slot::FinalNorm, eps, &leaf(Slot::Input)), 1, len - 1),
    )
}

impl LayerWeights {
    /// What the norms of the layer add to a mean square.
    pub open spec fn norm_eps(self) -> FloatSetting {
        match self {
            LayerWeights::FullAttention(w) => w.norm_eps,
            LayerWeights::StateSpace(w) => w.norm_eps,
        }
    }

    /// The input of the mixing part.
    pub open spec fn normed(self, x: Rc<Node>) -> Rc<Node> {
        rms_norm(Slot::MixerNorm, self.norm_eps(), &x)
    }

    /// What the layer computes from `x`, without the residual and the feed-forward part.
    pub open spec fn mixed(self, x: Rc<Node>, step: Step) -> Rc<Node> {
        let h = self.normed(x);
        match self {
            LayerWeights::FullAttention(w) => w.output(h, step),
            LayerWeights::StateSpace(w) => w.output(h, step),
        }
    }

    /// The output of the layer.
    pub open spec fn output(self, x: Rc<Node>, step: Step) -> Rc<Node> {
        with_mlp(&x, &self.mixed(x, step), self.norm_eps())
    }

    /// What the layer leaves behind.
    pub open spec fn keeps(self, kept: Kept, x: Rc<Node>, step: Step) -> bool {
        let h = self.normed(x);
        match (self, kept) {
            (LayerWeights::FullAttention(w), Kept::Attention { keys, values }) => {
                keys == w.all_keys(h, step) && values == w.all_values(h, step)
            },
            (LayerWeights::StateSpace(w), Kept::StateSpace { conv_state, recurrent_state }) => {
                conv_state == state_space::last_inputs(
                    &w.conv_input(h, step),
                    w.continues(step),
                    step.len,
                    (w.conv_kernel_size - 1) as usize,
                ) && recurrent_state == scan_state(&w.rule(h, step))
            },
            _ => false,
        }
    }

    /// The layer after a pass: it has something to go on from.
    pub open spec fn after_pass(self) -> LayerWeights {
        match self {
            LayerWeights::FullAttention(w) => LayerWeights::FullAttention(
                attention::AttentionWeights { cached: true, ..w },
            ),
            LayerWeights::StateSpace(w) => LayerWeights::StateSpace(
                state_space::StateSpaceWeights { primed: true, ..w },
            ),
        }
    }

    /// The layer after it has forgotten what it kept.
    pub open spec fn cleared(self) -> LayerWeights {
        match self {
            LayerWeights::FullAttention(w) => LayerWeights::FullAttention(
                attention::AttentionWeights { cached: false, ..w },
            ),
            LayerWeights::StateSpace(w) => LayerWeights::StateSpace(
                state_space::StateSpaceWeights { primed: false, ..w },
            ),
        }
    }

    /// The layer can make a pass: its widths fit in a machine word, and its convolution reaches
    /// over at least one position.
    pub open spec fn runnable(self) -> bool {
        match self {
            LayerWeights::FullAttention(w) => w.fits(),
            LayerWeights::StateSpace(w) => w.well_formed() && w.conv_kernel_size >= 1,
        }
    }

    /// One pass through the layer.
    pub fn forward(&mut self, x: &Rc<Node>, step: Step) -> (r: LayerPass)
        requires
            old(self).runnable(),
        ensures
            r.output == old(self).output(*x, step),
            old(self).keeps(r.kept, *x, step),
            *final(self) == old(self).after_pass(),
    {
        let eps = match *self {
            LayerWeights::FullAttention(weights) => weights.norm_eps,
            LayerWeights::StateSpace(weights) => weights.norm_eps,
        };
        let h = rms_norm(Slot::MixerNorm, eps, x);
        match *self {
            LayerWeights::FullAttention(weights) => {
                let mut weights = weights;
                let attention = weights.forward(&h, step);
                *self = LayerWeights::FullAttention(weights);
                LayerPass {
                    output: with_mlp(x, &attention.output, eps),
                    kept: Kept::Attention { keys: attention.keys, values: attention.values },
                }
            },
            LayerWeights::StateSpace(weights) => {
                let mut weights = weights;
                let recurrence = weights.forward(&h, step);
                *self = LayerWeights::StateSpace(weights);
                LayerPass {
                    output: with_mlp(x, &recurrence.output, eps),
                    kept: Kept::StateSpace {
                        conv_state: recurrence.conv_state,
                        recurrent_state: recurrence.recurrent_state,
                    },
                }
            },
        }
    }

    /// Forgets what the layer has kept.
    pub fn clear_kv_cache(&mut self)
        ensures
            *final(self) == old(self).cleared(),
    {
        match *self {
            LayerWeights::FullAttention(weights) => {
                let mut weights = weights;
                weights.clear_kv_cache();
                *self = LayerWeights::FullAttention(weights);
            },
            LayerWeights::StateSpace(weights) => {
                let mut weights = weights;
                weights.clear_cache();
                *self = LayerWeights::StateSpace(weights);
            },
        }
    }

    /// Whether the layer can make a pass.
    pub fn is_runnable(&self) -> (r: bool)
        requires
            self.well_formed(),
        ensures
            r == self.runnable(),
    {
        match self {
            LayerWeights::FullAttention(weights) => {
                match weights.num_heads.checked_mul(weights.head_dim) {
                    Some(width) => width <= usize::MAX / 2 && weights.head_dim <= usize::MAX / 2,
                    None => {
                        assert(weights.num_heads * weights.head_dim * 2 > usize::MAX);
                        false
                    },
                }
            },
            LayerWeights::StateSpace(weights) => weights.conv_kernel_size >= 1,
        }
    }
}

/// What the tensors of a file tell about a layer.
pub open spec fn layer_facts(tensors: Seq<TensorInfo>, layer: nat) -> loading::LayerFacts {
    let p = layer_prefix(layer);
    let lists = layer_candidates(p);
    loading::LayerFacts {
        layer_idx: layer,
        kind: layer_kind(tensors, p),
        prefix: p,
        q_proj: gguf::first_existing(tensors, lists[2])->0,
        o_proj: gguf::first_existing(tensors, lists[5])->0,
        q_norm: gguf::first_existing(tensors, one(p, ".attn_q_norm.weight"@)) is Some,
        k_norm: gguf::first_existing(tensors, one(p, ".attn_k_norm.weight"@)) is Some,
        q_bias: gguf::first_existing(tensors, one(p, ".attn_q.bias"@)) is Some,
        k_bias: gguf::first_existing(tensors, one(p, ".attn_k.bias"@)) is Some,
        v_bias: gguf::first_existing(tensors, one(p, ".attn_v.bias"@)) is Some,
    }
}

proof fn lemma_facts(names: LayerTensorNames, tensors: Seq<TensorInfo>, layer: nat)
    requires
        names.names(tensors, layer),
    ensures
        names.facts() == layer_facts(tensors, layer),
{
    let lists = layer_candidates(layer_prefix(layer));
    assert(gguf::first_existing(tensors, lists[2]) == Some(names.required_names()[2]));
    assert(gguf::first_existing(tensors, lists[5]) == Some(names.required_names()[5]));
}

/// Why one of the layers from `layer` to `layers` cannot be loaded.
pub open spec fn fault_in_layers(tensors: Seq<TensorInfo>, layer: nat, layers: nat) -> Option<
    LoadFault,
>
    decreases layers - layer,
{
    if layer >= layers {
        None
    } else {
        match loading::layer_fault(tensors, layer_facts(tensors, layer)) {
            Some(fault) => Some(fault),
            None => fault_in_layers(tensors, layer + 1, layers),
        }
    }
}

/// The numbers of a model that the metadata give.
pub open spec fn numbers_of(metadata: Seq<Entry>) -> ModelNumbers {
    let prefix = prefix_of(metadata, named_architecture(metadata));
    ModelNumbers {
        architecture: architecture_of(prefix),
        heads: count_of(metadata, prefix, "attention.head_count"@),
        kv_heads: count_of(metadata, prefix, "attention.head_count_kv"@),
        head_dim: count_of(metadata, prefix, "attention.key_length"@),
        layers: count_of(metadata, prefix, "block_count"@),
        hidden_size: count_of(metadata, prefix, "embedding_length"@),
        norm_eps: float_of(metadata, prefix, "attention.layer_norm_rms_epsilon"@),
    }
}

/// Whether a number that a model cannot do without is missing.
pub open spec fn incomplete(numbers: ModelNumbers) -> bool {
    ||| numbers.heads == 0
    ||| numbers.kv_heads == 0
    ||| numbers.head_dim == 0
    ||| numbers.layers == 0
    ||| numbers.hidden_size == 0
}

/// Why a model cannot be loaded.
pub open spec fn model_fault(tensors: Seq<TensorInfo>, numbers: ModelNumbers) -> Option<LoadFault> {
    let layers = numbers.layers as nat;
    if numbers.architecture != QuantizedArchitecture::Qwen3_5 {
        Some(LoadFault::UnsupportedArchitecture { architecture: numbers.architecture })
    } else if incomplete(numbers) {
        Some(LoadFault::IncompleteMetadata)
    } else if missing_in_model(tensors, layers) is Some {
        Some(LoadFault::Missing { candidates: missing_in_model(tensors, layers)->0 })
    } else {
        fault_in_layers(tensors, 0, layers)
    }
}

/// The number format that the metadata ask for: single precision for zero, otherwise half.
pub open spec fn dtype_of(metadata: Seq<Entry>) -> DTypeKind {
    match gguf::value_of(metadata, "general.dtype"@) {
        Some(MetaValue::U32(0)) => DTypeKind::F32,
        _ => DTypeKind::F16,
    }
}

/// The layers are loaded one after the other, until one fails. Each of them up to there, from
/// `layer` on, can be loaded without dividing by zero.
pub open spec fn divisible_layers(
    tensors: Seq<TensorInfo>,
    layer: nat,
    numbers: ModelNumbers,
) -> bool
    decreases numbers.layers - layer,
{
    layer >= numbers.layers || {
        let facts = layer_facts(tensors, layer);
        &&& loading::divisible(tensors, facts, numbers.kv_heads as nat)
        &&& loading::layer_fault(tensors, facts) is None ==> divisible_layers(
            tensors,
            layer + 1,
            numbers,
        )
    }
}

/// The recurrent layers that are loaded have heads.
pub open spec fn has_heads(tensors: Seq<TensorInfo>, numbers: ModelNumbers) -> bool {
    numbers.architecture == QuantizedArchitecture::Qwen3_5 && !incomplete(numbers)
        && missing_in_model(tensors, numbers.layers as nat) is None ==> divisible_layers(
        tensors,
        0,
        numbers,
    )
}

/// Whether the recurrent layers of a file that would be loaded have heads.
pub fn recurrent_layers_have_heads(content: &Content) -> (r: bool)
    ensures
        r == has_heads(content.tensors@, numbers_of(content.metadata@)),
{
    let summary = MetadataSummary::detect(&content.metadata);
    let tensors = &content.tensors;
    let ghost numbers = numbers_of(content.metadata@);
    assert(summary.numbers() == numbers);
    match summary.architecture {
        QuantizedArchitecture::Qwen3_5 => {},
        _ => return true,
    }
    if summary.is_incomplete() {
        return true;
    }
    let names = match TensorNameMap::detect(tensors, &summary) {
        Ok(names) => names,
        Err(_) => return true,
    };
    let mut i: usize = 0;
    while i < names.layers.len()
        invariant
            0 <= i <= names.layers@.len(),
            content.tensors == *tensors,
            numbers == numbers_of(content.metadata@),
            summary.numbers() == numbers,
            numbers.kv_heads != 0,
            names.names(tensors@, numbers.layers as nat),
            has_heads(tensors@, numbers) == divisible_layers(tensors@, i as nat, numbers),
        decreases names.layers@.len() - i,
    {
        proof {
            lemma_facts(names.layers@[i as int], tensors@, i as nat);
        }
        match names.layers[i].kind {
            LayerKind::StateSpace => {
                if loading::is_headless(tensors, &names.layers[i]) {
                    return false;
                }
            },
            _ => {},
        }
        if LayerWeights::new(tensors, &names.layers[i], &summary).is_err() {
            return true;
        }
        i = i + 1;
    }
    true
}

impl MetadataSummary {
    /// Whether a number that a model cannot do without is missing.
    pub fn is_incomplete(&self) -> (r: bool)
        ensures
            r == incomplete(self.numbers()),
    {
        self.num_attention_heads == 0 || self.num_kv_heads == 0 || self.head_dim == 0
            || self.num_layers == 0 || self.hidden_size == 0
    }
}

impl ModelWeights {
    /// The model is that of a file, with nothing kept.
    pub open spec fn loaded_from(self, content: Content) -> bool {
        let tensors = content.tensors@;
        let numbers = numbers_of(content.metadata@);
        &&& self.summary.summarises(content.metadata@)
        &&& self.names.names(tensors, numbers.layers as nat)
        &&& self.dtype == dtype_of(content.metadata@)
        &&& self.layers@ == Seq::new(
            numbers.layers as nat,
            |i: int| loading::layer_of(tensors, layer_facts(tensors, i as nat), numbers),
        )
    }

    /// The dimensions of each layer belong together.
    pub open spec fn well_formed(self) -> bool {
        forall|i: int| 0 <= i < self.layers@.len() ==> (#[trigger] self.layers@[i]).well_formed()
    }

    /// Every layer can make a pass.
    pub open spec fn runnable(self) -> bool {
        forall|i: int| 0 <= i < self.layers@.len() ==> (#[trigger] self.layers@[i]).runnable()
    }

    /// The model in a file, or the first reason why there is none.
    pub fn from_gguf(content: &Content) -> (r: Result<ModelWeights, LoadError>)
        requires
            has_heads(content.tensors@, numbers_of(content.metadata@)),
        ensures
            match model_fault(content.tensors@, numbers_of(content.metadata@)) {
                Some(fault) => r matches Err(e) && e@ == fault,
                None => r matches Ok(m) && m.loaded_from(*content) && m.well_formed(),
            },
    {
        let summary = MetadataSummary::detect(&content.metadata);
        let tensors = &content.tensors;
        let ghost numbers = numbers_of(content.metadata@);
        assert(summary.numbers() == numbers);
        match summary.architecture {
            QuantizedArchitecture::Qwen3_5 => {},
            architecture => return Err(LoadError::UnsupportedArchitecture { architecture }),
        }
        if summary.is_incomplete() {
            return Err(LoadError::IncompleteMetadata);
        }
        let names = match TensorNameMap::detect(tensors, &summary) {
            Ok(names) => names,
            Err(tensor) => return Err(LoadError::Missing { tensor }),
        };
        let dtype = match gguf::lookup(&content.metadata, "general.dtype") {
            Some(MetaValue::U32(0)) => DTypeKind::F32,
            _ => DTypeKind::F16,
        };
        let mut layers: Vec<LayerWeights> = Vec::new();
        let mut i: usize = 0;
        while i < names.layers.len()
            invariant
                0 <= i <= names.layers@.len(),
                content.tensors == *tensors,
                numbers == numbers_of(content.metadata@),
                summary.numbers() == numbers,
                names.names(tensors@, numbers.layers as nat),
                divisible_layers(tensors@, i as nat, numbers),
                model_fault(tensors@, numbers) == fault_in_layers(
                    tensors@,
                    i as nat,
                    numbers.layers as nat,
                ),
                layers@ == Seq::new(
                    i as nat,
                    |j: int| loading::layer_of(tensors@, layer_facts(tensors@, j as nat), numbers),
                ),
                forall|j: int| 0 <= j < i ==> (#[trigger] layers@[j]).well_formed(),
            decreases names.layers@.len() - i,
        {
            proof {
                lemma_facts(names.layers@[i as int], tensors@, i as nat);
            }
            match LayerWeights::new(tensors, &names.layers[i], &summary) {
                Ok(layer) => layers.push(layer),
                Err(error) => return Err(error),
            }
            assert(layers@ =~= Seq::new(
                (i + 1) as nat,
                |j: int| loading::layer_of(tensors@, layer_facts(tensors@, j as nat), numbers),
            ));
            i = i + 1;
        }
        Ok(ModelWeights { names, summary, layers, dtype })
    }
}

/// The step of a pass: positions are hidden unless there is only one.
pub open spec fn step_of(batch: usize, len: usize, offset: usize) -> Step {
    Step { batch, len, offset, masked: len != 1 }
}

impl ForwardPass {
    /// The pass is that of a model with the given layers.
    pub open spec fn of(self, layers: Seq<LayerWeights>, eps: FloatSetting, step: Step) -> bool {
        let x = leaf(Slot::Input);
        &&& self.hidden == embed(&x)
        &&& self.mask == (if step.masked {
            Some(causal_mask(step.len))
        } else {
            None
        })
        &&& self.layers@.len() == layers.len()
        &&& forall|i: int|
            0 <= i < layers.len() ==> (#[trigger] self.layers@[i]).output == layers[i].output(
                x,
                step,
            ) && layers[i].keeps(self.layers@[i].kept, x, step)
        &&& self.last == last_scores(step.len, eps)
    }
}

impl ModelWeights {
    /// One pass over `seq_len` positions of `batch` sequences, `offset` positions after the first.
    /// Each layer goes on from what it kept of the passes before.
    pub fn forward(&mut self, batch: usize, seq_len: usize, offset: usize) -> (r: ForwardPass)
        requires
            old(self).runnable(),
            seq_len >= 1,
        ensures
            r.of(
                old(self).layers@,
                old(self).summary.rms_norm_eps,
                step_of(batch, seq_len, offset),
            ),
            final(self).layers@ == old(self).layers@.map_values(
                |w: LayerWeights| w.after_pass(),
            ),
            final(self).names == old(self).names,
            final(self).summary == old(self).summary,
            final(self).dtype == old(self).dtype,
    {
        let step = Step { batch, len: seq_len, offset, masked: seq_len != 1 };
        let x = leaf(Slot::Input);
        let hidden = embed(&x);
        let mask = if seq_len == 1 {
            None
        } else {
            Some(causal_mask(seq_len))
        };
        let ghost before = self.layers@;
        let mut layers: Vec<LayerPass> = Vec::new();
        let mut i: usize = 0;
        while i < self.layers.len()
            invariant
                0 <= i <= self.layers@.len(),
                before == old(self).layers@,
                self.layers@.len() == before.len(),
                self.names == old(self).names,
                self.summary == old(self).summary,
                self.dtype == old(self).dtype,
                old(self).runnable(),
                x == leaf(Slot::Input),
                step == step_of(batch, seq_len, offset),
                layers@.len() == i,
                forall|j: int| i <= j < before.len() ==> self.layers@[j] == before[j],
                forall|j: int| 0 <= j < i ==> self.layers@[j] == before[j].after_pass(),
                forall|j: int|
                    0 <= j < i ==> (#[trigger] layers@[j]).output == before[j].output(x, step)
                        && before[j].keeps(layers@[j].kept, x, step),
            decreases self.layers@.len() - i,
        {
            let mut layer = self.layers[i];
            assert(before[i as int].runnable());
            let pass = layer.forward(&x, step);
            self.layers.set(i, layer);
            layers.push(pass);
            i = i + 1;
        }
        assert(self.layers@ =~= before.map_values(|w: LayerWeights| w.after_pass()));
        let last = last_scores(seq_len, self.summary.rms_norm_eps);
        ForwardPass { hidden, mask, layers, last }
    }

    /// Makes every layer forget what it kept.
    pub fn clear_kv_cache(&mut self)
        ensures
            final(self).layers@ == old(self).layers@.map_values(|w: LayerWeights| w.cleared()),
            final(self).names == old(self).names,
            final(self).summary == old(self).summary,
            final(self).dtype == old(self).dtype,
    {
        let ghost before = self.layers@;
        let mut i: usize = 0;
        while i < self.layers.len()
            invariant
                0 <= i <= self.layers@.len(),
                before == old(self).layers@,
                self.layers@.len() == before.len(),
                self.names == old(self).names,
                self.summary == old(self).summary,
                self.dtype == old(self).dtype,
                forall|j: int| i <= j < before.len() ==> self.layers@[j] == before[j],
                forall|j: int| 0 <= j < i ==> self.layers@[j] == before[j].cleared(),
            decreases self.layers@.len() - i,
        {
            let mut layer = self.layers[i];
            layer.clear_kv_cache();
            self.layers.set(i, layer);
            i = i + 1;
        }
        assert(self.layers@ =~= before.map_values(|w: LayerWeights| w.cleared()));
    }

    /// Whether every layer can make a pass.
    pub fn is_runnable(&self) -> (r: bool)
        requires
            self.well_formed(),
        ensures
            r == self.runnable(),
    {
        let mut i: usize = 0;
        while i < self.layers.len()
            invariant
                0 <= i <= self.layers@.len(),
                self.well_formed(),
                forall|j: int| 0 <= j < i ==> (#[trigger] self.layers@[j]).runnable(),
            decreases self.layers@.len() - i,
        {
            assert(self.layers@[i as int].well_formed());
            if !self.layers[i].is_runnable() {
                assert(!self.layers@[i as int].runnable());
                return false;
            }
            i = i + 1;
        }
        true
    }
}

/// A model that has just been loaded has nothing to forget, and a model forgets everything that it
/// learned in a pass.
pub proof fn clearing_undoes_passes(w: LayerWeights, tensors: Seq<TensorInfo>, layer: nat, numbers: ModelNumbers)
    ensures
        w.after_pass().cleared() == w.cleared(),
        ({
            let loaded = loading::layer_of(tensors, layer_facts(tensors, layer), numbers);
            &&& loaded.cleared() == loaded
            &&& loaded.after_pass().cleared() == loaded
        }),
{
}

/// A pass and clearing leave a layer as able to make a pass as it was.
pub proof fn passes_keep_a_layer_runnable(w: LayerWeights)
    ensures
        w.after_pass().runnable() == w.runnable(),
        w.cleared().runnable() == w.runnable(),
        w.after_pass().well_formed() == w.well_formed(),
        w.cleared().well_formed() == w.well_formed(),
{
}

/// A layer that has neither a query projection nor a joint one is refused for its missing tensor.
pub proof fn layer_without_query_is_refused(tensors: Seq<TensorInfo>, layer: nat, layers: nat)
    requires
        layer < layers,
        layer_kind(tensors, layer_prefix(layer)) == LayerKind::Unknown,
    ensures
        missing_in_model(tensors, layers) is Some,
{
    let p = layer_prefix(layer);
    let lists = layer_candidates(p);
    assert(gguf::first_existing(tensors, lists[2]) is None) by {
        reveal_with_fuel(gguf::first_existing, 3);
        assert(lists[2].drop_first()[0] == p + ".attn_qkv.weight"@);
    }
    lemma_missing_list(tensors, lists, 2);
    lemma_missing_layer(tensors, layer, 0, layers);
}

/// A list without a tensor makes some list the first without one.
proof fn lemma_missing_list(tensors: Seq<TensorInfo>, lists: Seq<Seq<Seq<char>>>, i: int)
    requires
        0 <= i < lists.len(),
        gguf::first_existing(tensors, lists[i]) is None,
    ensures
        first_missing(tensors, lists) is Some,
    decreases lists.len(),
{
    if gguf::first_existing(tensors, lists[0]) is Some {
        assert(lists.drop_first()[i - 1] == lists[i]);
        lemma_missing_list(tensors, lists.drop_first(), i - 1);
    }
}

proof fn lemma_missing_layer(tensors: Seq<TensorInfo>, layer: nat, from: nat, layers: nat)
    requires
        from <= layer < layers,
        first_missing(tensors, layer_candidates(layer_prefix(layer))) is Some,
    ensures
        missing_in_layers(tensors, from, layers) is Some,
    decreases layer - from,
{
    if from < layer {
        lemma_missing_layer(tensors, layer, from + 1, layers);
    }
}

impl LayerWeights {
    /// The tensors behind a layer have the shapes that it expects, `past` positions being cached.
    pub open spec fn described_by(
        self,
        env: graph::Shapes,
        step: Step,
        hidden: nat,
        inner: nat,
        past: nat,
        rows: nat,
    ) -> bool {
        &&& (env.leaf)(Slot::MixerNorm) == Some(seq![hidden])
        &&& (env.leaf)(Slot::MlpNorm) == Some(seq![hidden])
        &&& (env.linear)(Projection::Gate) == Some((hidden, inner))
        &&& (env.linear)(Projection::Up) == Some((hidden, inner))
        &&& (env.linear)(Projection::Down) == Some((inner, hidden))
        &&& match self {
            LayerWeights::FullAttention(w) => w.consistent() && w.described_by(
                env,
                step,
                hidden,
                past,
                rows,
            ),
            LayerWeights::StateSpace(w) => w.head_v_dim > 0 && w.described_by(env, step, hidden),
        }
    }
}

/// Adding the feed-forward part keeps the shape.
pub proof fn lemma_with_mlp(
    x: Rc<Node>,
    mixed: Rc<Node>,
    eps: FloatSetting,
    env: graph::Shapes,
    d: Seq<nat>,
    hidden: nat,
    inner: nat,
)
    requires
        d.len() > 0,
        d.last() == hidden,
        graph::shape(&x, env) == Some(d),
        graph::shape(&mixed, env) == Some(d),
        (env.leaf)(Slot::MlpNorm) == Some(seq![hidden]),
        (env.linear)(Projection::Gate) == Some((hidden, inner)),
        (env.linear)(Projection::Up) == Some((hidden, inner)),
        (env.linear)(Projection::Down) == Some((inner, hidden)),
    ensures
        graph::shape(&with_mlp(&x, &mixed, eps), env) == Some(d),
{
    let n = d.len() as int;
    let sum = pair(Pairwise::Add, &x, &mixed);
    assert(graph::shape(&sum, env) == Some(d));
    let normed = rms_norm(Slot::MlpNorm, eps, &sum);
    assert(d.update(n - 1, hidden) =~= d);
    assert(graph::shape(&normed, env) == Some(d));
    lemma_mlp(normed, env, d, hidden, inner);
}

proof fn lemma_mlp(x: Rc<Node>, env: graph::Shapes, d: Seq<nat>, hidden: nat, inner: nat)
    requires
        d.len() > 0,
        d.last() == hidden,
        graph::shape(&x, env) == Some(d),
        (env.linear)(Projection::Gate) == Some((hidden, inner)),
        (env.linear)(Projection::Up) == Some((hidden, inner)),
        (env.linear)(Projection::Down) == Some((inner, hidden)),
    ensures
        graph::shape(&mlp(&x), env) == Some(d),
{
    let n = d.len() as int;
    let wide = d.update(n - 1, inner);
    assert(graph::shape(&linear(Projection::Gate, &x), env) == Some(wide));
    assert(graph::shape(&linear(Projection::Up, &x), env) == Some(wide));
    assert(wide.update(n - 1, hidden) =~= d);
}

/// A pass through a layer keeps the shape of its input.
pub proof fn layer_fits(
    w: LayerWeights,
    step: Step,
    env: graph::Shapes,
    hidden: nat,
    inner: nat,
    past: nat,
    rows: nat,
)
    requires
        w.runnable(),
        step.len >= 1,
        w.described_by(env, step, hidden, inner, past, rows),
        (env.leaf)(Slot::Input) == Some(seq![step.batch as nat, step.len as nat, hidden]),
    ensures
        graph::shape(&w.output(leaf(Slot::Input), step), env) == Some(
            seq![step.batch as nat, step.len as nat, hidden],
        ),
{
    let x = leaf(Slot::Input);
    let h = w.normed(x);
    let d = seq![step.batch as nat, step.len as nat, hidden];
    lemma_normed_input(w, step, env, hidden);
    match w {
        LayerWeights::FullAttention(a) => attention::attention_fits(
            a,
            h,
            step,
            env,
            hidden,
            past,
            rows,
        ),
        LayerWeights::StateSpace(r) => state_space::state_space_fits(r, h, step, env, hidden),
    }
    lemma_with_mlp(x, w.mixed(x, step), w.norm_eps(), env, d, hidden, inner);
}

proof fn lemma_normed_input(w: LayerWeights, step: Step, env: graph::Shapes, hidden: nat)
    requires
        (env.leaf)(Slot::MixerNorm) == Some(seq![hidden]),
        (env.leaf)(Slot::Input) == Some(seq![step.batch as nat, step.len as nat, hidden]),
    ensures
        graph::shape(&w.normed(leaf(Slot::Input)), env) == Some(
            seq![step.batch as nat, step.len as nat, hidden],
        ),
        graph::closed(&w.normed(leaf(Slot::Input))),
{
    let d = seq![step.batch as nat, step.len as nat, hidden];
    assert(d.update(2, hidden) =~= d);
}

/// The slots whose tensors change from pass to pass.
pub open spec fn changes(slot: Slot) -> bool {
    ||| slot == Slot::Input
    ||| slot == Slot::Mask
    ||| slot == Slot::CachedKeys
    ||| slot == Slot::CachedValues
    ||| slot == Slot::ConvState
    ||| slot == Slot::RecurrentState
    ||| slot == Slot::Carry
}

/// The tensors of `after` are those of `before`, but for what `kept` put in place of the states.
pub open spec fn after_keeping(before: graph::Shapes, after: graph::Shapes, kept: Kept) -> bool {
    &&& after.linear == before.linear
    &&& forall|s: Slot| !changes(s) ==> #[trigger] (after.leaf)(s) == (before.leaf)(s)
    &&& match kept {
        Kept::Attention { keys, values } => (after.leaf)(Slot::CachedKeys) == graph::shape(
            &keys,
            before,
        ) && (after.leaf)(Slot::CachedValues) == graph::shape(&values, before),
        Kept::StateSpace { conv_state, recurrent_state } => (after.leaf)(Slot::ConvState)
            == graph::shape(&conv_state, before) && (after.leaf)(Slot::RecurrentState)
            == graph::shape(&recurrent_state, before),
    }
}

/// What was kept has the shapes in which the layer keeps it.
pub open spec fn kept_fits(
    w: LayerWeights,
    kept: Kept,
    env: graph::Shapes,
    step: Step,
    total: nat,
) -> bool {
    match (w, kept) {
        (LayerWeights::FullAttention(a), Kept::Attention { keys, values }) => {
            let cache = seq![
                step.batch as nat,
                a.num_kv_heads as nat,
                total,
                a.head_dim as nat,
            ];
            graph::shape(&keys, env) == Some(cache) && graph::shape(&values, env) == Some(cache)
        },
        (LayerWeights::StateSpace(r), Kept::StateSpace { conv_state, recurrent_state }) => {
            graph::shape(&conv_state, env) == Some(
                state_space::conv_state_shape(step.batch, r.conv_dim, r.conv_kernel_size),
            ) && graph::shape(&recurrent_state, env) == Some(
                delta::state_shape(r.delta_dims(step)),
            )
        },
        _ => false,
    }
}

/// A pass keeps what the layer keeps: `step.len` positions more than before.
pub proof fn kept_has_its_shape(
    w: LayerWeights,
    step: Step,
    kept: Kept,
    env: graph::Shapes,
    hidden: nat,
    inner: nat,
    past: nat,
    rows: nat,
)
    requires
        w.runnable(),
        step.len >= 1,
        w.described_by(env, step, hidden, inner, past, rows),
        (env.leaf)(Slot::Input) == Some(seq![step.batch as nat, step.len as nat, hidden]),
        w.keeps(kept, leaf(Slot::Input), step),
    ensures
        kept_fits(w, kept, env, step, past + step.len as nat),
{
    let h = w.normed(leaf(Slot::Input));
    lemma_normed_input(w, step, env, hidden);
    match w {
        LayerWeights::FullAttention(a) => attention::attention_fits(
            a,
            h,
            step,
            env,
            hidden,
            past,
            rows,
        ),
        LayerWeights::StateSpace(r) => state_space::state_space_fits(r, h, step, env, hidden),
    }
}

proof fn lemma_follow(
    w: LayerWeights,
    step: Step,
    kept: Kept,
    env: graph::Shapes,
    next: Step,
    after: graph::Shapes,
    hidden: nat,
    inner: nat,
    past: nat,
    rows: nat,
)
    requires
        w.described_by(env, step, hidden, inner, past, rows),
        kept_fits(w, kept, env, step, past + step.len as nat),
        after_keeping(env, after, kept),
        next.batch == step.batch,
        next.offset + next.len <= rows,
        !next.masked,
    ensures
        w.after_pass().described_by(
            after,
            next,
            hidden,
            inner,
            past + step.len as nat,
            rows,
        ),
{
}

/// What a pass leaves behind suits the next pass: a layer expects exactly the shapes that it kept,
/// with the positions of the pass among the cached ones. The next pass must not be masked, since
/// a mask does not cover cached positions.
pub proof fn passes_follow_one_another(
    w: LayerWeights,
    step: Step,
    kept: Kept,
    env: graph::Shapes,
    next: Step,
    after: graph::Shapes,
    hidden: nat,
    inner: nat,
    past: nat,
    rows: nat,
)
    requires
        w.runnable(),
        step.len >= 1,
        w.described_by(env, step, hidden, inner, past, rows),
        (env.leaf)(Slot::Input) == Some(seq![step.batch as nat, step.len as nat, hidden]),
        w.keeps(kept, leaf(Slot::Input), step),
        after_keeping(env, after, kept),
        next.batch == step.batch,
        next.offset + next.len <= rows,
        !next.masked,
    ensures
        w.after_pass().described_by(
            after,
            next,
            hidden,
            inner,
            past + step.len as nat,
            rows,
        ),
{
    kept_has_its_shape(w, step, kept, env, hidden, inner, past, rows);
    lemma_follow(w, step, kept, env, next, after, hidden, inner, past, rows);
}

/// The scores of a pass: one row of the vocabulary for each sequence.
pub proof fn scores_fit(
    step: Step,
    eps: FloatSetting,
    env: graph::Shapes,
    hidden: nat,
    vocabulary: nat,
)
    requires
        step.len >= 1,
        (env.leaf)(Slot::Input) == Some(seq![step.batch as nat, step.len as nat, hidden]),
        (env.leaf)(Slot::FinalNorm) == Some(seq![hidden]),
        (env.linear)(Projection::Head) == Some((hidden, vocabulary)),
    ensures
        graph::shape(&last_scores(step.len, eps), env) == Some(seq![step.batch as nat, vocabulary]),
{
    let (b, s) = (step.batch as nat, step.len as nat);
    let d = seq![b, s, hidden];
    assert(d.update(2, hidden) =~= d);
    assert(d.update(1, 1).remove(1) =~= seq![b, hidden]);
    assert(seq![b, hidden].update(1, vocabulary) =~= seq![b, vocabulary]);
}

/// The mask of a pass has the shape that the attention layers expect.
pub proof fn mask_fits(len: usize, env: graph::Shapes)
    ensures
        graph::shape(&causal_mask(len), env) == Some(seq![1, 1, len as nat, len as nat]),
{
    let n = len as nat;
    shapes::lemma_elements(n, n, 0, 0, 0);
    shapes::lemma_elements(1, 1, n, n, 0);
    assert(1 * 1 * n * n == n * n) by (nonlinear_arith);
}

/// A quantized model reads a prompt in pieces that need no mask once there is context, so no mask
/// ever meets cached positions.
pub proof fn pieces_suit_the_mask(count: usize, position: usize)
    requires
        position + count <= usize::MAX,
        count >= 1,
    ensures
        forall|i: int|
            0 <= i < runtime::prompt_pieces(true, count as nat, position as nat).len() ==> {
                let piece = #[trigger] runtime::prompt_pieces(
                    true,
                    count as nat,
                    position as nat,
                )[i];
                step_of(1, piece.len, piece.position).masked ==> position == 0
            },
{
}

/// A number of heads under the prefix of a known architecture decides, whatever else the file says.
pub proof fn known_architectures_come_first(metadata: Seq<Entry>, named: Option<Seq<char>>)
    ensures
        gguf::value_of(metadata, "qwen3.attention.head_count"@) is Some ==> architecture_of(
            prefix_of(metadata, named),
        ) == QuantizedArchitecture::Qwen3,
        gguf::value_of(metadata, "qwen3.attention.head_count"@) is None && (gguf::value_of(
            metadata,
            "qwen2.attention.head_count"@,
        ) is Some || gguf::value_of(metadata, "qwen35.attention.head_count"@) is Some)
            ==> architecture_of(prefix_of(metadata, named)) == QuantizedArchitecture::Qwen3_5,
{
    reveal_strlit("qwen3");
    reveal_strlit("qwen2");
    reveal_strlit("qwen35");
    assert("qwen2"@[4] != "qwen3"@[4]);
    assert("qwen35"@.len() != "qwen3"@.len());
}

/// No two layers share the name of a tensor.
pub proof fn layers_have_names_of_their_own(a: nat, b: nat, suffix: Seq<char>)
    requires
        layer_prefix(a) + suffix == layer_prefix(b) + suffix,
    ensures
        a == b,
{
    let (p, q) = (layer_prefix(a), layer_prefix(b));
    assert((p + suffix).len() == (q + suffix).len());
    assert(p =~= (p + suffix).take(p.len() as int));
    assert(q =~= (q + suffix).take(p.len() as int));
    let n = "blk."@.len();
    assert(text::decimal(a) =~= p.skip(n as int));
    assert(text::decimal(b) =~= q.skip(n as int));
    text::decimal_is_injective(a, b);
}

}
