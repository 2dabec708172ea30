//! Which tensor of a quantized file plays which part, and which number is read under which key.
use crate::gguf;
use crate::gguf::{Content, Entry, MetaValue, TensorInfo};
use crate::graph::FloatSetting;
use crate::loading;
use crate::loading::{LayerWeights, LoadFault, ModelNumbers};
use crate::quantized_qwen3_5::{
    architecture_of, dtype_of, first_missing, incomplete, layer_candidates, layer_facts,
    layer_prefix, missing_in_layers, missing_in_model, model_fault, named_architecture, numbers_of,
    prefix_of, view_of, LayerKind, LayerTensorNames, MetadataSummary, ModelWeights,
    QuantizedArchitecture, TensorNameMap,
};
use crate::runtime::DTypeKind;
use crate::text;
use vstd::prelude::*;

verus! {

/// Some tensor has the name.
pub open spec fn held(tensors: Seq<TensorInfo>, name: Seq<char>) -> bool {
    exists|i: int| 0 <= i < tensors.len() && #[trigger] tensors[i].name@ == name
}

proof fn lemma_held(tensors: Seq<TensorInfo>, name: Seq<char>)
    ensures
        held(tensors, name) <==> gguf::dims_of(tensors, name) is Some,
{
    gguf::lemma_dims_of(tensors, name);
}

/// Of one candidate, the name itself if it is held; of two, the first that is.
proof fn lemma_candidates(tensors: Seq<TensorInfo>, a: Seq<char>, b: Seq<char>)
    ensures
        gguf::first_existing(tensors, seq![a]) == (if held(tensors, a) {
            Some(a)
        } else {
            None
        }),
        gguf::first_existing(tensors, seq![a, b]) == (if held(tensors, a) {
            Some(a)
        } else if held(tensors, b) {
            Some(b)
        } else {
            None
        }),
{
    lemma_held(tensors, a);
    lemma_held(tensors, b);
    reveal_with_fuel(gguf::first_existing, 3);
    assert(seq![a].drop_first() =~= Seq::empty());
    assert(seq![a, b].drop_first() =~= seq![b]);
    assert(seq![b].drop_first() =~= Seq::empty());
}

/// The names that are found for a layer, each against its part.
///
/// Queries, keys, values and outputs have tensors of their own where the layer holds them; a layer
/// without them has the joint projection for all three inputs, and its gate in place of the output.
pub proof fn every_part_has_its_own_tensor(
    l: LayerTensorNames,
    tensors: Seq<TensorInfo>,
    layer: nat,
)
    requires
        l.names(tensors, layer),
    ensures
        ({
            let p = "blk."@ + text::decimal(layer);
            &&& l.layer_idx == layer
            &&& l.prefix@ == p
            &&& l.attn_norm@ == p + ".attn_norm.weight"@
            &&& l.ffn_norm@ == (if held(tensors, p + ".ffn_norm.weight"@) {
                p + ".ffn_norm.weight"@
            } else {
                p + ".post_attention_norm.weight"@
            })
            &&& l.q_proj@ == (if held(tensors, p + ".attn_q.weight"@) {
                p + ".attn_q.weight"@
            } else {
                p + ".attn_qkv.weight"@
            })
            &&& l.k_proj@ == (if held(tensors, p + ".attn_k.weight"@) {
                p + ".attn_k.weight"@
            } else {
                p + ".attn_qkv.weight"@
            })
            &&& l.v_proj@ == (if held(tensors, p + ".attn_v.weight"@) {
                p + ".attn_v.weight"@
            } else {
                p + ".attn_qkv.weight"@
            })
            &&& l.o_proj@ == (if held(tensors, p + ".attn_output.weight"@) {
                p + ".attn_output.weight"@
            } else {
                p + ".attn_gate.weight"@
            })
            &&& l.ffn_gate@ == p + ".ffn_gate.weight"@
            &&& l.ffn_up@ == p + ".ffn_up.weight"@
            &&& l.ffn_down@ == p + ".ffn_down.weight"@
        }),
        held(tensors, l.attn_norm@),
        held(tensors, l.ffn_norm@),
        held(tensors, l.q_proj@),
        held(tensors, l.k_proj@),
        held(tensors, l.v_proj@),
        held(tensors, l.o_proj@),
        held(tensors, l.ffn_gate@),
        held(tensors, l.ffn_up@),
        held(tensors, l.ffn_down@),
{
    let p = "blk."@ + text::decimal(layer);
    let lists = layer_candidates(p);
    assert forall|i: int| 0 <= i < 9 implies gguf::first_existing(tensors, #[trigger] lists[i])
        == Some(l.required_names()[i]) by {}
    assert(gguf::first_existing(tensors, lists[0]) == Some(l.attn_norm@));
    assert(gguf::first_existing(tensors, lists[1]) == Some(l.ffn_norm@));
    assert(gguf::first_existing(tensors, lists[2]) == Some(l.q_proj@));
    assert(gguf::first_existing(tensors, lists[3]) == Some(l.k_proj@));
    assert(gguf::first_existing(tensors, lists[4]) == Some(l.v_proj@));
    assert(gguf::first_existing(tensors, lists[5]) == Some(l.o_proj@));
    assert(gguf::first_existing(tensors, lists[6]) == Some(l.ffn_gate@));
    assert(gguf::first_existing(tensors, lists[7]) == Some(l.ffn_up@));
    assert(gguf::first_existing(tensors, lists[8]) == Some(l.ffn_down@));
    lemma_candidates(tensors, p + ".attn_norm.weight"@, p);
    lemma_candidates(tensors, p + ".ffn_norm.weight"@, p + ".post_attention_norm.weight"@);
    lemma_candidates(tensors, p + ".attn_q.weight"@, p + ".attn_qkv.weight"@);
    lemma_candidates(tensors, p + ".attn_k.weight"@, p + ".attn_qkv.weight"@);
    lemma_candidates(tensors, p + ".attn_v.weight"@, p + ".attn_qkv.weight"@);
    lemma_candidates(tensors, p + ".attn_output.weight"@, p + ".attn_gate.weight"@);
    lemma_candidates(tensors, p + ".ffn_gate.weight"@, p);
    lemma_candidates(tensors, p + ".ffn_up.weight"@, p);
    lemma_candidates(tensors, p + ".ffn_down.weight"@, p);
}

/// The norms and the biases that a layer may have, each against its part: present exactly where
/// the tensor is held, and then under its name.
pub proof fn optional_parts_have_their_own_tensors(
    l: LayerTensorNames,
    tensors: Seq<TensorInfo>,
    layer: nat,
)
    requires
        l.names(tensors, layer),
    ensures
        ({
            let p = "blk."@ + text::decimal(layer);
            &&& l.q_norm is Some <==> held(tensors, p + ".attn_q_norm.weight"@)
            &&& l.q_norm matches Some(name) ==> name@ == p + ".attn_q_norm.weight"@
            &&& l.k_norm is Some <==> held(tensors, p + ".attn_k_norm.weight"@)
            &&& l.k_norm matches Some(name) ==> name@ == p + ".attn_k_norm.weight"@
            &&& l.q_bias is Some <==> held(tensors, p + ".attn_q.bias"@)
            &&& l.q_bias matches Some(name) ==> name@ == p + ".attn_q.bias"@
            &&& l.k_bias is Some <==> held(tensors, p + ".attn_k.bias"@)
            &&& l.k_bias matches Some(name) ==> name@ == p + ".attn_k.bias"@
            &&& l.v_bias is Some <==> held(tensors, p + ".attn_v.bias"@)
            &&& l.v_bias matches Some(name) ==> name@ == p + ".attn_v.bias"@
        }),
{
    let p = "blk."@ + text::decimal(layer);
    lemma_candidates(tensors, p + ".attn_q_norm.weight"@, p);
    lemma_candidates(tensors, p + ".attn_k_norm.weight"@, p);
    lemma_candidates(tensors, p + ".attn_q.bias"@, p);
    lemma_candidates(tensors, p + ".attn_k.bias"@, p);
    lemma_candidates(tensors, p + ".attn_v.bias"@, p);
}

/// A layer with a query projection of its own is an attention layer; one that has only the joint
/// projection is a recurrent layer.
pub proof fn query_projection_tells_the_kind(
    l: LayerTensorNames,
    tensors: Seq<TensorInfo>,
    layer: nat,
)
    requires
        l.names(tensors, layer),
    ensures
        ({
            let p = "blk."@ + text::decimal(layer);
            &&& l.kind == LayerKind::FullAttention <==> held(tensors, p + ".attn_q.weight"@)
            &&& l.kind == LayerKind::StateSpace <==> !held(tensors, p + ".attn_q.weight"@)
                && held(tensors, p + ".attn_qkv.weight"@)
        }),
{
    let p = "blk."@ + text::decimal(layer);
    lemma_held(tensors, p + ".attn_q.weight"@);
    lemma_held(tensors, p + ".attn_qkv.weight"@);
}

/// The names of a layer are found exactly where each part has a tensor. Otherwise the names that
/// were looked for are reported, for the first part without one: the norm of the mixing part, that
/// of the feed-forward part, queries, keys, values, output, gate, up and down.
pub proof fn first_part_without_a_tensor_is_reported(tensors: Seq<TensorInfo>, layer: nat)
    ensures
        ({
            let p = "blk."@ + text::decimal(layer);
            let joint = held(tensors, p + ".attn_qkv.weight"@);
            first_missing(tensors, layer_candidates(layer_prefix(layer))) == (if !held(
                tensors,
                p + ".attn_norm.weight"@,
            ) {
                Some(seq![p + ".attn_norm.weight"@])
            } else if !held(tensors, p + ".ffn_norm.weight"@) && !held(
                tensors,
                p + ".post_attention_norm.weight"@,
            ) {
                Some(seq![p + ".ffn_norm.weight"@, p + ".post_attention_norm.weight"@])
            } else if !joint && !held(tensors, p + ".attn_q.weight"@) {
                Some(seq![p + ".attn_q.weight"@, p + ".attn_qkv.weight"@])
            } else if !joint && !held(tensors, p + ".attn_k.weight"@) {
                Some(seq![p + ".attn_k.weight"@, p + ".attn_qkv.weight"@])
            } else if !joint && !held(tensors, p + ".attn_v.weight"@) {
                Some(seq![p + ".attn_v.weight"@, p + ".attn_qkv.weight"@])
            } else if !held(tensors, p + ".attn_output.weight"@) && !held(
                tensors,
                p + ".attn_gate.weight"@,
            ) {
                Some(seq![p + ".attn_output.weight"@, p + ".attn_gate.weight"@])
            } else if !held(tensors, p + ".ffn_gate.weight"@) {
                Some(seq![p + ".ffn_gate.weight"@])
            } else if !held(tensors, p + ".ffn_up.weight"@) {
                Some(seq![p + ".ffn_up.weight"@])
            } else if !held(tensors, p + ".ffn_down.weight"@) {
                Some(seq![p + ".ffn_down.weight"@])
            } else {
                None
            })
        }),
{
    let p = "blk."@ + text::decimal(layer);
    let lists = layer_candidates(p);
    lemma_candidates(tensors, p + ".attn_norm.weight"@, p);
    lemma_candidates(tensors, p + ".ffn_norm.weight"@, p + ".post_attention_norm.weight"@);
    lemma_candidates(tensors, p + ".attn_q.weight"@, p + ".attn_qkv.weight"@);
    lemma_candidates(tensors, p + ".attn_k.weight"@, p + ".attn_qkv.weight"@);
    lemma_candidates(tensors, p + ".attn_v.weight"@, p + ".attn_qkv.weight"@);
    lemma_candidates(tensors, p + ".attn_output.weight"@, p + ".attn_gate.weight"@);
    lemma_candidates(tensors, p + ".ffn_gate.weight"@, p);
    lemma_candidates(tensors, p + ".ffn_up.weight"@, p);
    lemma_candidates(tensors, p + ".ffn_down.weight"@, p);
    reveal_with_fuel(first_missing, 2);
    assert(lists.skip(0) =~= lists);
    assert forall|i: int| 0 <= i < 9 implies first_missing(tensors, #[trigger] lists.skip(i)) == (
    if gguf::first_existing(tensors, lists[i]) is None {
        Some(lists[i])
    } else {
        first_missing(tensors, lists.skip(i + 1))
    }) by {
        assert(lists.skip(i)[0] == lists[i]);
        assert(lists.skip(i).drop_first() =~= lists.skip(i + 1));
    }
    assert(lists.skip(9) =~= Seq::empty());
    assert(first_missing(tensors, lists.skip(9)) is None);
    assert(first_missing(tensors, lists.skip(8)) == (if held(tensors, p + ".ffn_down.weight"@) {
        None
    } else {
        Some(seq![p + ".ffn_down.weight"@])
    }));
    assert(lists.skip(7) == lists.skip(7));
    assert(lists.skip(6) == lists.skip(6));
    assert(lists.skip(5) == lists.skip(5));
    assert(lists.skip(4) == lists.skip(4));
    assert(lists.skip(3) == lists.skip(3));
    assert(lists.skip(2) == lists.skip(2));
    assert(lists.skip(1) == lists.skip(1));
}

/// The names of a model. The scores have a tensor of their own where the file holds one, and
/// otherwise share that of the embedding; every layer has the names of its own number.
pub proof fn every_tensor_of_a_model_has_its_part(
    m: TensorNameMap,
    tensors: Seq<TensorInfo>,
    layers: nat,
)
    requires
        m.names(tensors, layers),
    ensures
        m.token_embeddings@ == "token_embd.weight"@,
        m.output_norm@ == "output_norm.weight"@,
        m.output@ == (if held(tensors, "output.weight"@) {
            "output.weight"@
        } else {
            "token_embd.weight"@
        }),
        m.layers@.len() == layers,
        forall|i: int| #![trigger m.layers@[i]]
            0 <= i < layers ==> m.layers@[i].names(tensors, i as nat) && m.layers@[i].layer_idx
                == i && m.layers@[i].prefix@ == "blk."@ + text::decimal(i as nat),
{
    lemma_held(tensors, "output.weight"@);
}

/// A model lacks a tensor exactly where the embedding, the last norm, or a part of one of its
/// layers has none, and it reports them in this order, the layers by their numbers.
pub proof fn first_tensor_that_a_model_lacks(tensors: Seq<TensorInfo>, layers: nat)
    ensures
        !held(tensors, "token_embd.weight"@) ==> missing_in_model(tensors, layers) == Some(
            seq!["token_embd.weight"@],
        ),
        held(tensors, "token_embd.weight"@) && !held(tensors, "output_norm.weight"@)
            ==> missing_in_model(tensors, layers) == Some(seq!["output_norm.weight"@]),
        held(tensors, "token_embd.weight"@) && held(tensors, "output_norm.weight"@) ==> {
            &&& missing_in_model(tensors, layers) is None <==> forall|i: nat|
                i < layers ==> first_missing(
                    tensors,
                    layer_candidates(#[trigger] layer_prefix(i)),
                ) is None
            &&& missing_in_model(tensors, layers) matches Some(list) ==> exists|i: nat|
                i < layers && first_missing(tensors, layer_candidates(#[trigger] layer_prefix(i)))
                    == Some(list) && forall|j: nat|
                    j < i ==> first_missing(tensors, layer_candidates(#[trigger] layer_prefix(j)))
                        is None
        },
{
    lemma_held(tensors, "token_embd.weight"@);
    lemma_held(tensors, "output_norm.weight"@);
    lemma_first_layer(tensors, 0, layers);
}

proof fn lemma_first_layer(tensors: Seq<TensorInfo>, from: nat, layers: nat)
    ensures
        missing_in_layers(tensors, from, layers) is None <==> forall|i: nat|
            from <= i < layers ==> first_missing(
                tensors,
                layer_candidates(#[trigger] layer_prefix(i)),
            ) is None,
        missing_in_layers(tensors, from, layers) matches Some(list) ==> exists|i: nat|
            from <= i < layers && first_missing(
                tensors,
                layer_candidates(#[trigger] layer_prefix(i)),
            ) == Some(list) && forall|j: nat|
                from <= j < i ==> first_missing(
                    tensors,
                    layer_candidates(#[trigger] layer_prefix(j)),
                ) is None,
    decreases layers - from,
{
    if from < layers {
        lemma_first_layer(tensors, from + 1, layers);
        assert(layer_prefix(from) == layer_prefix(from));
    }
}

/// The value is the number `n`: an unsigned integer of any width, or a truth value.
pub open spec fn is_number(v: MetaValue, n: usize) -> bool {
    match v {
        MetaValue::U8(k) => k == n,
        MetaValue::U16(k) => k == n,
        MetaValue::U32(k) => k == n,
        MetaValue::U64(k) => k == n,
        MetaValue::Bool(b) => n == (if b {
            1int
        } else {
            0
        }),
        _ => false,
    }
}

proof fn lemma_key(p: Seq<char>, whole: &str, part: &str)
    requires
        whole@ == "."@ + part@,
    ensures
        p + "."@ + part@ == p + whole@,
{
    assert(p + "."@ + part@ =~= p + ("."@ + part@));
}

/// Each number of a summary is the one that stands under its key, behind the prefix of the model.
pub proof fn numbers_are_read_under_their_keys(
    m: MetadataSummary,
    metadata: Seq<Entry>,
    p: Seq<char>,
    v: MetaValue,
    n: usize,
)
    requires
        m.summarises(metadata),
        view_of(m.metadata_prefix) == Some(p),
        is_number(v, n),
    ensures
        gguf::value_of(metadata, p + ".attention.head_count"@) == Some(v) ==> m.num_attention_heads
            == n,
        gguf::value_of(metadata, p + ".attention.head_count_kv"@) == Some(v) ==> m.num_kv_heads
            == n,
        gguf::value_of(metadata, p + ".attention.key_length"@) == Some(v) ==> m.head_dim == n,
        gguf::value_of(metadata, p + ".block_count"@) == Some(v) ==> m.num_layers == n,
        gguf::value_of(metadata, p + ".embedding_length"@) == Some(v) ==> m.hidden_size == n,
        gguf::value_of(metadata, p + ".context_length"@) == Some(v) ==> m.max_position_embeddings
            == n,
{
    lemma_keys(p);
}

proof fn lemma_keys(p: Seq<char>)
    ensures
        p + "."@ + "attention.head_count"@ == p + ".attention.head_count"@,
        p + "."@ + "attention.head_count_kv"@ == p + ".attention.head_count_kv"@,
        p + "."@ + "attention.key_length"@ == p + ".attention.key_length"@,
        p + "."@ + "block_count"@ == p + ".block_count"@,
        p + "."@ + "embedding_length"@ == p + ".embedding_length"@,
        p + "."@ + "context_length"@ == p + ".context_length"@,
        p + "."@ + "attention.layer_norm_rms_epsilon"@ == p + ".attention.layer_norm_rms_epsilon"@,
        p + "."@ + "rope.freq_base"@ == p + ".rope.freq_base"@,
{
    reveal_strlit(".");
    reveal_strlit("attention.head_count");
    reveal_strlit(".attention.head_count");
    reveal_strlit("attention.head_count_kv");
    reveal_strlit(".attention.head_count_kv");
    reveal_strlit("attention.key_length");
    reveal_strlit(".attention.key_length");
    reveal_strlit("block_count");
    reveal_strlit(".block_count");
    reveal_strlit("embedding_length");
    reveal_strlit(".embedding_length");
    reveal_strlit("context_length");
    reveal_strlit(".context_length");
    reveal_strlit("attention.layer_norm_rms_epsilon");
    reveal_strlit(".attention.layer_norm_rms_epsilon");
    reveal_strlit("rope.freq_base");
    reveal_strlit(".rope.freq_base");
    assert("."@ + "attention.head_count"@ =~= ".attention.head_count"@);
    assert("."@ + "attention.head_count_kv"@ =~= ".attention.head_count_kv"@);
    assert("."@ + "attention.key_length"@ =~= ".attention.key_length"@);
    assert("."@ + "block_count"@ =~= ".block_count"@);
    assert("."@ + "embedding_length"@ =~= ".embedding_length"@);
    assert("."@ + "context_length"@ =~= ".context_length"@);
    assert("."@ + "attention.layer_norm_rms_epsilon"@ =~= ".attention.layer_norm_rms_epsilon"@);
    assert("."@ + "rope.freq_base"@ =~= ".rope.freq_base"@);
    lemma_key(p, ".attention.head_count", "attention.head_count");
    lemma_key(p, ".attention.head_count_kv", "attention.head_count_kv");
    lemma_key(p, ".attention.key_length", "attention.key_length");
    lemma_key(p, ".block_count", "block_count");
    lemma_key(p, ".embedding_length", "embedding_length");
    lemma_key(p, ".context_length", "context_length");
    lemma_key(p, ".attention.layer_norm_rms_epsilon", "attention.layer_norm_rms_epsilon");
    lemma_key(p, ".rope.freq_base", "rope.freq_base");
}

/// A number without an entry, or with one that is no number, is zero; without a prefix all are.
pub proof fn absent_numbers_are_zero(m: MetadataSummary, metadata: Seq<Entry>)
    requires
        m.summarises(metadata),
    ensures
        m.metadata_prefix is None ==> m.num_attention_heads == 0 && m.num_kv_heads == 0
            && m.head_dim == 0 && m.num_layers == 0 && m.hidden_size == 0
            && m.max_position_embeddings == 0 && m.rms_norm_eps == FloatSetting::Default
            && m.rope_freq_base == FloatSetting::Default,
        view_of(m.metadata_prefix) matches Some(p) ==> {
            &&& gguf::value_of(metadata, p + ".attention.head_count_kv"@) is None ==> m.num_kv_heads
                == 0
            &&& gguf::value_of(metadata, p + ".attention.key_length"@) is None ==> m.head_dim == 0
            &&& gguf::value_of(metadata, p + ".block_count"@) is None ==> m.num_layers == 0
            &&& gguf::value_of(metadata, p + ".embedding_length"@) is None ==> m.hidden_size == 0
            &&& gguf::value_of(metadata, p + ".context_length"@) is None
                ==> m.max_position_embeddings == 0
            &&& gguf::value_of(metadata, p + ".attention.head_count"@) matches Some(
                MetaValue::Text(_),
            ) ==> m.num_attention_heads == 0
        },
{
    if let Some(p) = view_of(m.metadata_prefix) {
        lemma_keys(p);
    }
}

/// The settings of a summary are the floating-point numbers that stand under their keys, bit for
/// bit, and the defaults where no floating-point number stands there.
pub proof fn settings_are_read_under_their_keys(
    m: MetadataSummary,
    metadata: Seq<Entry>,
    p: Seq<char>,
    single: u32,
    double: u64,
)
    requires
        m.summarises(metadata),
        view_of(m.metadata_prefix) == Some(p),
    ensures
        ({
            let eps = gguf::value_of(metadata, p + ".attention.layer_norm_rms_epsilon"@);
            &&& eps == Some(MetaValue::F32(single)) ==> m.rms_norm_eps == FloatSetting::Single(
                single,
            )
            &&& eps == Some(MetaValue::F64(double)) ==> m.rms_norm_eps == FloatSetting::Double(
                double,
            )
            &&& eps is None ==> m.rms_norm_eps == FloatSetting::Default
            &&& eps matches Some(MetaValue::U32(_)) ==> m.rms_norm_eps == FloatSetting::Default
        }),
        ({
            let base = gguf::value_of(metadata, p + ".rope.freq_base"@);
            &&& base == Some(MetaValue::F32(single)) ==> m.rope_freq_base == FloatSetting::Single(
                single,
            )
            &&& base == Some(MetaValue::F64(double)) ==> m.rope_freq_base == FloatSetting::Double(
                double,
            )
            &&& base is None ==> m.rope_freq_base == FloatSetting::Default
            &&& base matches Some(MetaValue::U32(_)) ==> m.rope_freq_base == FloatSetting::Default
        }),
{
    lemma_keys(p);
}

/// The numbers that loading goes by are those of the summary, each under its own name.
pub proof fn loading_goes_by_the_summary(m: MetadataSummary, metadata: Seq<Entry>)
    requires
        m.summarises(metadata),
    ensures
        ({
            let numbers = numbers_of(metadata);
            &&& numbers == m.numbers()
            &&& numbers.architecture == m.architecture
            &&& numbers.heads == m.num_attention_heads
            &&& numbers.kv_heads == m.num_kv_heads
            &&& numbers.head_dim == m.head_dim
            &&& numbers.layers == m.num_layers
            &&& numbers.hidden_size == m.hidden_size
            &&& numbers.norm_eps == m.rms_norm_eps
        }),
{
}

/// A file gives a number of heads under the prefix of its keys, and a file without a prefix gives
/// none under any. Of the known prefixes the first that has one is taken, before the architecture
/// that the file names and before any other.
pub proof fn prefix_is_one_that_counts_heads(metadata: Seq<Entry>, named: Option<Seq<char>>)
    ensures
        prefix_of(metadata, named) matches Some(p) ==> gguf::value_of(
            metadata,
            p + ".attention.head_count"@,
        ) is Some,
        prefix_of(metadata, named) is None ==> forall|p: Seq<char>|
            gguf::value_of(metadata, #[trigger] (p + ".attention.head_count"@)) is None,
        ({
            let counts = |p: Seq<char>|
                gguf::value_of(metadata, p + ".attention.head_count"@) is Some;
            &&& counts("qwen3"@) ==> prefix_of(metadata, named) == Some("qwen3"@)
            &&& !counts("qwen3"@) && counts("qwen2"@) ==> prefix_of(metadata, named) == Some(
                "qwen2"@,
            )
            &&& !counts("qwen3"@) && !counts("qwen2"@) && counts("qwen35"@) ==> prefix_of(
                metadata,
                named,
            ) == Some("qwen35"@)
            &&& !counts("qwen3"@) && !counts("qwen2"@) && !counts("qwen35"@) ==> (
            named matches Some(p) ==> counts(p) ==> prefix_of(metadata, named) == Some(p))
        }),
{
    let suffix = ".attention.head_count"@;
    reveal_strlit("qwen3");
    reveal_strlit("qwen2");
    reveal_strlit("qwen35");
    reveal_strlit(".attention.head_count");
    reveal_strlit("qwen3.attention.head_count");
    reveal_strlit("qwen2.attention.head_count");
    reveal_strlit("qwen35.attention.head_count");
    assert("qwen3"@ + suffix =~= "qwen3.attention.head_count"@);
    assert("qwen2"@ + suffix =~= "qwen2.attention.head_count"@);
    assert("qwen35"@ + suffix =~= "qwen35.attention.head_count"@);
    lemma_first_before(metadata, suffix);
    assert forall|p: Seq<char>| prefix_of(metadata, named) is None implies gguf::value_of(
        metadata,
        #[trigger] (p + suffix),
    ) is None by {
        gguf::lemma_value_of(metadata, p + suffix);
        if gguf::value_of(metadata, p + suffix) is Some {
            let i = choose|i: int|
                0 <= i < metadata.len() && #[trigger] metadata[i].key@ == p + suffix
                    && metadata[i].value == gguf::value_of(metadata, p + suffix)->0;
            assert(metadata[i].key@.skip(p.len() as int) =~= suffix);
            assert(suffix.is_suffix_of(metadata[i].key@));
        }
    }
}

/// What precedes a suffix that was found is followed by it in some key.
proof fn lemma_first_before(metadata: Seq<Entry>, suffix: Seq<char>)
    ensures
        gguf::first_before(metadata, suffix) matches Some(p) ==> gguf::value_of(
            metadata,
            p + suffix,
        ) is Some,
        gguf::first_before(metadata, suffix) is None ==> forall|i: int|
            0 <= i < metadata.len() ==> !suffix.is_suffix_of(#[trigger] metadata[i].key@),
    decreases metadata.len(),
{
    if metadata.len() > 0 {
        let key = metadata[0].key@;
        let rest = metadata.drop_first();
        if suffix.is_suffix_of(key) {
            let p = key.take(key.len() - suffix.len());
            assert(p + suffix =~= key);
        } else {
            lemma_first_before(rest, suffix);
            if gguf::first_before(metadata, suffix) is None {
                assert forall|i: int| 0 <= i < metadata.len() implies !suffix.is_suffix_of(
                    #[trigger] metadata[i].key@,
                ) by {
                    if i > 0 {
                        assert(rest[i - 1].key@ == metadata[i].key@);
                    }
                }
            }
        }
    }
}

/// The architecture of a file goes by its prefix: the two newer prefixes mean the model that can be
/// run, the older one its predecessor, and no other prefix means a known model.
pub proof fn prefix_tells_the_architecture(prefix: Option<Seq<char>>)
    ensures
        architecture_of(prefix) == QuantizedArchitecture::Qwen3_5 <==> prefix == Some("qwen2"@)
            || prefix == Some("qwen35"@),
        architecture_of(prefix) == QuantizedArchitecture::Qwen3 <==> prefix == Some("qwen3"@),
{
    reveal_strlit("qwen3");
    reveal_strlit("qwen2");
    reveal_strlit("qwen35");
    assert("qwen2"@[4] != "qwen3"@[4]);
    assert("qwen35"@.len() != "qwen3"@.len());
}

/// The architecture that a file names is the text under its key, if there is one.
pub proof fn named_architecture_is_a_text(metadata: Seq<Entry>, name: String)
    ensures
        gguf::value_of(metadata, "general.architecture"@) == Some(MetaValue::Text(name))
            ==> named_architecture(metadata) == Some(name@),
        named_architecture(metadata) is Some ==> gguf::value_of(metadata, "general.architecture"@)
            matches Some(MetaValue::Text(_)),
{
}

/// Single precision is used exactly where the file asks for it with the number zero.
pub proof fn single_precision_is_asked_for(metadata: Seq<Entry>)
    ensures
        dtype_of(metadata) == DTypeKind::F32 <==> gguf::value_of(metadata, "general.dtype"@) == Some(
            MetaValue::U32(0),
        ),
        dtype_of(metadata) == DTypeKind::F32 || dtype_of(metadata) == DTypeKind::F16,
{
}

/// A model is loaded exactly where its architecture is the one that can be run, no number that it
/// needs is zero, no tensor is missing, and each of its layers can be loaded.
pub proof fn model_is_loaded_where_nothing_is_wrong(
    tensors: Seq<TensorInfo>,
    numbers: ModelNumbers,
)
    ensures
        model_fault(tensors, numbers) is None <==> {
            &&& numbers.architecture == QuantizedArchitecture::Qwen3_5
            &&& numbers.heads > 0
            &&& numbers.kv_heads > 0
            &&& numbers.head_dim > 0
            &&& numbers.layers > 0
            &&& numbers.hidden_size > 0
            &&& missing_in_model(tensors, numbers.layers as nat) is None
            &&& forall|i: nat|
                i < numbers.layers ==> loading::layer_fault(
                    tensors,
                    #[trigger] layer_facts(tensors, i),
                ) is None
        },
        numbers.architecture != QuantizedArchitecture::Qwen3_5 ==> model_fault(tensors, numbers)
            == Some(
            LoadFault::UnsupportedArchitecture { architecture: numbers.architecture },
        ),
        numbers.architecture == QuantizedArchitecture::Qwen3_5 && (numbers.heads == 0
            || numbers.kv_heads == 0 || numbers.head_dim == 0 || numbers.layers == 0
            || numbers.hidden_size == 0) ==> model_fault(tensors, numbers) == Some(
            LoadFault::IncompleteMetadata,
        ),
        incomplete(numbers) <==> numbers.heads == 0 || numbers.kv_heads == 0 || numbers.head_dim
            == 0 || numbers.layers == 0 || numbers.hidden_size == 0,
{
    lemma_layer_faults(tensors, 0, numbers.layers as nat);
}

proof fn lemma_layer_faults(tensors: Seq<TensorInfo>, from: nat, layers: nat)
    ensures
        crate::quantized_qwen3_5::fault_in_layers(tensors, from, layers) is None <==> forall|i: nat|
            from <= i < layers ==> loading::layer_fault(
                tensors,
                #[trigger] layer_facts(tensors, i),
            ) is None,
    decreases layers - from,
{
    if from < layers {
        lemma_layer_faults(tensors, from + 1, layers);
        assert(layer_facts(tensors, from) == layer_facts(tensors, from));
    }
}

/// An attention layer has the heads, the widths and the precision of the model. It has a norm or a
/// bias exactly where a tensor was found for it, and the width of its queries is that of their
/// projection.
pub proof fn attention_layer_is_built_from_its_tensors(
    tensors: Seq<TensorInfo>,
    l: LayerTensorNames,
    m: MetadataSummary,
)
    requires
        l.kind == LayerKind::FullAttention,
        m.num_kv_heads > 0,
    ensures
        loading::layer_of(tensors, l.facts(), m.numbers()) matches LayerWeights::FullAttention(w)
            && {
            &&& w.num_heads == m.num_attention_heads
            &&& w.num_kv_heads == m.num_kv_heads
            &&& w.num_kv_groups * w.num_kv_heads <= w.num_heads
            &&& w.num_heads - w.num_kv_groups * w.num_kv_heads < w.num_kv_heads
            &&& w.head_dim == m.head_dim
            &&& gguf::dims_of(tensors, l.q_proj@) matches Some(dims) ==> w.q_out_dim == dims[0]
            &&& w.q_norm == l.q_norm is Some
            &&& w.k_norm == l.k_norm is Some
            &&& w.q_bias == l.q_bias is Some
            &&& w.k_bias == l.k_bias is Some
            &&& w.v_bias == l.v_bias is Some
            &&& w.norm_eps == m.rms_norm_eps
            &&& !w.cached
        },
        loading::layer_fault(tensors, l.facts()) is None <==> (gguf::dims_of(tensors, l.q_proj@)
            matches Some(dims) && dims.len() == 2),
{
    let (h, k) = (m.num_attention_heads as int, m.num_kv_heads as int);
    vstd::arithmetic::div_mod::lemma_fundamental_div_mod(h, k);
    vstd::arithmetic::div_mod::lemma_mod_bound(h, k);
    assert(k * (h / k) == (h / k) * k) by (nonlinear_arith);
}

/// A recurrent layer takes its sizes from its tensors: the rows of the decay projection are its
/// heads, those of its gate its values, those of the joint projection queries, keys and values
/// together; keys and queries are equally many, the heads share them and the values evenly, and
/// the last dimension of the convolution is its reach.
pub proof fn recurrent_layer_is_built_from_its_tensors(
    tensors: Seq<TensorInfo>,
    l: LayerTensorNames,
    m: MetadataSummary,
)
    requires
        l.kind == LayerKind::StateSpace,
        loading::layer_fault(tensors, l.facts()) is None,
        !loading::headless(tensors, l.facts()),
    ensures
        loading::layer_of(tensors, l.facts(), m.numbers()) matches LayerWeights::StateSpace(w) && {
            let p = l.prefix@;
            &&& gguf::dims_of(tensors, p + ".ssm_alpha.weight"@) matches Some(d) && d.len() == 2
                && w.num_v_heads == d[0] && w.num_k_heads == d[0]
            &&& gguf::dims_of(tensors, l.q_proj@) matches Some(d) && d.len() == 2 && w.conv_dim
                == d[0]
            &&& gguf::dims_of(tensors, l.o_proj@) matches Some(d) && d.len() == 2 && w.value_dim
                == d[0]
            &&& gguf::dims_of(tensors, p + ".ssm_conv1d.weight"@) matches Some(d) && d.len() == 2
                && w.conv_kernel_size == d[1]
            &&& gguf::dims_of(tensors, p + ".ssm_norm.weight"@) matches Some(d) && d.len() == 1
                && w.head_v_dim == d[0]
            &&& w.conv_dim == 2 * w.key_dim + w.value_dim
            &&& w.num_k_heads * w.head_k_dim == w.key_dim
            &&& w.num_v_heads * w.head_v_dim == w.value_dim
            &&& w.norm_eps == m.rms_norm_eps
            &&& !w.primed
        },
        held(tensors, l.prefix@ + ".ssm_beta.weight"@),
        held(tensors, l.prefix@ + ".ssm_dt.bias"@),
        held(tensors, l.prefix@ + ".ssm_a"@),
        held(tensors, l.prefix@ + ".ssm_out.weight"@),
{
    let p = l.prefix@;
    lemma_held(tensors, p + ".ssm_beta.weight"@);
    lemma_held(tensors, p + ".ssm_dt.bias"@);
    lemma_held(tensors, p + ".ssm_a"@);
    lemma_held(tensors, p + ".ssm_out.weight"@);
    let w = loading::state_space_of(tensors, l.facts(), m.numbers());
    let (h, k, v) = (w.num_k_heads as int, w.key_dim as int, w.value_dim as int);
    let c = w.conv_dim as int;
    vstd::arithmetic::div_mod::lemma_fundamental_div_mod(k, h);
    vstd::arithmetic::div_mod::lemma_fundamental_div_mod(v, h);
    assert((c - v) / 2 * 2 == c - v) by (nonlinear_arith)
        requires
            (c - v) % 2 == 0,
    ;
    assert(0 <= (c - v) / 2 <= usize::MAX);
}

/// A layer of an unknown kind cannot be loaded, and says which layer it is.
pub proof fn unknown_layer_is_refused(tensors: Seq<TensorInfo>, l: LayerTensorNames)
    requires
        l.kind == LayerKind::Unknown,
    ensures
        loading::layer_fault(tensors, l.facts()) == Some(
            LoadFault::UnsupportedLayer { layer_idx: l.layer_idx as nat },
        ),
{
}

/// What loading looks at in a layer is what the names of the layer say.
pub proof fn facts_are_those_of_the_names(
    l: LayerTensorNames,
    tensors: Seq<TensorInfo>,
    layer: nat,
)
    requires
        l.names(tensors, layer),
    ensures
        ({
            let facts = layer_facts(tensors, layer);
            &&& facts == l.facts()
            &&& facts.layer_idx == l.layer_idx
            &&& facts.kind == l.kind
            &&& facts.prefix == l.prefix@
            &&& facts.q_proj == l.q_proj@
            &&& facts.o_proj == l.o_proj@
            &&& facts.q_norm == l.q_norm is Some
            &&& facts.k_norm == l.k_norm is Some
            &&& facts.q_bias == l.q_bias is Some
            &&& facts.k_bias == l.k_bias is Some
            &&& facts.v_bias == l.v_bias is Some
        }),
{
    let lists = layer_candidates(layer_prefix(layer));
    assert(gguf::first_existing(tensors, lists[2]) == Some(l.required_names()[2]));
    assert(gguf::first_existing(tensors, lists[5]) == Some(l.required_names()[5]));
}

/// The layers of a loaded model are as many as the file counts. The layer of every position is the
/// one whose names were found for this position, with the numbers of the file, and keeps nothing.
pub proof fn layers_are_loaded_in_their_order(m: ModelWeights, content: Content, i: int)
    requires
        m.loaded_from(content),
        0 <= i < m.layers@.len(),
    ensures
        m.layers@.len() == m.summary.num_layers,
        m.names.layers@.len() == m.layers@.len(),
        m.names.layers@[i].layer_idx == i,
        m.names.layers@[i].prefix@ == "blk."@ + text::decimal(i as nat),
        m.layers@[i] is FullAttention <==> m.names.layers@[i].kind == LayerKind::FullAttention,
        m.layers@[i] == loading::layer_of(
            content.tensors@,
            m.names.layers@[i].facts(),
            m.summary.numbers(),
        ),
        m.layers@[i].cleared() == m.layers@[i],
{
    loading_goes_by_the_summary(m.summary, content.metadata@);
    assert(m.names.layers@[i].names(content.tensors@, i as nat));
    facts_are_those_of_the_names(m.names.layers@[i], content.tensors@, i as nat);
}

}
