//! Which weights the dense model reads: the path and the size of each, against its part.
use crate::qwen3_5::{
    below, layer_path, model_path, Config, Model, Qwen3_5DecoderLayer, TokenMixer,
};
use crate::text;
use vstd::prelude::*;

verus! {

/// A name right below a path.
proof fn lemma_below(p: Seq<char>, a: &str, whole: &str)
    requires
        p.len() > 0,
        whole@ == "."@ + a@,
    ensures
        below(p, a@) == p + whole@,
{
    assert(p + "."@ + a@ =~= p + ("."@ + a@));
}

/// A name two steps below a path.
proof fn lemma_below_two(p: Seq<char>, a: &str, b: &str, whole: &str)
    requires
        p.len() > 0,
        whole@ == "."@ + a@ + "."@ + b@,
    ensures
        below(below(p, a@), b@) == p + whole@,
{
    reveal_strlit(".");
    assert(below(p, a@).len() > 0);
    assert(p + "."@ + a@ + "."@ + b@ =~= p + ("."@ + a@ + "."@ + b@));
}

/// The paths below that of a layer.
proof fn lemma_layer_paths(p: Seq<char>)
    requires
        p.len() > 0,
    ensures
        below(p, "self_attn"@) == p + ".self_attn"@,
        below(p, "linear_attn"@) == p + ".linear_attn"@,
        below(p, "mlp"@) == p + ".mlp"@,
        below(p, "input_layernorm"@) == p + ".input_layernorm"@,
        below(p, "post_attention_layernorm"@) == p + ".post_attention_layernorm"@,
        below(below(p, "self_attn"@), "q_proj"@) == p + ".self_attn.q_proj"@,
        below(below(p, "self_attn"@), "k_proj"@) == p + ".self_attn.k_proj"@,
        below(below(p, "self_attn"@), "v_proj"@) == p + ".self_attn.v_proj"@,
        below(below(p, "self_attn"@), "o_proj"@) == p + ".self_attn.o_proj"@,
        below(below(p, "self_attn"@), "q_norm"@) == p + ".self_attn.q_norm"@,
        below(below(p, "self_attn"@), "k_norm"@) == p + ".self_attn.k_norm"@,
        below(below(p, "linear_attn"@), "in_proj_qkv"@) == p + ".linear_attn.in_proj_qkv"@,
        below(below(p, "linear_attn"@), "in_proj_z"@) == p + ".linear_attn.in_proj_z"@,
        below(below(p, "linear_attn"@), "in_proj_b"@) == p + ".linear_attn.in_proj_b"@,
        below(below(p, "linear_attn"@), "in_proj_a"@) == p + ".linear_attn.in_proj_a"@,
        below(below(p, "linear_attn"@), "out_proj"@) == p + ".linear_attn.out_proj"@,
        below(below(p, "mlp"@), "gate_proj"@) == p + ".mlp.gate_proj"@,
        below(below(p, "mlp"@), "up_proj"@) == p + ".mlp.up_proj"@,
        below(below(p, "mlp"@), "down_proj"@) == p + ".mlp.down_proj"@,
{
    reveal_strlit(".");
    reveal_strlit("down_proj");
    reveal_strlit("gate_proj");
    reveal_strlit("in_proj_a");
    reveal_strlit("in_proj_b");
    reveal_strlit("in_proj_qkv");
    reveal_strlit("in_proj_z");
    reveal_strlit("input_layernorm");
    reveal_strlit("k_norm");
    reveal_strlit("k_proj");
    reveal_strlit("linear_attn");
    reveal_strlit("mlp");
    reveal_strlit("o_proj");
    reveal_strlit("out_proj");
    reveal_strlit("post_attention_layernorm");
    reveal_strlit("q_norm");
    reveal_strlit("q_proj");
    reveal_strlit("self_attn");
    reveal_strlit("up_proj");
    reveal_strlit("v_proj");
    reveal_strlit(".self_attn");
    assert("."@ + "self_attn"@ =~= ".self_attn"@);
    lemma_below(p, "self_attn", ".self_attn");
    reveal_strlit(".linear_attn");
    assert("."@ + "linear_attn"@ =~= ".linear_attn"@);
    lemma_below(p, "linear_attn", ".linear_attn");
    reveal_strlit(".mlp");
    assert("."@ + "mlp"@ =~= ".mlp"@);
    lemma_below(p, "mlp", ".mlp");
    reveal_strlit(".input_layernorm");
    assert("."@ + "input_layernorm"@ =~= ".input_layernorm"@);
    lemma_below(p, "input_layernorm", ".input_layernorm");
    reveal_strlit(".post_attention_layernorm");
    assert("."@ + "post_attention_layernorm"@ =~= ".post_attention_layernorm"@);
    lemma_below(p, "post_attention_layernorm", ".post_attention_layernorm");
    reveal_strlit(".self_attn.q_proj");
    assert("."@ + "self_attn"@ + "."@ + "q_proj"@ =~= ".self_attn.q_proj"@);
    lemma_below_two(p, "self_attn", "q_proj", ".self_attn.q_proj");
    reveal_strlit(".self_attn.k_proj");
    assert("."@ + "self_attn"@ + "."@ + "k_proj"@ =~= ".self_attn.k_proj"@);
    lemma_below_two(p, "self_attn", "k_proj", ".self_attn.k_proj");
    reveal_strlit(".self_attn.v_proj");
    assert("."@ + "self_attn"@ + "."@ + "v_proj"@ =~= ".self_attn.v_proj"@);
    lemma_below_two(p, "self_attn", "v_proj", ".self_attn.v_proj");
    reveal_strlit(".self_attn.o_proj");
    assert("."@ + "self_attn"@ + "."@ + "o_proj"@ =~= ".self_attn.o_proj"@);
    lemma_below_two(p, "self_attn", "o_proj", ".self_attn.o_proj");
    reveal_strlit(".self_attn.q_norm");
    assert("."@ + "self_attn"@ + "."@ + "q_norm"@ =~= ".self_attn.q_norm"@);
    lemma_below_two(p, "self_attn", "q_norm", ".self_attn.q_norm");
    reveal_strlit(".self_attn.k_norm");
    assert("."@ + "self_attn"@ + "."@ + "k_norm"@ =~= ".self_attn.k_norm"@);
    lemma_below_two(p, "self_attn", "k_norm", ".self_attn.k_norm");
    reveal_strlit(".linear_attn.in_proj_qkv");
    assert("."@ + "linear_attn"@ + "."@ + "in_proj_qkv"@ =~= ".linear_attn.in_proj_qkv"@);
    lemma_below_two(p, "linear_attn", "in_proj_qkv", ".linear_attn.in_proj_qkv");
    reveal_strlit(".linear_attn.in_proj_z");
    assert("."@ + "linear_attn"@ + "."@ + "in_proj_z"@ =~= ".linear_attn.in_proj_z"@);
    lemma_below_two(p, "linear_attn", "in_proj_z", ".linear_attn.in_proj_z");
    reveal_strlit(".linear_attn.in_proj_b");
    assert("."@ + "linear_attn"@ + "."@ + "in_proj_b"@ =~= ".linear_attn.in_proj_b"@);
    lemma_below_two(p, "linear_attn", "in_proj_b", ".linear_attn.in_proj_b");
    reveal_strlit(".linear_attn.in_proj_a");
    assert("."@ + "linear_attn"@ + "."@ + "in_proj_a"@ =~= ".linear_attn.in_proj_a"@);
    lemma_below_two(p, "linear_attn", "in_proj_a", ".linear_attn.in_proj_a");
    reveal_strlit(".linear_attn.out_proj");
    assert("."@ + "linear_attn"@ + "."@ + "out_proj"@ =~= ".linear_attn.out_proj"@);
    lemma_below_two(p, "linear_attn", "out_proj", ".linear_attn.out_proj");
    reveal_strlit(".mlp.gate_proj");
    assert("."@ + "mlp"@ + "."@ + "gate_proj"@ =~= ".mlp.gate_proj"@);
    lemma_below_two(p, "mlp", "gate_proj", ".mlp.gate_proj");
    reveal_strlit(".mlp.up_proj");
    assert("."@ + "mlp"@ + "."@ + "up_proj"@ =~= ".mlp.up_proj"@);
    lemma_below_two(p, "mlp", "up_proj", ".mlp.up_proj");
    reveal_strlit(".mlp.down_proj");
    assert("."@ + "mlp"@ + "."@ + "down_proj"@ =~= ".mlp.down_proj"@);
    lemma_below_two(p, "mlp", "down_proj", ".mlp.down_proj");
}

/// The weights of the language part stand below one path, those of a layer below its number.
proof fn lemma_model_paths(layer: nat)
    ensures
        below(model_path(), "embed_tokens"@) == "model.language_model.embed_tokens"@,
        below(model_path(), "norm"@) == "model.language_model.norm"@,
        layer_path(layer) == "model.language_model.layers."@ + text::decimal(layer),
        layer_path(layer).len() > 0,
{
    reveal_strlit(".");
    reveal_strlit("model");
    reveal_strlit("language_model");
    reveal_strlit("embed_tokens");
    reveal_strlit("norm");
    reveal_strlit("layers");
    reveal_strlit("model.language_model.embed_tokens");
    reveal_strlit("model.language_model.norm");
    reveal_strlit("model.language_model.layers.");
    let p = "model"@ + "."@ + "language_model"@;
    assert(model_path() == p);
    assert(p + "."@ + "embed_tokens"@ =~= "model.language_model.embed_tokens"@);
    assert(p + "."@ + "norm"@ =~= "model.language_model.norm"@);
    assert(p + "."@ + "layers"@ + "."@ =~= "model.language_model.layers."@);
    assert(layer_path(layer) =~= (p + "."@ + "layers"@ + "."@) + text::decimal(layer));
}

/// The embedding, the last norm and the tables of a model have the sizes of its configuration, and
/// the embedding and the norm stand under their own names.
pub proof fn model_reads_its_own_weights(m: Model, cfg: Config)
    requires
        m.is(cfg),
    ensures
        m.embed_tokens.path@ == "model.language_model.embed_tokens"@,
        m.embed_tokens.vocab_size == cfg.text_config.vocab_size,
        m.embed_tokens.hidden_size == cfg.text_config.hidden_size,
        m.norm.path@ == "model.language_model.norm"@,
        m.norm.dim == cfg.text_config.hidden_size,
        m.norm.eps == cfg.text_config.rms_norm_eps,
        m.layers@.len() == cfg.text_config.num_hidden_layers,
        m.rotary_emb.max_seq_len == cfg.text_config.max_position_embeddings,
        m.rotary_emb.theta == cfg.text_config.rope_parameters.rope_theta,
        cfg.text_config.head_dim matches Some(width) ==> m.rotary_emb.dim == width,
        cfg.text_config.head_dim is None ==> m.rotary_emb.dim == cfg.text_config.hidden_size
            / cfg.text_config.num_attention_heads,
{
    lemma_model_paths(0);
}

/// A layer is recurrent exactly where its type says so. Its norms and its feed-forward part stand
/// under their own names, below the number of the layer.
pub proof fn layer_reads_its_own_weights(m: Model, cfg: Config, i: int)
    requires
        m.is(cfg),
        0 <= i < m.layers@.len(),
    ensures
        ({
            let p = "model.language_model.layers."@ + text::decimal(i as nat);
            let l = m.layers@[i];
            let (hidden, inner) = (cfg.text_config.hidden_size, cfg.text_config.intermediate_size);
            &&& l.token_mixer is LinearAttention <==> i < cfg.text_config.layer_types@.len()
                && cfg.text_config.layer_types@[i]@ == "linear_attention"@
            &&& l.input_layernorm.path@ == p + ".input_layernorm"@
            &&& l.input_layernorm.dim == hidden
            &&& l.input_layernorm.eps == cfg.text_config.rms_norm_eps
            &&& l.post_attention_layernorm.path@ == p + ".post_attention_layernorm"@
            &&& l.post_attention_layernorm.dim == hidden
            &&& l.post_attention_layernorm.eps == cfg.text_config.rms_norm_eps
            &&& l.mlp.gate_proj.path@ == p + ".mlp.gate_proj"@
            &&& l.mlp.gate_proj.in_dim == hidden
            &&& l.mlp.gate_proj.out_dim == inner
            &&& !l.mlp.gate_proj.with_bias
            &&& l.mlp.up_proj.path@ == p + ".mlp.up_proj"@
            &&& l.mlp.up_proj.in_dim == hidden
            &&& l.mlp.up_proj.out_dim == inner
            &&& !l.mlp.up_proj.with_bias
            &&& l.mlp.down_proj.path@ == p + ".mlp.down_proj"@
            &&& l.mlp.down_proj.in_dim == inner
            &&& l.mlp.down_proj.out_dim == hidden
            &&& !l.mlp.down_proj.with_bias
        }),
{
    lemma_model_paths(i as nat);
    lemma_layer_paths(layer_path(i as nat));
    assert(m.layers@[i].is(cfg, i, layer_path(i as nat)));
}

/// The projections and norms of an attention layer stand under their own names. The query
/// projection has room for a gate beside each query.
pub proof fn attention_reads_its_own_weights(m: Model, cfg: Config, i: int)
    requires
        m.is(cfg),
        0 <= i < m.layers@.len(),
    ensures
        m.layers@[i].token_mixer matches TokenMixer::FullAttention(w) ==> {
            let p = "model.language_model.layers."@ + text::decimal(i as nat);
            let t = cfg.text_config;
            let d = m.rotary_emb.dim;
            &&& w.q_proj.path@ == p + ".self_attn.q_proj"@
            &&& w.q_proj.in_dim == t.hidden_size
            &&& w.q_proj.out_dim == t.num_attention_heads * d * 2
            &&& w.q_proj.with_bias == t.attention_bias
            &&& w.k_proj.path@ == p + ".self_attn.k_proj"@
            &&& w.k_proj.in_dim == t.hidden_size
            &&& w.k_proj.out_dim == t.num_key_value_heads * d
            &&& w.k_proj.with_bias == t.attention_bias
            &&& w.v_proj.path@ == p + ".self_attn.v_proj"@
            &&& w.v_proj.in_dim == t.hidden_size
            &&& w.v_proj.out_dim == t.num_key_value_heads * d
            &&& w.v_proj.with_bias == t.attention_bias
            &&& w.o_proj.path@ == p + ".self_attn.o_proj"@
            &&& w.o_proj.in_dim == t.num_attention_heads * d
            &&& w.o_proj.out_dim == t.hidden_size
            &&& w.o_proj.with_bias == t.attention_bias
            &&& w.q_norm.path@ == p + ".self_attn.q_norm"@
            &&& w.q_norm.dim == d
            &&& w.q_norm.eps == t.rms_norm_eps
            &&& w.k_norm.path@ == p + ".self_attn.k_norm"@
            &&& w.k_norm.dim == d
            &&& w.k_norm.eps == t.rms_norm_eps
            &&& w.dims.num_heads == t.num_attention_heads
            &&& w.dims.num_kv_heads == t.num_key_value_heads
            &&& w.dims.num_kv_groups == t.num_attention_heads / t.num_key_value_heads
            &&& w.dims.head_dim == d
            &&& w.rotary_emb == m.rotary_emb
        },
{
    lemma_model_paths(i as nat);
    lemma_layer_paths(layer_path(i as nat));
    assert(m.layers@[i].is(cfg, i, layer_path(i as nat)));
}

/// The projections of a recurrent layer stand under their own names, and its sizes are those of the
/// configuration: queries and keys, and then values, share the channels of the convolution.
pub proof fn recurrence_reads_its_own_weights(m: Model, cfg: Config, i: int)
    requires
        m.is(cfg),
        cfg.delta_net_fits(),
        0 <= i < m.layers@.len(),
    ensures
        m.layers@[i].token_mixer matches TokenMixer::LinearAttention(w) ==> {
            let p = "model.language_model.layers."@ + text::decimal(i as nat);
            let t = cfg.text_config;
            let d = w.dims;
            &&& w.path@ == p + ".linear_attn"@
            &&& w.in_proj_qkv.path@ == p + ".linear_attn.in_proj_qkv"@
            &&& w.in_proj_qkv.in_dim == t.hidden_size
            &&& w.in_proj_qkv.out_dim == d.conv_dim
            &&& w.in_proj_z.path@ == p + ".linear_attn.in_proj_z"@
            &&& w.in_proj_z.in_dim == t.hidden_size
            &&& w.in_proj_z.out_dim == d.value_dim
            &&& w.in_proj_b.path@ == p + ".linear_attn.in_proj_b"@
            &&& w.in_proj_b.in_dim == t.hidden_size
            &&& w.in_proj_b.out_dim == t.linear_num_value_heads
            &&& w.in_proj_a.path@ == p + ".linear_attn.in_proj_a"@
            &&& w.in_proj_a.in_dim == t.hidden_size
            &&& w.in_proj_a.out_dim == t.linear_num_value_heads
            &&& w.out_proj.path@ == p + ".linear_attn.out_proj"@
            &&& w.out_proj.in_dim == d.value_dim
            &&& w.out_proj.out_dim == t.hidden_size
            &&& !w.in_proj_qkv.with_bias && !w.in_proj_z.with_bias && !w.in_proj_b.with_bias
                && !w.in_proj_a.with_bias && !w.out_proj.with_bias
            &&& d.num_v_heads == t.linear_num_value_heads
            &&& d.num_k_heads == t.linear_num_key_heads
            &&& d.head_k_dim == t.linear_key_head_dim
            &&& d.head_v_dim == t.linear_value_head_dim
            &&& d.key_dim == t.linear_key_head_dim * t.linear_num_key_heads
            &&& d.value_dim == t.linear_value_head_dim * t.linear_num_value_heads
            &&& d.conv_dim == 2 * d.key_dim + d.value_dim
            &&& d.conv_kernel_size == t.linear_conv_kernel_dim
            &&& d.norm_eps == t.rms_norm_eps
        },
{
    lemma_model_paths(i as nat);
    lemma_layer_paths(layer_path(i as nat));
    assert(m.layers@[i].is(cfg, i, layer_path(i as nat)));
    let t = cfg.text_config;
    assert(0 <= t.linear_key_head_dim * t.linear_num_key_heads) by (nonlinear_arith);
    assert(0 <= t.linear_value_head_dim * t.linear_num_value_heads) by (nonlinear_arith);
}

/// What the formulas of a layer depend on are the settings of its own norms, the sizes of its token
/// mixer, and whether it has kept something.
pub proof fn formulas_go_by_the_weights(l: Qwen3_5DecoderLayer)
    ensures
        l@.input_eps == l.input_layernorm.eps,
        l@.post_eps == l.post_attention_layernorm.eps,
        l.token_mixer matches TokenMixer::FullAttention(w) ==> (
        l@.mixer matches crate::qwen3_5::MixerState::FullAttention(s) && s.dims == w.dims
            && s.query_eps == w.q_norm.eps && s.key_eps == w.k_norm.eps && s.cached == w.cached),
        l.token_mixer matches TokenMixer::LinearAttention(w) ==> l@.mixer == (
        crate::qwen3_5::MixerState::LinearAttention { dims: w.dims, primed: w.primed }),
{
}

/// A name below a path: behind a dot, or alone where there is no path.
pub proof fn names_stand_behind_a_dot(path: Seq<char>, name: Seq<char>)
    ensures
        path.len() > 0 ==> below(path, name) == path + "."@ + name,
        path.len() == 0 ==> below(path, name) == name,
        name.is_suffix_of(below(path, name)),
{
    if path.len() > 0 {
        let whole = below(path, name);
        assert(whole.subrange(whole.len() - name.len(), whole.len() as int) =~= name);
    } else {
        assert(name.subrange(0, name.len() as int) =~= name);
    }
}

/// A configuration can be loaded exactly where nothing is divided by zero and every width that is
/// needed fits in a machine word: those of attention where some layer has attention, those of the
/// recurrence where some layer is recurrent.
pub proof fn configurations_that_load(cfg: Config)
    ensures
        cfg.loads() <==> {
            let t = cfg.text_config;
            let d = match t.head_dim {
                Some(width) => width,
                None => t.hidden_size / t.num_attention_heads,
            };
            &&& t.num_attention_heads > 0
            &&& (exists|i: int|
                0 <= i < t.num_hidden_layers && !#[trigger] cfg.is_linear(i)) ==> {
                &&& t.num_key_value_heads > 0
                &&& t.num_attention_heads * d * 2 <= usize::MAX
                &&& d * 2 <= usize::MAX
                &&& t.num_key_value_heads * d <= usize::MAX
            }
            &&& (exists|i: int| 0 <= i < t.num_hidden_layers && #[trigger] cfg.is_linear(i)) ==> (
            t.linear_key_head_dim * t.linear_num_key_heads) * 2 + t.linear_value_head_dim
                * t.linear_num_value_heads <= usize::MAX
        },
{
    let t = cfg.text_config;
    if cfg.loads() {
        assert forall|i: int| 0 <= i < t.num_hidden_layers implies (if #[trigger] cfg.is_linear(i) {
            cfg.delta_net_fits()
        } else {
            t.num_key_value_heads > 0 && cfg.attention_dims().fits()
        }) by {
            assert(cfg.layer_loads(i));
        }
    }
    assert forall|i: int| 0 <= i < t.num_hidden_layers implies #[trigger] cfg.layer_loads(i) == (
    if cfg.is_linear(i) {
        cfg.delta_net_fits()
    } else {
        t.num_key_value_heads != 0 && cfg.attention_dims().fits()
    }) by {}
}

/// A pass and clearing keep the weights: what they leave is still a model of the configuration.
pub proof fn weights_stay_those_of_the_configuration(before: Model, after: Model, cfg: Config)
    requires
        before.is(cfg),
        after.same_weights(before),
    ensures
        after.is(cfg),
{
    assert forall|i: int| 0 <= i < after.layers@.len() implies (#[trigger] after.layers@[i]).is(
        cfg,
        i,
        layer_path(i as nat),
    ) && after.layers@[i].rotates_by(after.rotary_emb) by {
        assert(after.layers@[i].same_weights(before.layers@[i]));
        assert(before.layers@[i].is(cfg, i, layer_path(i as nat)));
        assert(before.layers@[i].rotates_by(before.rotary_emb));
    }
}

}
