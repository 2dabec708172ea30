use candle_core::quantized::gguf_file::Value;
use qwen_runner::gguf::{
    Content, Entry, MetaValue, TensorInfo, annotate_gguf_read_error,
    first_existing_tensor, first_key_before, ggml_dtype_name, lookup, parse_unknown_gguf_dtype,
    require_tensor, tensor_dims,
};
use qwen_runner::graph::{FloatSetting, Node, Projection, Slot};
use qwen_runner::loading::{LayerWeights, LoadError, incomplete_metadata};
use qwen_runner::pass::Kept;
use qwen_runner::quantized_qwen3_5::{
    LayerKind, LayerTensorNames, MetadataSummary, ModelWeights, QuantizedArchitecture,
    TensorNameMap, detect_metadata_prefix, recurrent_layers_have_heads,
};
use qwen_runner::qwen3_5::{
    Config, ModelForCausalLM, RopeParameters, TextConfig, TokenMixer, child,
};
use qwen_runner::runtime::DTypeKind;

fn entry(key: &str, value: MetaValue) -> Entry {
    Entry {
        key: key.to_string(),
        value,
    }
}

fn tensor(name: &str, dims: &[usize]) -> TensorInfo {
    TensorInfo {
        name: name.to_string(),
        dims: dims.to_vec(),
    }
}

fn strings(list: &[&str]) -> Vec<String> {
    list.iter().map(|item| item.to_string()).collect()
}

fn metadata() -> Vec<Entry> {
    vec![
        entry("general.architecture", MetaValue::Text("qwen35".to_string())),
        entry("qwen35.attention.head_count", MetaValue::U32(4)),
        entry("qwen35.attention.head_count_kv", MetaValue::U64(2)),
        entry("qwen35.attention.key_length", MetaValue::U16(6)),
        entry("qwen35.block_count", MetaValue::U8(2)),
        entry("qwen35.embedding_length", MetaValue::U32(5)),
        entry("qwen35.context_length", MetaValue::U32(10)),
        entry("qwen35.rope.freq_base", MetaValue::F32(1000f32.to_bits())),
        entry("general.dtype", MetaValue::U32(0)),
    ]
}

fn common(layer: usize) -> Vec<TensorInfo> {
    vec![
        tensor(&format!("blk.{layer}.attn_norm.weight"), &[5]),
        tensor(&format!("blk.{layer}.post_attention_norm.weight"), &[5]),
        tensor(&format!("blk.{layer}.ffn_gate.weight"), &[7, 5]),
        tensor(&format!("blk.{layer}.ffn_up.weight"), &[7, 5]),
        tensor(&format!("blk.{layer}.ffn_down.weight"), &[5, 7]),
    ]
}

fn attention_layer(layer: usize) -> Vec<TensorInfo> {
    let mut tensors = common(layer);
    tensors.push(tensor(&format!("blk.{layer}.attn_q.weight"), &[48, 5]));
    tensors.push(tensor(&format!("blk.{layer}.attn_k.weight"), &[12, 5]));
    tensors.push(tensor(&format!("blk.{layer}.attn_v.weight"), &[12, 5]));
    tensors.push(tensor(&format!("blk.{layer}.attn_output.weight"), &[5, 24]));
    tensors.push(tensor(&format!("blk.{layer}.attn_q_norm.weight"), &[6]));
    tensors
}

fn recurrent_layer(layer: usize) -> Vec<TensorInfo> {
    let mut tensors = common(layer);
    tensors.push(tensor(&format!("blk.{layer}.attn_qkv.weight"), &[20, 5]));
    tensors.push(tensor(&format!("blk.{layer}.attn_gate.weight"), &[8, 5]));
    tensors.push(tensor(&format!("blk.{layer}.ssm_alpha.weight"), &[2, 5]));
    tensors.push(tensor(&format!("blk.{layer}.ssm_conv1d.weight"), &[20, 4]));
    tensors.push(tensor(&format!("blk.{layer}.ssm_norm.weight"), &[4]));
    tensors.push(tensor(&format!("blk.{layer}.ssm_beta.weight"), &[2, 5]));
    tensors.push(tensor(&format!("blk.{layer}.ssm_dt.bias"), &[2]));
    tensors.push(tensor(&format!("blk.{layer}.ssm_a"), &[2]));
    tensors.push(tensor(&format!("blk.{layer}.ssm_out.weight"), &[5, 8]));
    tensors
}

fn content() -> Content {
    let mut tensors = vec![
        tensor("token_embd.weight", &[11, 5]),
        tensor("output_norm.weight", &[5]),
    ];
    tensors.extend(recurrent_layer(0));
    tensors.extend(attention_layer(1));
    Content {
        metadata: metadata(),
        tensors,
    }
}

fn change(content: &mut Content, name: &str, dims: &[usize]) {
    for info in &mut content.tensors {
        if info.name == name {
            info.dims = dims.to_vec();
        }
    }
}

fn remove(content: &mut Content, name: &str) {
    content.tensors.retain(|info| info.name != name);
}

fn refused(content: &Content) -> String {
    ModelWeights::from_gguf(content).unwrap_err().message()
}

#[test]
fn metadata_values_are_converted() {
    assert_eq!(MetaValue::U64(9).as_u64(), Some(9));
    assert_eq!(MetaValue::U8(9).as_u64(), Some(9));
    assert_eq!(MetaValue::U16(9).as_u64(), Some(9));
    assert_eq!(MetaValue::U32(9).as_u64(), Some(9));
    assert_eq!(MetaValue::Bool(true).as_u64(), Some(1));
    assert_eq!(MetaValue::Bool(false).as_u64(), Some(0));
    assert_eq!(MetaValue::I64(9).as_u64(), None);
    assert_eq!(MetaValue::Array.as_u64(), None);
    assert_eq!(MetaValue::Text("x".to_string()).as_string(), Some("x".to_string()));
    assert_eq!(MetaValue::U8(1).as_string(), None);
    assert_eq!(MetaValue::F64(3).as_f64(), FloatSetting::Double(3));
    assert_eq!(MetaValue::F32(3).as_f64(), FloatSetting::Single(3));
    assert_eq!(MetaValue::U8(3).as_f64(), FloatSetting::Default);
}

#[test]
fn candle_converts_metadata_values_likewise() {
    assert_eq!(Value::Bool(true).to_u64().ok(), MetaValue::Bool(true).as_u64());
    assert_eq!(Value::U16(7).to_u64().ok(), MetaValue::U16(7).as_u64());
    assert_eq!(Value::I32(7).to_u64().ok(), MetaValue::I32(7).as_u64());
    assert_eq!(Value::F32(7.0).to_u64().ok(), MetaValue::F32(0).as_u64());
    assert!(Value::U64(0).to_u32().is_err());
    assert!(Value::F32(1.0).to_f64().is_err());
}

#[test]
fn entries_and_tensors_are_found_by_name() {
    let content = content();
    assert!(lookup(&content.metadata, "qwen35.block_count").is_some());
    assert!(lookup(&content.metadata, "block_count").is_none());
    let dims = tensor_dims(&content.tensors, "token_embd.weight").unwrap();
    assert_eq!(dims, &vec![11, 5]);
    assert!(tensor_dims(&content.tensors, "nothing").is_none());
    assert_eq!(
        first_key_before(&content.metadata, ".block_count"),
        Some("qwen35".to_string())
    );
    assert_eq!(first_key_before(&content.metadata, ".missing"), None);
    let candidates = strings(&["nothing", "output_norm.weight", "token_embd.weight"]);
    assert_eq!(
        first_existing_tensor(&content.tensors, &candidates),
        Some("output_norm.weight".to_string())
    );
    let error = require_tensor(&content.tensors, strings(&["x", "y"])).unwrap_err();
    assert_eq!(error.message(), "missing tensor; tried candidates: x, y");
}

#[test]
fn values_do_not_depend_on_the_order_of_the_entries() {
    let mut reversed = metadata();
    reversed.reverse();
    let forward = MetadataSummary::detect(&metadata());
    let backward = MetadataSummary::detect(&reversed);
    assert_eq!(format!("{forward:?}"), format!("{backward:?}"));
}

#[test]
fn prefixes_are_detected_in_order() {
    let heads = |prefix: &str| entry(&format!("{prefix}.attention.head_count"), MetaValue::U8(1));
    let known = vec![heads("qwen35"), heads("qwen2"), heads("qwen3")];
    assert_eq!(detect_metadata_prefix(&known, None), Some("qwen3".to_string()));
    let known = vec![heads("other"), heads("qwen35"), heads("qwen2")];
    assert_eq!(detect_metadata_prefix(&known, Some("other")), Some("qwen2".to_string()));
    let others = vec![heads("x"), heads("y")];
    assert_eq!(detect_metadata_prefix(&others, Some("y")), Some("y".to_string()));
    assert_eq!(detect_metadata_prefix(&others, Some("z")), Some("x".to_string()));
    assert_eq!(detect_metadata_prefix(&Vec::new(), Some("z")), None);
}

#[test]
fn metadata_are_summarised() {
    let summary = MetadataSummary::detect(&metadata());
    assert_eq!(summary.architecture, QuantizedArchitecture::Qwen3_5);
    assert_eq!(summary.metadata_prefix, Some("qwen35".to_string()));
    assert_eq!(summary.general_architecture, Some("qwen35".to_string()));
    assert_eq!(summary.num_attention_heads, 4);
    assert_eq!(summary.num_kv_heads, 2);
    assert_eq!(summary.head_dim, 6);
    assert_eq!(summary.num_layers, 2);
    assert_eq!(summary.hidden_size, 5);
    assert_eq!(summary.max_position_embeddings, 10);
    assert_eq!(summary.rms_norm_eps, FloatSetting::Default);
    assert_eq!(summary.rope_freq_base, FloatSetting::Single(1000f32.to_bits()));
    let nothing = MetadataSummary::detect(&Vec::new());
    assert_eq!(nothing.architecture, QuantizedArchitecture::Unknown);
    assert_eq!(nothing.num_layers, 0);
    let old = vec![entry("qwen3.attention.head_count", MetaValue::I32(4))];
    let old = MetadataSummary::detect(&old);
    assert_eq!(old.architecture, QuantizedArchitecture::Qwen3);
    assert_eq!(old.num_attention_heads, 0);
}

#[test]
fn layers_are_named_by_their_tensors() {
    let content = content();
    let recurrent = LayerTensorNames::detect(&content.tensors, 0).unwrap();
    assert_eq!(recurrent.kind, LayerKind::StateSpace);
    assert_eq!(recurrent.prefix, "blk.0");
    assert_eq!(recurrent.q_proj, "blk.0.attn_qkv.weight");
    assert_eq!(recurrent.k_proj, "blk.0.attn_qkv.weight");
    assert_eq!(recurrent.o_proj, "blk.0.attn_gate.weight");
    assert_eq!(recurrent.ffn_norm, "blk.0.post_attention_norm.weight");
    assert_eq!(recurrent.q_norm, None);
    let attention = LayerTensorNames::detect(&content.tensors, 1).unwrap();
    assert_eq!(attention.kind, LayerKind::FullAttention);
    assert_eq!(attention.layer_idx, 1);
    assert_eq!(attention.q_proj, "blk.1.attn_q.weight");
    assert_eq!(attention.o_proj, "blk.1.attn_output.weight");
    assert_eq!(attention.q_norm, Some("blk.1.attn_q_norm.weight".to_string()));
    assert_eq!(attention.k_norm, None);
    let missing = LayerTensorNames::detect(&content.tensors, 2).unwrap_err();
    assert_eq!(missing.candidates, strings(&["blk.2.attn_norm.weight"]));
}

#[test]
fn models_are_named_by_their_tensors() {
    let mut content = content();
    let summary = MetadataSummary::detect(&content.metadata);
    let names = TensorNameMap::detect(&content.tensors, &summary).unwrap();
    assert_eq!(names.output, "token_embd.weight");
    assert_eq!(names.layers.len(), 2);
    content.tensors.push(tensor("output.weight", &[11, 5]));
    let names = TensorNameMap::detect(&content.tensors, &summary).unwrap();
    assert_eq!(names.output, "output.weight");
    remove(&mut content, "blk.1.attn_v.weight");
    let missing = TensorNameMap::detect(&content.tensors, &summary).unwrap_err();
    assert_eq!(
        missing.candidates,
        strings(&["blk.1.attn_v.weight", "blk.1.attn_qkv.weight"])
    );
    remove(&mut content, "output_norm.weight");
    let missing = TensorNameMap::detect(&content.tensors, &summary).unwrap_err();
    assert_eq!(missing.candidates, strings(&["output_norm.weight"]));
    remove(&mut content, "token_embd.weight");
    let missing = TensorNameMap::detect(&content.tensors, &summary).unwrap_err();
    assert_eq!(missing.candidates, strings(&["token_embd.weight"]));
}

#[test]
fn models_are_loaded_from_their_description() {
    let content = content();
    assert!(recurrent_layers_have_heads(&content));
    let mut model = ModelWeights::from_gguf(&content).unwrap();
    assert_eq!(model.dtype, DTypeKind::F32);
    assert!(model.is_runnable());
    match model.layers[0] {
        LayerWeights::StateSpace(w) => {
            assert_eq!((w.num_v_heads, w.num_k_heads), (2, 2));
            assert_eq!((w.key_dim, w.value_dim, w.conv_dim), (6, 8, 20));
            assert_eq!((w.head_k_dim, w.head_v_dim, w.conv_kernel_size), (3, 4, 4));
        }
        LayerWeights::FullAttention(_) => panic!("attention"),
    }
    match model.layers[1] {
        LayerWeights::FullAttention(w) => {
            assert_eq!((w.num_heads, w.num_kv_heads, w.num_kv_groups), (4, 2, 2));
            assert_eq!((w.head_dim, w.q_out_dim), (6, 48));
            assert!(w.q_norm && !w.k_norm && !w.q_bias);
        }
        LayerWeights::StateSpace(_) => panic!("recurrence"),
    }
    let fresh = model.layers.clone();
    let pass = model.forward(1, 3, 0);
    assert!(pass.mask.is_some());
    assert_eq!(pass.layers.len(), 2);
    assert!(matches!(pass.layers[0].kept, Kept::StateSpace { .. }));
    assert!(matches!(pass.layers[1].kept, Kept::Attention { .. }));
    assert!(matches!(&*pass.hidden, Node::Embed { ids } if **ids == Node::Leaf(Slot::Input)));
    assert!(matches!(&*pass.last, Node::Linear { map: Projection::Head, .. }));
    assert_ne!(model.layers, fresh);
    assert!(model.forward(1, 1, 3).mask.is_none());
    model.clear_kv_cache();
    assert_eq!(model.layers, fresh);
}

#[test]
fn half_precision_is_the_default() {
    let mut content = content();
    content.metadata.pop();
    assert_eq!(ModelWeights::from_gguf(&content).unwrap().dtype, DTypeKind::F16);
    content.metadata.push(entry("general.dtype", MetaValue::U64(0)));
    assert_eq!(ModelWeights::from_gguf(&content).unwrap().dtype, DTypeKind::F16);
    content.metadata.pop();
    content.metadata.push(entry("general.dtype", MetaValue::U32(1)));
    assert_eq!(ModelWeights::from_gguf(&content).unwrap().dtype, DTypeKind::F16);
}

#[test]
fn unsuitable_files_are_refused() {
    let mut other = content();
    other.metadata = vec![entry("qwen3.attention.head_count", MetaValue::U8(1))];
    assert_eq!(
        refused(&other),
        "quantized_qwen3_5 received unsupported architecture Qwen3"
    );
    other.metadata.clear();
    assert_eq!(
        refused(&other),
        "quantized_qwen3_5 received unsupported architecture Unknown"
    );

    let mut incomplete = content();
    incomplete.metadata.remove(3);
    assert!(matches!(
        ModelWeights::from_gguf(&incomplete),
        Err(LoadError::IncompleteMetadata)
    ));
    assert_eq!(refused(&incomplete), "incomplete qwen3.5 gguf metadata");
    assert_eq!(incomplete_metadata("{}"), "incomplete qwen3.5 gguf metadata: {}");

    let mut missing = content();
    remove(&mut missing, "blk.0.ffn_up.weight");
    assert_eq!(
        refused(&missing),
        "missing tensor; tried candidates: blk.0.ffn_up.weight"
    );
    let mut missing = content();
    remove(&mut missing, "blk.0.ssm_norm.weight");
    assert_eq!(refused(&missing), "missing tensor info for blk.0.ssm_norm.weight");
    for suffix in ["ssm_beta.weight", "ssm_dt.bias", "ssm_a", "ssm_out.weight"] {
        let mut missing = content();
        let name = format!("blk.0.{suffix}");
        remove(&mut missing, &name);
        assert_eq!(refused(&missing), format!("cannot find tensor info for {name}"));
    }
    let mut unnamed = content();
    remove(&mut unnamed, "blk.0.attn_qkv.weight");
    assert_eq!(
        refused(&unnamed),
        "missing tensor; tried candidates: blk.0.attn_q.weight, blk.0.attn_qkv.weight"
    );
}

#[test]
fn unsuitable_dimensions_are_refused() {
    let refusal = |name: &str, dims: &[usize]| {
        let mut changed = content();
        change(&mut changed, name, dims);
        refused(&changed)
    };
    assert_eq!(
        refusal("blk.1.attn_q.weight", &[48, 5, 1]),
        "unexpected rank, expected: 2, got: 3 ([48, 5, 1])"
    );
    assert_eq!(
        refusal("blk.0.ssm_norm.weight", &[]),
        "unexpected rank, expected: 1, got: 0 ([])"
    );
    assert_eq!(
        refusal("blk.0.ssm_alpha.weight", &[3, 5]),
        "invalid qwen3.5 state-space value_dim 8 for 3 heads"
    );
    assert_eq!(
        refusal("blk.0.attn_qkv.weight", &[19, 5]),
        "invalid qwen3.5 state-space conv_dim 19 and value_dim 8"
    );
    assert_eq!(
        refusal("blk.0.attn_qkv.weight", &[6, 5]),
        "invalid qwen3.5 state-space conv_dim 6 and value_dim 8"
    );
    assert_eq!(
        refusal("blk.0.attn_qkv.weight", &[18, 5]),
        "invalid qwen3.5 state-space key_dim 5 for 2 heads"
    );
    assert_eq!(
        refusal("blk.0.ssm_norm.weight", &[5]),
        "qwen3.5 state-space head_v_dim mismatch: norm=5, derived=4"
    );
    assert_eq!(
        LoadError::UnsupportedLayer { layer_idx: 3 }.message(),
        "layer 3 uses unsupported quantized qwen3.5 layout (Unknown)"
    );
    let mut headless = content();
    change(&mut headless, "blk.0.ssm_alpha.weight", &[0, 5]);
    assert!(!recurrent_layers_have_heads(&headless));
    remove(&mut headless, "blk.0.ssm_norm.weight");
    assert!(recurrent_layers_have_heads(&headless));
    assert_eq!(refused(&headless), "missing tensor info for blk.0.ssm_norm.weight");
    let mut kernelless = content();
    change(&mut kernelless, "blk.0.ssm_conv1d.weight", &[20, 0]);
    assert!(!ModelWeights::from_gguf(&kernelless).unwrap().is_runnable());
}

#[test]
fn unknown_tensor_formats_are_explained() {
    assert_eq!(parse_unknown_gguf_dtype("x: unknown dtype for tensor 20"), Some(20));
    assert_eq!(parse_unknown_gguf_dtype("unknown dtype for tensor  31 y"), Some(31));
    assert_eq!(parse_unknown_gguf_dtype("unknown dtype for tensor x"), None);
    assert_eq!(parse_unknown_gguf_dtype("unknown dtype for tensor "), None);
    assert_eq!(parse_unknown_gguf_dtype("unknown dtype for tensor 4294967296"), None);
    assert_eq!(parse_unknown_gguf_dtype("other"), None);
    let formats = [
        "IQ2_XXS", "IQ2_XS", "IQ3_XXS", "IQ1_S", "IQ4_NL", "IQ3_S", "IQ2_S", "IQ4_XS", "I8",
        "I16", "I32", "I64", "F64", "IQ1_M", "BF16",
    ];
    for (i, name) in formats.iter().enumerate() {
        assert_eq!(ggml_dtype_name(16 + i as u32), Some(*name));
    }
    assert_eq!(ggml_dtype_name(15), None);
    assert_eq!(ggml_dtype_name(31), None);
    let supported = "supported candle-core 0.9.2 dtypes: F32, F16, BF16, Q4_0, Q4_1, Q5_0, Q5_1, Q8_0, Q8_1, Q2_K, Q3_K, Q4_K, Q5_K, Q6_K, Q8_K";
    assert_eq!(
        annotate_gguf_read_error("unknown dtype for tensor 20", "/m.gguf"),
        Some(format!(
            "gguf file /m.gguf uses unsupported ggml dtype 20 (IQ4_NL). {supported}"
        ))
    );
    assert_eq!(
        annotate_gguf_read_error("unknown dtype for tensor 99", "/m.gguf"),
        Some(format!(
            "gguf file /m.gguf uses unsupported ggml dtype 99 (unknown/newer ggml dtype). {supported}"
        ))
    );
    assert_eq!(annotate_gguf_read_error("broken", "/m.gguf"), None);
}

fn config() -> Config {
    Config {
        text_config: TextConfig {
            vocab_size: 11,
            hidden_size: 8,
            intermediate_size: 7,
            num_hidden_layers: 3,
            num_attention_heads: 4,
            num_key_value_heads: 2,
            head_dim: Some(6),
            max_position_embeddings: 10,
            rms_norm_eps: 1e-6f64.to_bits(),
            rope_parameters: RopeParameters {
                rope_theta: 1e7f64.to_bits(),
            },
            attention_bias: true,
            layer_types: strings(&["linear_attention", "full_attention"]),
            linear_num_key_heads: 2,
            linear_num_value_heads: 4,
            linear_key_head_dim: 3,
            linear_value_head_dim: 5,
            linear_conv_kernel_dim: 4,
        },
    }
}

#[test]
fn head_widths_are_given_or_shared() {
    let mut config = config();
    assert_eq!(config.head_dim(), 6);
    config.text_config.head_dim = None;
    assert_eq!(config.head_dim(), 2);
    assert_eq!(f64::from_bits(config.rope_theta()), 1e7);
}

#[test]
fn weights_stand_below_their_paths() {
    assert_eq!(child("", "a"), "a");
    assert_eq!(child("a.b", "c"), "a.b.c");
    let config = config();
    assert!(config.can_load());
    let model = ModelForCausalLM::new(&config, true);
    let base = &model.base_model;
    assert!(base.is_runnable());
    assert_eq!(base.embed_tokens.path, "model.language_model.embed_tokens");
    assert_eq!(base.norm.path, "model.language_model.norm");
    assert_eq!((base.rotary_emb.dim, base.rotary_emb.max_seq_len), (6, 10));
    let head = model.lm_head.as_ref().unwrap();
    assert_eq!((head.path.as_str(), head.in_dim, head.out_dim), ("lm_head", 8, 11));
    assert!(ModelForCausalLM::new(&config, false).lm_head.is_none());
    match &base.layers[0].token_mixer {
        TokenMixer::LinearAttention(net) => {
            assert_eq!(net.path, "model.language_model.layers.0.linear_attn");
            assert_eq!((net.dims.key_dim, net.dims.value_dim, net.dims.conv_dim), (6, 20, 32));
            assert_eq!(net.in_proj_qkv.out_dim, 32);
            assert_eq!(net.in_proj_z.out_dim, 20);
            assert_eq!((net.in_proj_b.out_dim, net.in_proj_a.out_dim), (4, 4));
            assert_eq!((net.out_proj.in_dim, net.out_proj.out_dim), (20, 8));
            assert!(!net.in_proj_qkv.with_bias && !net.primed);
        }
        TokenMixer::FullAttention(_) => panic!("attention"),
    }
    for i in [1, 2] {
        match &base.layers[i].token_mixer {
            TokenMixer::FullAttention(attention) => {
                assert_eq!(
                    attention.q_proj.path,
                    format!("model.language_model.layers.{i}.self_attn.q_proj")
                );
                assert_eq!((attention.q_proj.in_dim, attention.q_proj.out_dim), (8, 48));
                assert_eq!(attention.k_proj.out_dim, 12);
                assert_eq!((attention.o_proj.in_dim, attention.o_proj.out_dim), (24, 8));
                assert!(attention.q_proj.with_bias && attention.o_proj.with_bias);
                assert_eq!((attention.q_norm.dim, attention.dims.num_kv_groups), (6, 2));
            }
            TokenMixer::LinearAttention(_) => panic!("recurrence"),
        }
    }
    let mlp = &base.layers[2].mlp;
    assert_eq!(mlp.down_proj.path, "model.language_model.layers.2.mlp.down_proj");
    assert_eq!((mlp.down_proj.in_dim, mlp.down_proj.out_dim), (7, 8));
    assert_eq!((mlp.gate_proj.in_dim, mlp.up_proj.out_dim), (8, 7));
}

#[test]
fn a_dense_model_remembers_until_it_is_cleared() {
    let mut model = ModelForCausalLM::new(&config(), false);
    let first = model.forward(1, 3, 0);
    assert!(first.mask.is_some());
    assert!(matches!(first.layers[0].kept, Kept::StateSpace { .. }));
    assert!(matches!(first.layers[1].kept, Kept::Attention { .. }));
    let again = model.forward(1, 3, 0);
    assert_ne!(again.layers[1].output, first.layers[1].output);
    assert_eq!(again.layers[0].output, first.layers[0].output);
    let single = model.forward(1, 1, 6);
    assert!(single.mask.is_none());
    model.clear_kv_cache();
    assert_ne!(model.forward(1, 1, 6).layers[0].output, single.layers[0].output);
    model.clear_kv_cache();
    let cleared = model.forward(1, 3, 0);
    assert_eq!(cleared.layers[0].output, first.layers[0].output);
    assert_eq!(cleared.layers[1].output, first.layers[1].output);
    assert_eq!(cleared.last, first.last);
}

#[test]
fn impossible_configurations_are_not_built() {
    let mut headless = config();
    headless.text_config.num_attention_heads = 0;
    assert!(!headless.can_load());
    let mut keyless = config();
    keyless.text_config.num_key_value_heads = 0;
    assert!(!keyless.can_load());
    let mut huge = config();
    huge.text_config.head_dim = Some(usize::MAX);
    assert!(!huge.can_load());
    let mut wide = config();
    wide.text_config.linear_value_head_dim = usize::MAX;
    assert!(!wide.can_load());
    wide.text_config.layer_types.clear();
    assert!(wide.can_load());
    let mut still = config();
    still.text_config.linear_num_key_heads = 0;
    assert!(still.can_load());
    assert!(!ModelForCausalLM::new(&still, false).base_model.is_runnable());
}
