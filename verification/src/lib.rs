//! The logic of a command-line runner for Qwen language models.
//!
//! Finding a model: [`repo`] knows where a tokenizer may be found, [`layout`] what a repository
//! holds, [`menu`] lets one of several files be chosen, [`config`] and [`gguf`] tell which model a
//! file describes.
//!
//! Talking to it: [`prompt`] writes prompts, [`tokenizer`] turns text into tokens and back,
//! [`tokenizer_parts`] and [`compiled_table`] know which parts of a tokenizer are safe to run,
//! [`chat`] keeps the conversation within the context and the reply within its limits, [`turn`]
//! tells what the model is asked for in turn, [`runtime`] picks the device and cuts prompts into
//! pieces.
//!
//! Running it: a forward pass is a sequence of formulas over tensors ([`graph`], [`ops`],
//! [`pass`]). [`qwen3_5`] and [`delta_net`] hold the formulas of the dense model,
//! [`quantized_qwen3_5`], [`loading`], [`attention`] and [`state_space`] those of the quantized
//! one, and [`blocks`], [`delta`] and [`rotary`] what both share. [`shapes`] and [`dense_laws`]
//! show that every operation fits the shapes of its operands.
//!
//! What it computes: [`meaning`] reads formulas over any arithmetic, and [`value_shapes`] shows
//! that what they compute has its shape. Over it stand the laws of the layers: in [`causal_laws`]
//! and [`dense_causal_laws`] that a position does not depend on later ones, in [`cache_laws`] and
//! [`dense_cache_laws`] that attention can continue from its cache, in [`delta_laws`],
//! [`conv_laws`], [`recurrence_laws`] and [`dense_recurrence_laws`] that recurrences can be run in
//! pieces.
//!
//! What its results are: [`layer_laws`] says what a layer adds to its input, [`attention_laws`] and
//! [`dense_attention_laws`] what a position attends to, [`delta_rule_laws`] what a recurrence writes
//! and answers, and [`recurrent_layer_laws`] what it is given. [`name_laws`] and [`weight_laws`] say
//! which tensor of a file every part of a model is, and [`call_laws`] what all this means for the
//! functions that are called.
pub mod attention;
pub mod attention_laws;
pub mod blocks;
pub mod cache_laws;
pub mod call_laws;
pub mod causal_laws;
pub mod chat;
pub mod compiled_table;
pub mod config;
pub mod conv_laws;
pub mod delta;
pub mod delta_laws;
pub mod delta_net;
pub mod delta_rule_laws;
pub mod dense_attention_laws;
pub mod dense_cache_laws;
pub mod dense_causal_laws;
pub mod dense_laws;
pub mod dense_recurrence_laws;
pub mod gguf;
pub mod graph;
pub mod layer_laws;
pub mod layout;
pub mod loading;
pub mod meaning;
pub mod menu;
pub mod name_laws;
pub mod ops;
pub mod pass;
pub mod prompt;
pub mod quantized_qwen3_5;
pub mod qwen3_5;
pub mod recurrence_laws;
pub mod recurrent_layer_laws;
pub mod repo;
pub mod rotary;
pub mod runtime;
pub mod shapes;
pub mod state_space;
pub mod text;
pub mod tokenizer;
pub mod tokenizer_parts;
pub mod turn;
pub mod value_shapes;
pub mod weight_laws;
