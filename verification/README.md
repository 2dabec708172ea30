# qwen_runner

The logic of a command-line runner for Qwen language models, written in Verus.

- `src/` is the library. Every function carries a contract that Verus proves.
- `tests/` runs the library, the forward passes with Candle on small tensors among it.
- `app/` is the program around the library: the command line, the terminal, the Hugging Face hub,
  and Candle, which evaluates the formulas of a forward pass.

A forward pass is data. The library builds it as formulas over tensors, says which tensors they
refer to, and proves that the operations fit the shapes of their operands and that what a layer
keeps suits the next pass. Over any arithmetic that treats masked scores as absent, it proves that a
position does not depend on later ones and that a sequence may be read in pieces. Floating-point
arithmetic itself is left to Candle.

The library trusts a few functions of other crates: `tokenizers` encodes and decodes text and tells
what a tokenizer consists of, `serde_json` reads a configuration file and the parts of a tokenizer
that have no other access, and `Rc::clone` of std shares a formula. Their contracts stand in
`src/tokenizer.rs`, `src/tokenizer_parts.rs`, `src/config.rs` and `src/ops.rs`.

A tokenizer file can ask for work on which `tokenizers` panics or does not end. Such work is refused
with an error: `src/tokenizer_parts.rs` says what each kind of part can work on.
