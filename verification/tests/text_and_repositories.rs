use qwen_runner::layout::{
    SourceChoice, WeightLayout, comes_before, content_length, file_url, holds,
    resolve_model_source, sorted_set, weight_layout,
};
use qwen_runner::prompt::{Args, ArgsError, PromptKind};
use qwen_runner::prompt::{
    build_prompt, build_prompt_for_args, build_prompt_from_history, validate_args,
};
use qwen_runner::repo::{
    ModelSource, infer_official_qwen_repo, no_tokenizer, push_unique, strip_packaging_suffixes,
    tokenizer_model_candidates,
};
use qwen_runner::text;

fn names(list: &[&str]) -> Vec<String> {
    list.iter().map(|name| name.to_string()).collect()
}

fn args() -> Args {
    Args {
        model: "m".to_string(),
        quantized_model: "q".to_string(),
        quantized: false,
        gguf_file: "f.gguf".to_string(),
        system: "be brief".to_string(),
        prompt: None,
        chat: true,
        no_system: false,
        raw_prompt: false,
        sample_len: 4,
        repeat_last_n: 64,
        max_context: 100,
        cpu: false,
        debug_tokens: false,
    }
}

#[test]
fn white_space_is_that_of_std() {
    let mut c = 0u32;
    while c <= 0x10ffff {
        if let Some(c) = char::from_u32(c) {
            assert_eq!(text::white_space(c), c.is_whitespace(), "{c:?}");
            assert_eq!(text::alphanumeric(c), c.is_ascii_alphanumeric(), "{c:?}");
        }
        c += 1;
    }
}

#[test]
fn text_operations_agree_with_std() {
    for s in ["", "a", "  a b ", "ab\u{3000}", "\u{e9}xab", "aab", "unknown"] {
        for p in ["", "a", "ab", "b ", "\u{e9}", "unknown dtype"] {
            let expected = s.find(p).map(|i| s[..i].chars().count());
            assert_eq!(text::find_text(s, p), expected, "{s:?} {p:?}");
            assert_eq!(text::has_prefix(s, p), s.starts_with(p));
            assert_eq!(text::has_suffix(s, p), s.ends_with(p));
            assert_eq!(text::without_prefix(s, p), s.strip_prefix(p));
            assert_eq!(text::without_suffix(s, p), s.strip_suffix(p));
            assert_eq!(text::same_text(s, p), s == p);
            assert_eq!(text::concat(s, p), format!("{s}{p}"));
            assert_eq!(comes_before(s, p), s < p);
        }
        assert_eq!(text::trim(s), s.trim());
        assert_eq!(text::word(s), s.split_whitespace().next());
        assert_eq!(text::escape_spaces(s), s.replace(' ', "%20"));
        let mut padded = "|".to_string();
        text::push_padded(&mut padded, s, 4);
        assert_eq!(padded, format!("|{s:>4}"));
    }
    assert_eq!(text::join(&names(&["a", "b", "c"]), ", "), "a, b, c");
    assert_eq!(text::join(&names(&[]), ", "), "");
}

#[test]
fn numbers_are_read_and_written_as_std_does() {
    for n in [0, 7, 10, 99, 100, 4294967295, u64::MAX] {
        assert_eq!(text::decimal_text(n), n.to_string());
        assert_eq!(text::parse_number(&n.to_string(), u64::MAX), Some(n));
    }
    for s in ["", "+", "-1", "+7", "007", " 7", "7 ", "4294967296", "18446744073709551616"] {
        assert_eq!(text::parse_number(s, u64::MAX), s.parse::<u64>().ok(), "{s:?}");
        let small = text::parse_number(s, u32::MAX as u64).map(|n| n as u32);
        assert_eq!(small, s.parse::<u32>().ok(), "{s:?}");
        assert_eq!(content_length(s), s.parse::<u64>().ok());
    }
}

#[test]
fn packaging_suffixes_are_stripped_completely() {
    let stripped = |id: &str| strip_packaging_suffixes(id);
    assert_eq!(stripped("u/Qwen3-4B-GGUF"), Some("u/Qwen3-4B".to_string()));
    assert_eq!(stripped("a-Imatrix-gguf"), Some("a".to_string()));
    assert_eq!(stripped("a-gguf-imatrix-GGUF"), Some("a".to_string()));
    assert_eq!(stripped("-GGUF"), Some(String::new()));
    assert_eq!(stripped("GGUF"), None);
    assert_eq!(stripped("a-Gguf"), None);
    assert_eq!(stripped("a-GGUF-x"), None);
}

#[test]
fn official_repositories_are_inferred() {
    let official = |id: &str| infer_official_qwen_repo(id);
    assert_eq!(official("u/Qwen3-4B-GGUF"), Some("Qwen/Qwen3-4B".to_string()));
    assert_eq!(official("u/Qwen3.5-0.8B-x"), Some("Qwen/Qwen3.5-0.8B".to_string()));
    assert_eq!(official("Qwen/Qwen3-4B"), Some("Qwen/Qwen3-4B".to_string()));
    assert_eq!(official("u/Qwen3-"), None);
    assert_eq!(official("u/Qwen3--Qwen3-8B"), None);
    assert_eq!(official("u/Qwen3.5--Qwen3-8B"), Some("Qwen/Qwen3-8B".to_string()));
    assert_eq!(official("u/Llama-3"), None);
}

#[test]
fn unique_values_are_pushed_once() {
    let mut values = names(&["a"]);
    push_unique(&mut values, "b".to_string());
    push_unique(&mut values, "a".to_string());
    assert_eq!(values, names(&["a", "b"]));
}

#[test]
fn tokenizer_candidates_come_in_order() {
    let dense = ModelSource::Dense {
        repo_id: "u/Qwen3-4B".to_string(),
    };
    assert_eq!(
        tokenizer_model_candidates("u/Qwen3-4B", &dense),
        names(&["u/Qwen3-4B", "Qwen/Qwen3-4B"])
    );
    let quantized = ModelSource::Quantized {
        repo_id: "v/Foo-GGUF".to_string(),
    };
    assert_eq!(
        tokenizer_model_candidates("u/Qwen3-8B-GGUF", &quantized),
        names(&["u/Qwen3-8B-GGUF", "Qwen/Qwen3-8B", "v/Foo-GGUF", "u/Qwen3-8B", "v/Foo"])
    );
    assert_eq!(
        no_tokenizer(&names(&["a", "b"])),
        "failed to fetch tokenizer.json from any candidate repo: a, b"
    );
}

#[test]
fn listings_are_sorted_sets() {
    assert_eq!(
        sorted_set(&names(&["b", "a", "b", "\u{e9}", "B", "a"])),
        names(&["B", "a", "b", "\u{e9}"])
    );
    assert!(holds(&names(&["a", "b"]), "b"));
    assert!(!holds(&names(&["a", "b"]), "c"));
}

fn resolved(files: &[&str], preferred: &str, quantized: bool) -> String {
    match resolve_model_source(&names(files), preferred, quantized) {
        SourceChoice::Gguf(name) => format!("gguf {name}"),
        SourceChoice::Dense => "dense".to_string(),
        SourceChoice::ChooseGguf(list) => format!("choose {}", list.join(" ")),
        SourceChoice::Unsupported => "unsupported".to_string(),
    }
}

#[test]
fn model_sources_are_resolved() {
    let dense = ["config.json", "model.safetensors"];
    assert_eq!(resolved(&dense, "f.gguf", false), "dense");
    assert_eq!(resolved(&dense, "f.gguf", true), "unsupported");
    let sharded = ["model.safetensors.index.json", "config.json", "g.gguf"];
    assert_eq!(resolved(&sharded, "f.gguf", false), "dense");
    assert_eq!(resolved(&sharded, "f.gguf", true), "gguf g.gguf");
    assert_eq!(resolved(&sharded, "g.gguf", false), "gguf g.gguf");
    assert_eq!(resolved(&["model.safetensors"], "f.gguf", false), "unsupported");
    assert_eq!(resolved(&["b.gguf", "a.gguf"], "b.gguf", false), "gguf b.gguf");
    assert_eq!(resolved(&["b.gguf", "a.gguf"], "c.gguf", false), "choose a.gguf b.gguf");
    assert_eq!(resolved(&["a.gguf", "b.gguf", "a.gguf"], "c", false), "choose a.gguf b.gguf");
    assert_eq!(resolved(&["readme", "a.gguf"], "readme", false), "gguf readme");
}

#[test]
fn dense_weights_are_found() {
    let layout = |files: &[&str]| weight_layout(&names(files));
    assert_eq!(
        layout(&["model.safetensors", "model.safetensors.index.json"]),
        WeightLayout::Sharded
    );
    assert_eq!(layout(&["model.safetensors"]), WeightLayout::Single);
    assert_eq!(layout(&["config.json"]), WeightLayout::Missing);
}

#[test]
fn addresses_escape_spaces() {
    assert_eq!(
        file_url("u/m", "a b.gguf"),
        "https://huggingface.co/u/m/resolve/main/a%20b.gguf"
    );
}

#[test]
fn options_are_validated() {
    let mut options = args();
    assert_eq!(validate_args(&options), Ok(()));
    options.raw_prompt = true;
    assert_eq!(validate_args(&options), Err(ArgsError::RawPromptInChat));
    options.chat = false;
    assert_eq!(validate_args(&options), Err(ArgsError::PromptRequired));
    options.prompt = Some("x".to_string());
    assert_eq!(validate_args(&options), Ok(()));
    assert_eq!(
        ArgsError::PromptRequired.message(),
        "--prompt is required unless --chat is enabled"
    );
    assert_eq!(
        ArgsError::RawPromptInChat.message(),
        "--raw-prompt cannot be used with --chat"
    );
}

#[test]
fn the_requested_repository_follows_the_options() {
    let mut options = args();
    assert_eq!(options.requested_model(), "m");
    options.quantized = true;
    assert_eq!(options.requested_model(), "q");
}

#[test]
fn prompts_follow_the_format() {
    let initial = PromptKind::Initial { system: "S", user: "U" };
    let next = PromptKind::NextTurn { user: "U" };
    let turn = "<|im_start|>user\nU<|im_end|>\n<|im_start|>assistant\n";
    let whole = format!("<|im_start|>system\nS<|im_end|>\n{turn}");
    assert_eq!(build_prompt(initial), whole);
    assert_eq!(build_prompt(next), turn);
    let mut options = args();
    assert_eq!(build_prompt_for_args(&options, initial), whole);
    assert_eq!(build_prompt_for_args(&options, next), turn);
    options.no_system = true;
    assert_eq!(build_prompt_for_args(&options, initial), turn);
    options.raw_prompt = true;
    assert_eq!(build_prompt_for_args(&options, initial), "U");
    assert_eq!(build_prompt_for_args(&options, next), turn);
}

#[test]
fn conversations_are_replayed() {
    let turns = vec![("a".to_string(), "b".to_string()), ("c".to_string(), "d".to_string())];
    let one = "<|im_start|>user\na<|im_end|>\n<|im_start|>assistant\nb<|im_end|>\n";
    let two = "<|im_start|>user\nc<|im_end|>\n<|im_start|>assistant\nd<|im_end|>\n";
    let open = "<|im_start|>user\ne<|im_end|>\n<|im_start|>assistant\n";
    let system = "<|im_start|>system\nS<|im_end|>\n";
    assert_eq!(
        build_prompt_from_history(Some("S"), &turns, Some("e")),
        format!("{system}{one}{two}{open}")
    );
    assert_eq!(build_prompt_from_history(None, &turns, None), format!("{one}{two}"));
    assert_eq!(build_prompt_from_history(None, &Vec::new(), None), "");
    assert_eq!(
        build_prompt_from_history(Some("S"), &turns, Some("e")),
        format!(
            "{}{}",
            build_prompt_from_history(Some("S"), &turns, None),
            build_prompt(PromptKind::NextTurn { user: "e" })
        )
    );
    assert_eq!(
        build_prompt_from_history(Some("S"), &Vec::new(), Some("U")),
        build_prompt(PromptKind::Initial { system: "S", user: "U" })
    );
    assert_eq!(
        build_prompt_from_history(None, &turns, None),
        format!("{}d<|im_end|>\n", build_prompt_from_history(None, &turns[..1].to_vec(), Some("c")))
    );
}
