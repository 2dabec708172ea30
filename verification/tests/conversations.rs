use qwen_runner::chat::{
    ChatAction, ChatState, LineEvent, PrefillStep, Reply, ReplyError, TokenStep, before_prefill,
    chat_step, context_of_replay, finish_turn, install_turns, must_drop_turn, penalty_start,
    rebuild_state_for_current_turn, show, stable_prefix,
};
use qwen_runner::compiled_table::written_table_is_sound;
use qwen_runner::prompt::Args;
use qwen_runner::tokenizer::{
    decode_tokens, encode_prompt, end_of_message, is_able_to_decode, is_able_to_encode,
};
use qwen_runner::turn::{Turn, TurnAction, TurnEvent, generate_reply};
use tokenizers::Tokenizer;

const END: u32 = 1;

/// A tokenizer of whole words, with the two markers of the prompt format.
fn tokenizer() -> Tokenizer {
    let json = r#"{
        "version": "1.0", "truncation": null, "padding": null,
        "added_tokens": [
            {"id": 0, "content": "<|im_start|>", "single_word": false, "lstrip": false,
             "rstrip": false, "normalized": false, "special": true},
            {"id": 1, "content": "<|im_end|>", "single_word": false, "lstrip": false,
             "rstrip": false, "normalized": false, "special": true}
        ],
        "normalizer": null, "pre_tokenizer": {"type": "WhitespaceSplit"},
        "post_processor": null, "decoder": {"type": "Fuse"},
        "model": {"type": "WordLevel", "unk_token": "[UNK]", "vocab": {
            "<|im_start|>": 0, "<|im_end|>": 1, "[UNK]": 2, "system": 3, "user": 4,
            "assistant": 5, "a": 6, "b": 7, "c": 8, "x�": 9, "S": 10
        }}
    }"#;
    Tokenizer::from_bytes(json.as_bytes()).unwrap()
}

/// The same without a token for unknown words, so that encoding can fail.
fn strict_tokenizer() -> Tokenizer {
    let json = r#"{
        "version": "1.0", "truncation": null, "padding": null, "added_tokens": [],
        "normalizer": null, "pre_tokenizer": {"type": "WhitespaceSplit"},
        "post_processor": null, "decoder": null,
        "model": {"type": "WordLevel", "unk_token": "[UNK]", "vocab": {"a": 0}}
    }"#;
    Tokenizer::from_bytes(json.as_bytes()).unwrap()
}

fn args() -> Args {
    Args {
        model: String::new(),
        quantized_model: String::new(),
        quantized: false,
        gguf_file: String::new(),
        system: "S".to_string(),
        prompt: None,
        chat: true,
        no_system: false,
        raw_prompt: false,
        sample_len: 4,
        repeat_last_n: 3,
        max_context: 30,
        cpu: false,
        debug_tokens: false,
    }
}

fn line(text: &str) -> LineEvent {
    LineEvent::Line(text.to_string())
}

fn turns(list: &[(&str, &str)]) -> Vec<(String, String)> {
    list.iter()
        .map(|(user, answer)| (user.to_string(), answer.to_string()))
        .collect()
}

#[test]
fn prompts_become_tokens_and_tokens_text() {
    let tokenizer = tokenizer();
    let ids = encode_prompt(&tokenizer, "<|im_start|>user a zzz<|im_end|>").unwrap();
    assert_eq!(ids, vec![0, 4, 6, 2, 1]);
    assert_eq!(encode_prompt(&tokenizer, "").unwrap(), Vec::<u32>::new());
    assert_eq!(decode_tokens(&tokenizer, &vec![0, 6, 7, 1]).unwrap(), "ab");
    assert_eq!(end_of_message(&tokenizer), Some(END));
    assert_eq!(end_of_message(&strict_tokenizer()), None);
    let error = encode_prompt(&strict_tokenizer(), "b").unwrap_err();
    assert!(!error.message.is_empty());
}

#[test]
fn lines_are_answered_or_end_the_chat() {
    let options = args();
    let mut state = ChatState::new();
    let act = |state: &ChatState, event: LineEvent| chat_step(&options, state, &event);
    for empty in ["", "  \t"] {
        let action = act(&state, line(empty));
        assert!(matches!(action, ChatAction::ReadAgain { newline: false }));
    }
    for word in ["exit", " quit "] {
        assert!(matches!(act(&state, line(word)), ChatAction::Leave { newline: false }));
    }
    let action = act(&state, LineEvent::Interrupted);
    assert!(matches!(action, ChatAction::ReadAgain { newline: true }));
    assert!(matches!(act(&state, LineEvent::Eof), ChatAction::Leave { newline: true }));
    assert!(matches!(act(&state, LineEvent::Failed), ChatAction::Fail));
    let turn = "<|im_start|>user\nhi you<|im_end|>\n<|im_start|>assistant\n";
    match act(&state, line(" hi you\n")) {
        ChatAction::Answer { user, prompt } => {
            assert_eq!(user, "hi you");
            assert_eq!(prompt, format!("<|im_start|>system\nS<|im_end|>\n{turn}"));
        }
        other => panic!("{other:?}"),
    }
    state.tokens.push(6);
    match act(&state, line("hi you")) {
        ChatAction::Answer { prompt, .. } => assert_eq!(prompt, turn),
        other => panic!("{other:?}"),
    }
}

#[test]
fn completed_turns_are_recorded() {
    let mut state = ChatState::new();
    assert!(!finish_turn(&mut state, "a", "b"));
    assert!(finish_turn(&mut state, "c", ""));
    assert_eq!(state.turns, turns(&[("a", "b"), ("c", "")]));
}

#[test]
fn prompts_are_read_rebuilt_for_or_refused() {
    let options = args();
    let mut state = ChatState::new();
    let before = |state: &ChatState, input, rebuilt| before_prefill(&options, state, input, rebuilt);
    assert_eq!(before(&state, 0, false), PrefillStep::Refuse(ReplyError::EmptyPrompt));
    assert_eq!(before(&state, 26, false), PrefillStep::Read { position: 0 });
    assert_eq!(before(&state, 27, false), PrefillStep::Rebuild);
    assert_eq!(before(&state, 27, true), PrefillStep::Read { position: 0 });
    state.tokens = vec![6; 10];
    assert_eq!(before(&state, 16, false), PrefillStep::Read { position: 10 });
    assert_eq!(before(&state, 17, false), PrefillStep::Rebuild);
    let refusal = PrefillStep::Refuse(ReplyError::PromptTooLong { max_context: 30 });
    assert_eq!(before(&state, 21, true), refusal);
    assert_eq!(ReplyError::EmptyPrompt.message(), "prompt produced no tokens");
    assert_eq!(
        ReplyError::PromptTooLong { max_context: 30 }.message(),
        "prompt exceeds --max-context (30 tokens). Reduce prompt size or raise the limit."
    );
}

#[test]
fn old_turns_are_dropped_until_the_rest_fits() {
    let (mut options, tokenizer) = (args(), tokenizer());
    let mut state = ChatState::new();
    state.turns = turns(&[("a", "b"), ("b", "c"), ("c", "a")]);
    state.tokens = vec![6; 29];
    // The system message has 4 tokens, and so has every other message.
    let rebuilt = rebuild_state_for_current_turn(&options, &tokenizer, &state, 5).unwrap();
    assert_eq!(rebuilt.turns, turns(&[("b", "c"), ("c", "a")]));
    let mut expected = vec![0, 3, 10, 1];
    expected.extend([0, 4, 7, 1, 0, 5, 8, 1, 0, 4, 8, 1, 0, 5, 6, 1]);
    assert_eq!(rebuilt.tokens, expected);

    let rebuilt = rebuild_state_for_current_turn(&options, &tokenizer, &state, 22).unwrap();
    assert_eq!(rebuilt.turns, turns(&[]));
    assert_eq!(rebuilt.tokens, vec![0, 3, 10, 1]);
    let rebuilt = rebuild_state_for_current_turn(&options, &tokenizer, &state, 23).unwrap();
    assert_eq!(rebuilt.turns, turns(&[]));
    assert_eq!(rebuilt.tokens, Vec::<u32>::new());

    options.no_system = true;
    options.max_context = 100;
    let rebuilt = rebuild_state_for_current_turn(&options, &tokenizer, &state, 5).unwrap();
    assert_eq!(rebuilt.turns.len(), 3);
    assert_eq!(rebuilt.tokens.len(), 24);

    install_turns(&mut state, rebuilt.turns);
    assert_eq!(state.turns.len(), 3);
    assert_eq!(state.tokens, Vec::<u32>::new());
    let direct = encode_prompt(&strict_tokenizer(), "b").unwrap_err();
    let error =
        rebuild_state_for_current_turn(&options, &strict_tokenizer(), &state, 5).unwrap_err();
    assert_eq!(error.message, direct.message);
}

#[test]
fn a_rebuilt_context_has_room_for_the_prompt() {
    let (options, tokenizer) = (args(), tokenizer());
    let mut state = ChatState::new();
    state.turns = turns(&[("a", "b"), ("b", "c"), ("c", "a")]);
    state.tokens = vec![6; 29];
    for input in 1..=26 {
        assert_eq!(before_prefill(&options, &state, input, false), PrefillStep::Rebuild);
        let rebuilt = rebuild_state_for_current_turn(&options, &tokenizer, &state, input).unwrap();
        let mut after = ChatState::new();
        install_turns(&mut after, rebuilt.turns);
        after.tokens = rebuilt.tokens;
        let position = after.tokens.len();
        assert!(position + input + options.sample_len <= options.max_context);
        assert_eq!(
            before_prefill(&options, &after, input, true),
            PrefillStep::Read { position }
        );
    }
}

#[test]
fn turns_are_dropped_while_there_are_some() {
    let options = args();
    assert!(must_drop_turn(&options, 1, 22, 5));
    assert!(!must_drop_turn(&options, 1, 21, 5));
    assert!(!must_drop_turn(&options, 0, 22, 5));
    assert_eq!(context_of_replay(&options, vec![6; 21], 5), vec![6; 21]);
    assert_eq!(context_of_replay(&options, vec![6; 22], 5), Vec::<u32>::new());
}

#[test]
fn unfinished_characters_are_held_back() {
    assert_eq!(stable_prefix("ab\u{fffd}c\u{fffd}"), "ab");
    assert_eq!(stable_prefix("ab"), "ab");
    assert_eq!(stable_prefix("\u{fffd}"), "");
    let mut visible = "ab".to_string();
    assert_eq!(show(&mut visible, "abc"), Some("c".to_string()));
    assert_eq!(show(&mut visible, "abc"), None);
    assert_eq!(show(&mut visible, "ax"), None);
    assert_eq!(visible, "abc");
}

fn printed(step: TokenStep) -> (Option<String>, usize) {
    match step {
        TokenStep::Continue { printed, position } => (printed, position),
        TokenStep::Stop => panic!("stopped"),
    }
}

#[test]
fn a_reply_is_shown_while_it_grows() {
    let (options, tokenizer) = (args(), tokenizer());
    let mut state = ChatState::new();
    let mut reply = Reply::begin(&mut state, &vec![4, 6], true);
    assert_eq!(reply.start, 2);
    let mut take = |reply: &mut Reply, state: &mut ChatState, token| {
        reply.take_token(state, &tokenizer, token, Some(END)).unwrap()
    };
    let step = take(&mut reply, &mut state, 6);
    assert_eq!(printed(step), (Some("a".to_string()), 2));
    let step = take(&mut reply, &mut state, 9);
    assert_eq!(printed(step), (Some("x".to_string()), 3));
    let step = take(&mut reply, &mut state, 7);
    assert_eq!(printed(step), (None, 4));
    assert!(reply.wants_token(&options));
    assert!(matches!(take(&mut reply, &mut state, END), TokenStep::Stop));
    assert!(!reply.wants_token(&options));
    assert_eq!(state.tokens, vec![4, 6, 6, 9, 7, END]);
    assert_eq!(reply.sampled, vec![6, 9, 7, END]);
    assert_eq!(reply.end(&state, Some(END)), 5);
    let finished = reply.finish(&state, &tokenizer, Some(END)).unwrap();
    assert_eq!(finished.text, "ax\u{fffd}b");
    assert_eq!(finished.printed, Some("\u{fffd}b".to_string()));
    assert_eq!(finished.tokens, vec![6, 9, 7]);
}

#[test]
fn a_silent_reply_is_decoded_at_its_end() {
    let tokenizer = tokenizer();
    let mut state = ChatState::new();
    state.tokens = vec![4];
    let mut reply = Reply::begin(&mut state, &vec![6], false);
    let step = reply.take_token(&mut state, &tokenizer, 7, None).unwrap();
    assert_eq!(printed(step), (None, 2));
    let step = reply.take_token(&mut state, &tokenizer, END, None).unwrap();
    assert_eq!(printed(step), (None, 3));
    assert_eq!(reply.end(&state, None), 4);
    let finished = reply.finish(&state, &tokenizer, None).unwrap();
    assert_eq!(finished.text, "b");
    assert_eq!(finished.printed, None);
    assert_eq!(finished.tokens, vec![7, END]);
}

#[test]
fn an_answer_of_end_tokens_is_empty() {
    let tokenizer = tokenizer();
    let mut state = ChatState::new();
    let mut reply = Reply::begin(&mut state, &vec![4, 6], true);
    let step = reply.take_token(&mut state, &tokenizer, END, Some(END)).unwrap();
    assert!(matches!(step, TokenStep::Stop));
    assert_eq!(reply.end(&state, Some(END)), 2);
    let finished = reply.finish(&state, &tokenizer, Some(END)).unwrap();
    assert_eq!(finished.text, "");
    assert_eq!(finished.tokens, Vec::<u32>::new());
}

#[test]
fn trailing_end_tokens_of_a_prompt_are_passed_over() {
    let mut state = ChatState::new();
    let reply = Reply::begin(&mut state, &vec![6, END, END], true);
    assert_eq!(reply.end(&state, Some(END)), 1);
    let mut state = ChatState::new();
    let reply = Reply::begin(&mut state, &vec![END, END], true);
    assert_eq!(reply.end(&state, Some(END)), 2);
}

#[test]
fn the_penalty_looks_at_recent_tokens() {
    let options = args();
    let mut state = ChatState::new();
    assert_eq!(penalty_start(&options, &state), 0);
    state.tokens = vec![6; 5];
    assert_eq!(penalty_start(&options, &state), 2);
}

/// Answers a prompt with the given tokens, shown while they come, and notes what was asked for.
fn answered(
    options: &Args,
    state: &mut ChatState,
    input: &Vec<u32>,
    tokens: &[u32],
) -> (Vec<String>, Option<Reply>) {
    let (asked, _, reply) = answered_as(true, options, state, input, tokens);
    (asked, reply)
}

/// Answers a prompt with the given tokens, and notes what was asked for and what was printed.
fn answered_as(
    stream: bool,
    options: &Args,
    state: &mut ChatState,
    input: &Vec<u32>,
    tokens: &[u32],
) -> (Vec<String>, String, Option<Reply>) {
    let tokenizer = tokenizer();
    let (mut turn, mut event) = (Turn::Begun, TurnEvent::Done);
    let mut asked = Vec::new();
    let mut shown = String::new();
    let mut tokens = tokens.iter();
    loop {
        let (next, action) = generate_reply(
            options,
            &tokenizer,
            Some(END),
            state,
            input,
            stream,
            turn,
            event,
        )
        .unwrap();
        turn = next;
        event = TurnEvent::Done;
        match action {
            TurnAction::Refuse(error) => {
                asked.push(error.message());
                return (asked, shown, None);
            }
            TurnAction::Reload => asked.push("reload".to_string()),
            TurnAction::ReadContext => match &turn {
                Turn::Replaying(tokens) => asked.push(format!("context of {}", tokens.len())),
                other => panic!("{other:?}"),
            },
            TurnAction::ReadPrompt { position } => asked.push(format!("prompt at {position}")),
            TurnAction::Sample { recent } => {
                asked.push(format!("sample from {recent}"));
                event = TurnEvent::Drawn(*tokens.next().unwrap());
            }
            TurnAction::ReadToken { printed, position } => {
                asked.push(format!("{printed:?} at {position}"));
                if let Some(piece) = printed {
                    shown.push_str(&piece);
                }
            }
            TurnAction::Complete(reply) => return (asked, shown, Some(reply)),
        }
    }
}

#[test]
fn a_turn_reads_the_prompt_and_draws_until_the_message_ends() {
    let mut state = ChatState::new();
    state.tokens = vec![0, 4];
    let (asked, reply) = answered(&args(), &mut state, &vec![6, 7], &[8, 6, END]);
    let expected = [
        "prompt at 2",
        "sample from 1",
        "Some(\"c\") at 4",
        "sample from 2",
        "Some(\"a\") at 5",
        "sample from 3",
    ];
    assert_eq!(asked, expected);
    assert_eq!(state.tokens, vec![0, 4, 6, 7, 8, 6, END]);
    assert_eq!(reply.unwrap().sampled, vec![8, 6, END]);
}

#[test]
fn a_finished_reply_is_what_was_printed_and_the_rest() {
    let (tokenizer, drawn) = (tokenizer(), [6, 9, 7, END]);
    let mut state = ChatState::new();
    let (_, shown, reply) = answered_as(true, &args(), &mut state, &vec![6, 7], &drawn);
    let reply = reply.unwrap();
    assert!(reply.stream);
    assert_eq!(reply.start, 2);
    let finished = reply.finish(&state, &tokenizer, Some(END)).unwrap();
    assert_eq!(finished.tokens, vec![6, 9, 7]);
    assert_eq!(shown, "ax");
    assert_eq!(finished.printed.as_deref(), Some("\u{fffd}b"));
    assert_eq!(finished.text, "ax\u{fffd}b");

    let mut state = ChatState::new();
    let (_, shown, reply) = answered_as(false, &args(), &mut state, &vec![6, 7], &drawn);
    let finished = reply.unwrap().finish(&state, &tokenizer, Some(END)).unwrap();
    assert_eq!(finished.tokens, vec![6, 9, 7]);
    assert_eq!(shown, "");
    assert_eq!(finished.printed, None);
    assert_eq!(finished.text, decode_tokens(&tokenizer, &vec![6, 9, 7]).unwrap());
}

#[test]
fn a_turn_draws_no_more_tokens_than_the_limit() {
    let mut options = args();
    options.sample_len = 2;
    let mut state = ChatState::new();
    let (asked, reply) = answered(&options, &mut state, &vec![6], &[8, 8, 8]);
    assert_eq!(asked.last().unwrap(), "Some(\"c\") at 2");
    assert_eq!(reply.unwrap().sampled, vec![8, 8]);

    options.sample_len = 0;
    let mut state = ChatState::new();
    let (asked, reply) = answered(&options, &mut state, &vec![6], &[]);
    assert_eq!(asked, ["prompt at 0"]);
    assert_eq!(reply.unwrap().sampled, Vec::<u32>::new());
}

#[test]
fn a_turn_rebuilds_a_full_context_once() {
    let mut state = ChatState::new();
    state.turns = turns(&[("a", "b"), ("b", "c"), ("c", "a")]);
    state.tokens = vec![6; 29];
    let (asked, reply) = answered(&args(), &mut state, &vec![6; 5], &[END]);
    assert_eq!(asked, ["reload", "context of 20", "prompt at 20", "sample from 22"]);
    assert_eq!(state.turns, turns(&[("b", "c"), ("c", "a")]));
    assert_eq!(state.tokens.len(), 26);
    assert_eq!(reply.unwrap().start, 25);

    state.tokens = vec![6; 29];
    let (asked, _) = answered(&args(), &mut state, &vec![6; 23], &[END]);
    assert_eq!(asked, ["reload", "prompt at 0", "sample from 20"]);
    assert_eq!(state.turns, turns(&[]));
    assert_eq!(state.tokens.len(), 24);
}

#[test]
fn a_turn_refuses_empty_and_overlong_prompts() {
    let mut state = ChatState::new();
    let (asked, reply) = answered(&args(), &mut state, &vec![], &[]);
    assert_eq!(asked, ["prompt produced no tokens"]);
    assert!(reply.is_none());
    let (asked, reply) = answered(&args(), &mut state, &vec![6; 31], &[]);
    let refusal = "prompt exceeds --max-context (30 tokens). Reduce prompt size or raise the limit.";
    assert_eq!(asked, ["reload", refusal]);
    assert!(reply.is_none());
}

#[test]
fn printed_pieces_are_the_visible_text() {
    let mut visible = String::new();
    let mut printed = String::new();
    for text in ["a", "ab", "x", "ab", "abcd", ""] {
        if let Some(piece) = show(&mut visible, text) {
            printed.push_str(&piece);
        }
    }
    assert_eq!(printed, "abcd");
    assert_eq!(visible, printed);
}

/// A tokenizer of the words `a` and `zz` with the given parts.
fn with_parts(
    truncation: &str,
    normalizer: &str,
    pre_tokenizer: &str,
    post_processor: &str,
    decoder: &str,
) -> Tokenizer {
    let json = format!(
        r#"{{"version": "1.0", "truncation": {truncation}, "padding": null,
        "added_tokens": [{{"id": 9, "content": "<s>", "single_word": false, "lstrip": false,
            "rstrip": false, "normalized": false, "special": true}}],
        "normalizer": {normalizer}, "pre_tokenizer": {pre_tokenizer},
        "post_processor": {post_processor}, "decoder": {decoder},
        "model": {{"type": "WordLevel", "unk_token": "a", "vocab": {{"a": 0, "zz": 1}}}}}}"#
    );
    Tokenizer::from_bytes(json.as_bytes()).unwrap()
}

fn refuses(tokenizer: &Tokenizer, text: &str) {
    assert!(!is_able_to_encode(tokenizer, text));
    let error = encode_prompt(tokenizer, text).unwrap_err();
    assert_eq!(error.message, "unsupported tokenizer");
}

fn encodes(tokenizer: &Tokenizer, text: &str, ids: &[u32]) {
    assert!(is_able_to_encode(tokenizer, text));
    assert_eq!(encode_prompt(tokenizer, text).unwrap(), ids);
}

const WORDS: &str = r#"{"type": "WhitespaceSplit"}"#;

fn truncation(max_length: usize, stride: usize, strategy: &str) -> String {
    format!(
        r#"{{"direction": "Right", "max_length": {max_length}, "strategy": "{strategy}",
        "stride": {stride}}}"#
    )
}

#[test]
fn a_truncation_needs_a_stride_below_its_length() {
    let cut = |max_length: usize, stride: usize, strategy: &str| {
        with_parts(&truncation(max_length, stride, strategy), "null", WORDS, "null", "null")
    };
    refuses(&cut(2, 2, "LongestFirst"), "a zz a");
    refuses(&cut(1, 5, "OnlyFirst"), "a zz");
    encodes(&cut(2, 1, "LongestFirst"), "a zz a", &[0, 1]);
    encodes(&cut(0, 5, "LongestFirst"), "a zz a", &[]);
    encodes(&cut(2, 2, "LongestFirst"), "a zz", &[0, 1]);
    encodes(&cut(1, 5, "OnlyFirst"), "zz", &[1]);
    let second = cut(2, 2, "OnlySecond");
    assert!(is_able_to_encode(&second, "a zz a"));
    let error = encode_prompt(&second, "a zz a").unwrap_err();
    assert_eq!(error.message, "Truncation error: Second sequence not provided");
}

#[test]
fn lengths_are_counted_before_a_text_is_finished() {
    let twice = r#"{"type": "TemplateProcessing", "single": [{"Sequence": {"id": "A",
        "type_id": 0}}, {"Sequence": {"id": "A", "type_id": 0}}], "pair": [],
        "special_tokens": {}}"#;
    let cut = with_parts(&truncation(2, 2, "LongestFirst"), "null", WORDS, twice, "null");
    encodes(&cut, "zz a", &[1, 0, 1, 0]);
    refuses(&cut, "zz a zz");
}

#[test]
fn a_padding_fills_up_as_far_as_there_are_addresses() {
    let pad = |strategy: &str, multiple: &str| {
        let json = format!(
            r#"{{"version": "1.0", "truncation": null, "padding": {{"strategy": {strategy},
            "direction": "Right", "pad_to_multiple_of": {multiple}, "pad_id": 7, "pad_type_id": 0,
            "pad_token": "p"}}, "added_tokens": [], "normalizer": null, "pre_tokenizer": {WORDS},
            "post_processor": null, "decoder": null,
            "model": {{"type": "WordLevel", "unk_token": "a", "vocab": {{"a": 0, "zz": 1}}}}}}"#
        );
        Tokenizer::from_bytes(json.as_bytes()).unwrap()
    };
    encodes(&pad(r#"{"Fixed": 3}"#, "null"), "zz", &[1, 7, 7]);
    encodes(&pad(r#"{"Fixed": 3}"#, "4"), "zz", &[1, 7, 7, 7]);
    encodes(&pad("\"BatchLongest\"", "2"), "zz a a", &[1, 0, 0, 7]);
    let huge = usize::MAX.to_string();
    refuses(&pad(&format!(r#"{{"Fixed": {huge}}}"#), "null"), "zz");
    refuses(&pad("\"BatchLongest\"", &huge), "zz");
}

#[test]
fn models_that_drop_merges_need_a_sound_truncation() {
    let drop = |dropout: &str, truncation: &str| {
        let json = format!(
            r#"{{"version": "1.0", "truncation": {truncation}, "padding": null, "added_tokens": [],
            "normalizer": null, "pre_tokenizer": null, "post_processor": null, "decoder": null,
            "model": {{"type": "BPE", "dropout": {dropout}, "unk_token": null,
            "continuing_subword_prefix": null, "end_of_word_suffix": null, "fuse_unk": false,
            "byte_fallback": false, "vocab": {{"a": 0, "b": 1, "ab": 2}}, "merges": ["a b"]}}}}"#
        );
        Tokenizer::from_bytes(json.as_bytes()).unwrap()
    };
    refuses(&drop("0.5", &truncation(2, 2, "LongestFirst")), "a");
    encodes(&drop("null", &truncation(2, 2, "LongestFirst")), "a", &[0]);
    encodes(&drop("null", "null"), "abab", &[2, 2]);
    let ids = encode_prompt(&drop("0.5", "null"), "ab").unwrap();
    assert!(ids == vec![2] || ids == vec![0, 1]);
}

#[test]
fn pieces_of_no_length_are_refused() {
    let split = |parts: &str| with_parts("null", "null", parts, "null", "null");
    refuses(&split(r#"{"type": "FixedLength", "length": 0}"#), "a zz a");
    let nested = |length: usize| {
        format!(
            r#"{{"type": "Sequence", "pretokenizers": [{WORDS}, {{"type": "Sequence",
            "pretokenizers": [{{"type": "FixedLength", "length": {length}}}]}}]}}"#
        )
    };
    refuses(&split(&nested(0)), "a zz a");
    encodes(&split(&nested(2)), "a zz", &[0, 1]);
}

#[test]
fn patterns_that_move_their_start_are_refused() {
    let split = |pattern: &str| {
        let part = format!(
            r#"{{"type": "Split", "pattern": {pattern}, "behavior": "Removed", "invert": false}}"#
        );
        with_parts("null", "null", &part, "null", "null")
    };
    refuses(&split(r#"{"Regex": "(?=a\\K)"}"#), "aa");
    encodes(&split(r#"{"Regex": "\\s+(?!\\S)| "}"#), "a zz", &[0, 1]);
    encodes(&split(r#"{"String": "\\K"}"#), "a\\Kzz", &[0, 1]);

    let normalize = |pattern: &str| {
        let part = format!(r#"{{"type": "Replace", "pattern": {pattern}, "content": ""}}"#);
        with_parts("null", &part, WORDS, "null", "null")
    };
    refuses(&normalize(r#"{"Regex": "(?=a\\K)"}"#), "aa");
    encodes(&normalize(r#"{"Regex": "^b*"}"#), "bbzz a", &[1, 0]);

    let decode = |pattern: &str| {
        let part = format!(r#"{{"type": "Replace", "pattern": {pattern}, "content": "-"}}"#);
        with_parts("null", "null", WORDS, "null", &part)
    };
    let refused = decode(r#"{"Regex": "(?=z\\K)"}"#);
    assert!(!is_able_to_decode(&refused, &vec![1]));
    assert_eq!(decode_tokens(&refused, &vec![1]).unwrap_err().message, "unsupported decoder");
    assert_eq!(decode_tokens(&decode(r#"{"Regex": "z$"}"#), &vec![1, 0]).unwrap(), "z-a");
    assert_eq!(decode_tokens(&decode(r#"{"String": "z"}"#), &vec![1, 0]).unwrap(), "--a");
}

#[test]
fn normalizers_that_put_text_before_the_first_character_are_refused() {
    let normalize = |part: &str| {
        let parts = format!(
            r#"{{"type": "Sequence", "normalizers": [{part}, {{"type": "Lowercase"}}]}}"#
        );
        with_parts("null", &parts, WORDS, "null", "null")
    };
    let replace = |pattern: &str, content: &str| {
        format!(r#"{{"type": "Replace", "pattern": {pattern}, "content": "{content}"}}"#)
    };
    for pattern in [
        r#"{"String": ""}"#,
        r#"{"Regex": "^"}"#,
        r#"{"Regex": ""}"#,
        r#"{"Regex": "\\b"}"#,
        r#"{"Regex": "b*"}"#,
        r#"{"Regex": "b|"}"#,
        r#"{"Regex": "b{0,1}"}"#,
        r#"{"Regex": "(?=Z)"}"#,
    ] {
        refuses(&normalize(&replace(pattern, "z")), "Z");
        encodes(&normalize(&replace(pattern, "")), "ZZ", &[1]);
    }
    for pattern in [
        r#"{"String": "b"}"#,
        r#"{"Regex": "b"}"#,
        r#"{"Regex": "b+"}"#,
        r#"{"Regex": "b{1,2}"}"#,
        r#"{"Regex": "[bc]"}"#,
        r#"{"Regex": "\\db"}"#,
    ] {
        encodes(&normalize(&replace(pattern, "Z")), "bZ", &[if pattern.contains('d') { 0 } else { 1 }]);
    }
    encodes(&normalize(&replace(r#"{"Regex": "\\s+"}"#, " ")), " ZZ \t A", &[1, 0]);

    refuses(&normalize(r#"{"type": "Prepend", "prepend": ""}"#), "Z");
    encodes(&normalize(r#"{"type": "Prepend", "prepend": "Z"}"#), "Z", &[1]);
}

/// Bytes in base 64.
fn base64(bytes: &[u8]) -> String {
    let digits = b"ABCDEFGHIJKLMNOPQRSTUVWXYZabcdefghijklmnopqrstuvwxyz0123456789+/";
    let mut out = String::new();
    for group in bytes.chunks(3) {
        let byte = |k: usize| *group.get(k).unwrap_or(&0) as usize;
        let all = byte(0) << 16 | byte(1) << 8 | byte(2);
        for k in 0..4 {
            let digit = digits[all >> (18 - 6 * k) & 63] as char;
            out.push(if k <= group.len() { digit } else { '=' });
        }
    }
    out
}

/// A compiled table of three blocks that turns `A` into the text from `leaf` on.
fn table(units: usize, leaf: u32, texts: &str) -> String {
    let mut array = vec![0u32; units];
    array[0] = 0x100 << 10;
    array[0x141] = 0x341 << 10 | 1 << 8 | 0x41;
    array[0x200] = 1 << 31 | leaf;
    let mut bytes = (4 * units as u32).to_le_bytes().to_vec();
    for unit in array {
        bytes.extend(unit.to_le_bytes());
    }
    bytes.extend(texts.as_bytes());
    base64(&bytes)
}

#[test]
fn compiled_tables_are_to_be_sound() {
    let normalize = |written: &str| {
        let part = format!(r#"{{"type": "Precompiled", "precompiled_charsmap": "{written}"}}"#);
        let parts =
            format!(r#"{{"type": "Sequence", "normalizers": [{{"type": "NFC"}}, {part}]}}"#);
        with_parts("null", &parts, WORDS, "null", "null")
    };
    let sound = table(768, 0, "zz\0");
    assert!(written_table_is_sound(&sound));
    encodes(&normalize(&sound), "A a", &[1, 0]);
    encodes(&normalize(&table(768, 3, "q\u{e9}zz")), "A", &[1]);
    encodes(&normalize(&table(768, 2, "zz")), "Azz", &[1]);
    for texts in ["zz\0z", "zz\0"] {
        encodes(&normalize(&table(768, 0, texts)), "A", &[1]);
    }

    refuses(&normalize("AAAAAA=="), "a zz a");
    refuses(&normalize(&table(767, 0, "zz\0")), "a");
    refuses(&normalize(&table(768, 4, "zz\0")), "a");
    refuses(&normalize(&table(768, 2, "q\u{e9}")), "a");
    assert!(!written_table_is_sound(&sound[..sound.len() - 1]));
    assert!(!written_table_is_sound("A-=="));
    assert!(!written_table_is_sound(""));
}

#[test]
fn parts_of_every_other_kind_are_run() {
    let normalize = |part: &str| with_parts("null", part, WORDS, "null", "null");
    for part in [
        r#"{"type": "BertNormalizer", "clean_text": true, "handle_chinese_chars": true,
            "strip_accents": null, "lowercase": true}"#,
        r#"{"type": "Strip", "strip_left": true, "strip_right": true}"#,
        r#"{"type": "StripAccents"}"#,
        r#"{"type": "NFC"}"#,
        r#"{"type": "NFD"}"#,
        r#"{"type": "NFKC"}"#,
        r#"{"type": "NFKD"}"#,
        r#"{"type": "Lowercase"}"#,
        r#"{"type": "Nmt"}"#,
    ] {
        encodes(&normalize(part), " zz a ", &[1, 0]);
    }
    encodes(&normalize(r#"{"type": "ByteLevel"}"#), "zz", &[1]);

    let split = |part: &str| with_parts("null", "null", part, "null", "null");
    for part in [
        r#"{"type": "BertPreTokenizer"}"#,
        r#"{"type": "CharDelimiterSplit", "delimiter": " "}"#,
        r#"{"type": "Whitespace"}"#,
        WORDS,
    ] {
        encodes(&split(part), "zz a", &[1, 0]);
    }
    for part in [
        r#"{"type": "ByteLevel", "add_prefix_space": false, "trim_offsets": true,
            "use_regex": true}"#,
        r#"{"type": "Metaspace", "replacement": "z", "prepend_scheme": "always", "split": false}"#,
        r#"{"type": "Punctuation", "behavior": "Isolated"}"#,
        r#"{"type": "Digits", "individual_digits": true}"#,
        r#"{"type": "UnicodeScripts"}"#,
    ] {
        encodes(&split(part), "zz", &[1]);
    }

    let finish = |part: &str| with_parts("null", "null", WORDS, part, "null");
    for part in [
        r#"{"type": "RobertaProcessing", "sep": ["a", 0], "cls": ["a", 0], "trim_offsets": true,
            "add_prefix_space": true}"#,
        r#"{"type": "BertProcessing", "sep": ["a", 0], "cls": ["a", 0]}"#,
        r#"{"type": "ByteLevel", "add_prefix_space": true, "trim_offsets": true,
            "use_regex": true}"#,
    ] {
        encodes(&finish(part), "zz a", &[1, 0]);
    }

    let decode = |part: &str| with_parts("null", "null", WORDS, "null", part);
    for (part, text) in [
        (r#"{"type": "ByteFallback"}"#, "zza"),
        (
            r#"{"type": "ByteLevel", "add_prefix_space": true, "trim_offsets": true,
            "use_regex": true}"#,
            "zza",
        ),
        (r#"{"type": "CTC", "pad_token": "p", "word_delimiter_token": "|", "cleanup": true}"#, "zza"),
        (r#"{"type": "Fuse"}"#, "zza"),
        (
            r#"{"type": "Metaspace", "replacement": "a", "prepend_scheme": "never",
            "split": true}"#,
            "zz ",
        ),
        (r#"{"type": "WordPiece", "prefix": "x", "cleanup": true}"#, "zz a"),
    ] {
        let tokenizer = decode(part);
        assert!(is_able_to_decode(&tokenizer, &vec![1, 9, 0]));
        assert_eq!(decode_tokens(&tokenizer, &vec![1, 9, 0]).unwrap(), text);
    }
}

#[test]
fn added_tokens_may_strip_on_one_side() {
    let added = |left: bool, right: bool| {
        let json = format!(
            r#"{{"version": "1.0", "truncation": null, "padding": null,
            "added_tokens": [
                {{"id": 2, "content": "A", "single_word": false, "lstrip": false,
                "rstrip": {right}, "normalized": false, "special": true}},
                {{"id": 3, "content": " ", "single_word": false, "lstrip": {left},
                "rstrip": false, "normalized": false, "special": true}}],
            "normalizer": null, "pre_tokenizer": {WORDS}, "post_processor": null,
            "decoder": null,
            "model": {{"type": "WordLevel", "unk_token": "a",
                "vocab": {{"a": 0, "zz": 1, "A": 2, " ": 3}}}}}}"#
        );
        Tokenizer::from_bytes(json.as_bytes()).unwrap()
    };
    refuses(&added(true, true), "A  ");
    encodes(&added(true, false), "A  ", &[2, 3, 3]);
    encodes(&added(false, true), "Azz", &[2, 1]);
    encodes(&added(false, false), "zz A", &[1, 3, 2]);
}

#[test]
fn templates_for_two_texts_are_refused() {
    let piece = |id: &str| format!(r#"{{"Sequence": {{"id": "{id}", "type_id": 0}}}}"#);
    let template = |single: &[&str], pair: &[&str]| {
        let list = |ids: &[&str]| ids.iter().map(|id| piece(id)).collect::<Vec<_>>().join(", ");
        format!(
            r#"{{"type": "TemplateProcessing", "single": [{}], "pair": [{}],
            "special_tokens": {{}}}}"#,
            list(single),
            list(pair)
        )
    };
    let list = |items: &[String]| {
        format!(r#"{{"type": "Sequence", "processors": [{}]}}"#, items.join(", "))
    };
    let finish = |parts: &str| with_parts("null", "null", WORDS, parts, "null");
    refuses(&finish(&template(&["B"], &["A", "B"])), "a zz a");
    let (one, two) = (template(&["A"], &["B"]), template(&["A", "A"], &["A", "B"]));
    encodes(&finish(&one), "zz a", &[1, 0]);
    encodes(&finish(&list(&[one.clone()])), "zz", &[1]);
    encodes(&finish(&list(&[one.clone(), one.clone()])), "zz a", &[1, 0]);
    encodes(&finish(&list(&[two.clone(), one.clone()])), "zz a", &[1, 0]);
    encodes(&finish(&list(&[two.clone(), two.clone(), one.clone()])), "zz", &[1]);
    encodes(&finish(&list(&[one, two.clone()])), "zz", &[1, 1]);
    let three = template(&["A", "A", "A"], &[]);
    encodes(&finish(&three), "a", &[0, 0, 0]);
    refuses(&finish(&list(&[three, two.clone()])), "a");
    let nothing = template(&[], &[]);
    encodes(&finish(&nothing), "a", &[]);
    refuses(&finish(&list(&[nothing, two])), "a");
    let named = r#"{"type": "TemplateProcessing", "single": [{"Sequence": {"id": "A",
        "type_id": 0}}, {"SpecialToken": {"id": "Sequence { id: B", "type_id": 0}}], "pair": [],
        "special_tokens": {"Sequence { id: B": {"id": "Sequence { id: B", "ids": [0],
        "tokens": ["a"]}}}"#;
    encodes(&finish(named), "zz", &[1]);
}

#[test]
fn decoders_that_strip_too_much_are_refused() {
    let decode = |parts: &str| with_parts("null", "null", WORDS, "null", parts);
    let strip = |start: usize, stop: usize| {
        format!(r#"{{"type": "Strip", "content": "z", "start": {start}, "stop": {stop}}}"#)
    };
    for (start, stop) in [(1, 2), (2, 1), (0, 3)] {
        let refused = decode(&strip(start, stop));
        assert!(!is_able_to_decode(&refused, &vec![0, 1]));
        let error = decode_tokens(&refused, &vec![0, 1]).unwrap_err();
        assert_eq!(error.message, "unsupported decoder");
        assert_eq!(decode_tokens(&refused, &vec![0]).unwrap(), "a");
    }
    assert_eq!(decode_tokens(&decode(&strip(1, 0)), &vec![1]).unwrap(), "z");
    assert_eq!(decode_tokens(&decode(&strip(1, 1)), &vec![1]).unwrap(), "");
    assert_eq!(decode_tokens(&decode(&strip(5, 0)), &vec![1]).unwrap(), "");
    let fused = |start: usize, stop: usize| {
        let parts = format!(
            r#"{{"type": "Sequence", "decoders": [{{"type": "Fuse"}}, {}]}}"#,
            strip(start, stop)
        );
        decode(&parts)
    };
    assert_eq!(decode_tokens(&fused(3, 3), &vec![1, 0, 1]).unwrap(), "a");
    assert_eq!(decode_tokens(&fused(2, 2), &vec![1, 1]).unwrap(), "");
    assert!(!is_able_to_decode(&fused(2, 2), &vec![1]));
    assert!(!is_able_to_decode(&fused(0, 1), &vec![]));
}

#[test]
fn a_decoder_of_word_ends_needs_a_token() {
    let decode = |parts: &str| with_parts("null", "null", WORDS, "null", parts);
    let ends = r#"{"type": "BPEDecoder", "suffix": "z"}"#;
    let words = decode(ends);
    assert_eq!(decode_tokens(&words, &vec![1, 0]).unwrap(), "  a");
    for nothing in [vec![], vec![9], vec![7]] {
        assert!(!is_able_to_decode(&words, &nothing));
        assert!(decode_tokens(&words, &nothing).is_err());
    }
    let list = |first: &str| format!(r#"{{"type": "Sequence", "decoders": [{first}, {ends}]}}"#);
    assert!(is_able_to_decode(&decode(&list(r#"{"type": "Fuse"}"#)), &vec![]));
    let dropping = r#"{"type": "CTC", "pad_token": "a", "word_delimiter_token": "|",
        "cleanup": false}"#;
    assert!(!is_able_to_decode(&decode(&list(dropping)), &vec![0]));
    assert_eq!(decode_tokens(&decode(&list(dropping)), &vec![0, 1]).unwrap(), "");
    assert_eq!(decode_tokens(&decode("null"), &vec![]).unwrap(), "");
}
