//! The conversation: reading lines, keeping the context within its limit, assembling a reply.
use crate::prompt;
use crate::text;
use crate::tokenizer;
use vstd::prelude::*;

verus! {

/// The completed turns of a conversation and the tokens that the model has seen.
#[derive(Debug)]
pub struct ChatState {
    pub turns: Vec<(String, String)>,
    pub tokens: Vec<u32>,
}

impl ChatState {
    /// A conversation that has not begun.
    pub fn new() -> (r: ChatState)
        ensures
            r.turns@ == Seq::<(String, String)>::empty(),
            r.tokens@ == Seq::<u32>::empty(),
    {
        ChatState { turns: Vec::new(), tokens: Vec::new() }
    }

    /// Whether nothing has been said yet.
    pub open spec fn is_fresh(&self) -> bool {
        self.turns@.len() == 0 && self.tokens@.len() == 0
    }
}

/// What the line editor reports.
#[derive(Debug)]
pub enum LineEvent {
    /// A line was entered.
    Line(String),
    /// The line was interrupted.
    Interrupted,
    /// The input has ended.
    Eof,
    /// Reading failed.
    Failed,
}

/// What the chat does next.
#[derive(Debug)]
pub enum ChatAction {
    /// Read the next line, on a new line of output where `newline` says so.
    ReadAgain { newline: bool },
    /// Leave the chat, with a new line of output first where `newline` says so.
    Leave { newline: bool },
    /// Give up, since reading failed.
    Fail,
    /// Answer `user`; the model is to continue `prompt`.
    Answer { user: String, prompt: String },
}

/// What was typed, without the white space around it.
pub open spec fn typed(line: Seq<char>) -> Seq<char> {
    text::trim_end(text::trim_start(line))
}

/// The words that leave the chat.
pub open spec fn is_farewell(line: Seq<char>) -> bool {
    line == "exit"@ || line == "quit"@
}

/// The prompt with which a chat turn begins.
///
/// The first turn of a conversation follows the options of the run. A later turn is the user's
/// message alone.
pub open spec fn chat_prompt(args: prompt::Args, fresh: bool, user: Seq<char>) -> Seq<char> {
    if !fresh {
        prompt::user_turn(user)
    } else if args.raw_prompt {
        user
    } else if args.no_system {
        prompt::user_turn(user)
    } else {
        prompt::section("system"@, args.system@) + prompt::user_turn(user)
    }
}

/// What the chat does after an event of the line editor.
pub fn chat_step(args: &prompt::Args, state: &ChatState, event: &LineEvent) -> (r: ChatAction)
    ensures
        match *event {
            LineEvent::Line(line) => {
                let user = typed(line@);
                if user.len() == 0 {
                    r == (ChatAction::ReadAgain { newline: false })
                } else if is_farewell(user) {
                    r == (ChatAction::Leave { newline: false })
                } else {
                    r matches ChatAction::Answer { user: u, prompt: p } && u@ == user && p@
                        == chat_prompt(*args, state.is_fresh(), user)
                }
            },
            LineEvent::Interrupted => r == (ChatAction::ReadAgain { newline: true }),
            LineEvent::Eof => r == (ChatAction::Leave { newline: true }),
            LineEvent::Failed => r == ChatAction::Fail,
        },
{
    match event {
        LineEvent::Line(line) => {
            let user = text::trim(line.as_str());
            if user.is_empty() {
                return ChatAction::ReadAgain { newline: false };
            }
            if text::same_text(user, "exit") || text::same_text(user, "quit") {
                return ChatAction::Leave { newline: false };
            }
            let opening = if state.turns.len() == 0 && state.tokens.len() == 0 {
                prompt::build_prompt_for_args(
                    args,
                    prompt::PromptKind::Initial { system: args.system.as_str(), user },
                )
            } else {
                prompt::build_prompt(prompt::PromptKind::NextTurn { user })
            };
            ChatAction::Answer { user: user.to_owned(), prompt: opening }
        },
        LineEvent::Interrupted => ChatAction::ReadAgain { newline: true },
        LineEvent::Eof => ChatAction::Leave { newline: true },
        LineEvent::Failed => ChatAction::Fail,
    }
}

/// Records a completed turn; says whether the answer was empty, which leaves the line unfinished.
pub fn finish_turn(state: &mut ChatState, user: &str, answer: &str) -> (empty: bool)
    ensures
        empty == (answer@.len() == 0),
        final(state).tokens@ == old(state).tokens@,
        prompt::turn_texts(final(state).turns@) == prompt::turn_texts(old(state).turns@).push(
            (user@, answer@),
        ),
{
    state.turns.push((user.to_owned(), answer.to_owned()));
    assert(prompt::turn_texts(state.turns@) =~= prompt::turn_texts(old(state).turns@).push(
        (user@, answer@),
    ));
    answer.is_empty()
}

/// Whether `held` tokens of context, `input` tokens of a prompt and the tokens to generate are
/// within the context limit.
pub open spec fn within_limit(args: prompt::Args, held: nat, input: nat) -> bool {
    held + input + args.sample_len <= args.max_context
}

/// Why a reply cannot be generated.
#[derive(Debug, Clone, Copy, PartialEq, Eq, Structural)]
pub enum ReplyError {
    /// The prompt has no tokens.
    EmptyPrompt,
    /// The prompt does not fit into the context.
    PromptTooLong { max_context: usize },
}

impl ReplyError {
    /// The error in words.
    pub fn message(&self) -> (r: String)
        ensures
            r@ == (match *self {
                ReplyError::EmptyPrompt => "prompt produced no tokens"@,
                ReplyError::PromptTooLong { max_context } => "prompt exceeds --max-context ("@
                    + text::decimal(max_context as nat)
                    + " tokens). Reduce prompt size or raise the limit."@,
            }),
    {
        match self {
            ReplyError::EmptyPrompt => "prompt produced no tokens".to_owned(),
            ReplyError::PromptTooLong { max_context } => {
                let mut r = "prompt exceeds --max-context (".to_owned();
                text::push_decimal(&mut r, *max_context as u64);
                r.append(" tokens). Reduce prompt size or raise the limit.");
                r
            },
        }
    }
}

/// What is to be done before the model reads a prompt.
#[derive(Debug, Clone, Copy, PartialEq, Eq, Structural)]
pub enum PrefillStep {
    /// The prompt is refused.
    Refuse(ReplyError),
    /// The context has to be rebuilt first.
    Rebuild,
    /// The model reads the prompt from this position on.
    Read { position: usize },
}

/// What is to be done before the model reads a prompt of `input` tokens when it holds `held`.
///
/// The context is rebuilt at most once for a prompt.
pub open spec fn prefill_step(args: prompt::Args, held: nat, input: nat, rebuilt: bool) -> PrefillStep {
    if input == 0 {
        PrefillStep::Refuse(ReplyError::EmptyPrompt)
    } else if !rebuilt && !within_limit(args, held, input) {
        PrefillStep::Rebuild
    } else if held + input > args.max_context {
        PrefillStep::Refuse(ReplyError::PromptTooLong { max_context: args.max_context })
    } else {
        PrefillStep::Read { position: held as usize }
    }
}

fn limit_kept(args: &prompt::Args, held: usize, input: usize) -> (r: bool)
    ensures
        r == within_limit(*args, held as nat, input as nat),
{
    held as u128 + input as u128 + args.sample_len as u128 <= args.max_context as u128
}

/// What is to be done before the model reads a prompt.
pub fn before_prefill(args: &prompt::Args, state: &ChatState, input: usize, rebuilt: bool) -> (r:
    PrefillStep)
    ensures
        r == prefill_step(*args, state.tokens@.len(), input as nat, rebuilt),
{
    let held: usize = state.tokens.len();
    if input == 0 {
        PrefillStep::Refuse(ReplyError::EmptyPrompt)
    } else if !rebuilt && !limit_kept(args, held, input) {
        PrefillStep::Rebuild
    } else if held as u128 + input as u128 > args.max_context as u128 {
        PrefillStep::Refuse(ReplyError::PromptTooLong { max_context: args.max_context })
    } else {
        PrefillStep::Read { position: held }
    }
}

/// The system message that a replayed conversation begins with.
pub open spec fn replayed_system(args: prompt::Args) -> Option<Seq<char>> {
    if args.no_system {
        None
    } else {
        Some(args.system@)
    }
}

/// The replay of a conversation without its first `dropped` turns.
pub open spec fn replay(args: prompt::Args, turns: Seq<(String, String)>, dropped: int) -> Seq<char> {
    prompt::conversation(replayed_system(args), prompt::turn_texts(turns).skip(dropped), None)
}

/// A context that was rebuilt from the most recent turns.
#[derive(Debug)]
pub struct Rebuilt {
    /// The turns that were kept.
    pub turns: Vec<(String, String)>,
    /// The tokens that the model has to read again; none where even the bare replay is too long.
    pub tokens: Vec<u32>,
}

/// Whether the oldest kept turn has to go: there is one, and its replay is too long.
pub fn must_drop_turn(args: &prompt::Args, kept: usize, replayed: usize, input: usize) -> (r: bool)
    ensures
        r == (kept > 0 && !within_limit(*args, replayed as nat, input as nat)),
{
    kept > 0 && !limit_kept(args, replayed, input)
}

/// The context that a replay of these tokens leaves: the tokens, or none where they are too many.
pub fn context_of_replay(args: &prompt::Args, replayed: Vec<u32>, input: usize) -> (r: Vec<u32>)
    ensures
        r@ == (if within_limit(*args, replayed@.len(), input as nat) {
            replayed@
        } else {
            Seq::empty()
        }),
{
    if limit_kept(args, replayed.len(), input) {
        replayed
    } else {
        Vec::new()
    }
}

/// `ids` is an encoding of the replay without the first `dropped` turns.
pub open spec fn replay_encoding(
    args: prompt::Args,
    tokenizer: tokenizers::Tokenizer,
    turns: Seq<(String, String)>,
    dropped: int,
    ids: Seq<u32>,
) -> bool {
    tokenizer::encoded(tokenizer, replay(args, turns, dropped), Ok(ids))
}

/// The replay without the first `dropped` turns has an encoding that is too long.
pub open spec fn replay_too_long(
    args: prompt::Args,
    tokenizer: tokenizers::Tokenizer,
    turns: Seq<(String, String)>,
    dropped: int,
    input: nat,
) -> bool {
    exists|ids: Seq<u32>| #[trigger]
        replay_encoding(args, tokenizer, turns, dropped, ids) && !within_limit(
            args,
            ids.len(),
            input,
        )
}

/// `ids` is what the replay that drops `dropped` turns was encoded as, `dropped` being the least
/// number of turns whose absence brings the replay within the limit, or all of them.
pub open spec fn trimmed_replay(
    args: prompt::Args,
    tokenizer: tokenizers::Tokenizer,
    turns: Seq<(String, String)>,
    dropped: int,
    input: nat,
    ids: Seq<u32>,
) -> bool {
    &&& 0 <= dropped <= turns.len()
    &&& replay_encoding(args, tokenizer, turns, dropped, ids)
    &&& within_limit(args, ids.len(), input) || dropped == turns.len()
    &&& forall|k: int|
        0 <= k < dropped ==> #[trigger] replay_too_long(args, tokenizer, turns, k, input)
}

/// `rebuilt` is a context for a prompt of `input` tokens: the turns that a trimmed replay keeps,
/// and its tokens, or none where they are too many.
pub open spec fn rebuilt_context(
    args: prompt::Args,
    tokenizer: tokenizers::Tokenizer,
    state: ChatState,
    input: nat,
    rebuilt: Rebuilt,
) -> bool {
    let dropped = state.turns@.len() - rebuilt.turns@.len();
    &&& prompt::turn_texts(rebuilt.turns@) == prompt::turn_texts(state.turns@).skip(dropped)
    &&& rebuilt.tokens@.len() == 0 || within_limit(args, rebuilt.tokens@.len(), input)
    &&& exists|ids: Seq<u32>| #[trigger]
        trimmed_replay(args, tokenizer, state.turns@, dropped, input, ids) && rebuilt.tokens@ == (
        if within_limit(args, ids.len(), input) {
            ids
        } else {
            Seq::empty()
        })
}

/// The replay without the first `dropped` turns cannot be encoded, for the reason that `message`
/// gives, and with any more of them it is too long.
pub open spec fn replay_fails(
    args: prompt::Args,
    tokenizer: tokenizers::Tokenizer,
    turns: Seq<(String, String)>,
    dropped: int,
    input: nat,
    message: Seq<char>,
) -> bool {
    &&& 0 <= dropped <= turns.len()
    &&& tokenizer::encoded(tokenizer, replay(args, turns, dropped), Err(message))
    &&& forall|k: int|
        0 <= k < dropped ==> #[trigger] replay_too_long(args, tokenizer, turns, k, input)
}

/// The context cannot be rebuilt for a prompt of `input` tokens, for the reason that `message` gives.
pub open spec fn rebuilding_fails(
    args: prompt::Args,
    tokenizer: tokenizers::Tokenizer,
    state: ChatState,
    input: nat,
    message: Seq<char>,
) -> bool {
    exists|dropped: int| #[trigger]
        replay_fails(args, tokenizer, state.turns@, dropped, input, message)
}

/// Rebuilds the context for a prompt of `input` tokens.
///
/// The oldest turns are dropped, one at a time, until the replay of the rest, the prompt and the
/// tokens to generate are within the limit. Where they are not even without any turn, the model
/// starts from an empty context.
pub fn rebuild_state_for_current_turn(
    args: &prompt::Args,
    tokenizer: &tokenizers::Tokenizer,
    state: &ChatState,
    input: usize,
) -> (r: Result<Rebuilt, tokenizer::TokenizerError>)
    ensures
        r matches Ok(rebuilt) ==> rebuilt_context(*args, *tokenizer, *state, input as nat, rebuilt),
        r matches Err(error) ==> rebuilding_fails(
            *args,
            *tokenizer,
            *state,
            input as nat,
            error.message@,
        ),
{
    let system: Option<&str> = if args.no_system {
        None
    } else {
        Some(args.system.as_str())
    };
    let mut kept = copy_turns(&state.turns);
    let ghost texts = prompt::turn_texts(state.turns@);
    assert(texts.skip(0) =~= texts);
    let mut replayed = match tokenizer::encode_prompt(
        tokenizer,
        prompt::build_prompt_from_history(system, &kept, None).as_str(),
    ) {
        Ok(ids) => ids,
        Err(e) => {
            assert(replay_fails(*args, *tokenizer, state.turns@, 0, input as nat, e.message@));
            return Err(e);
        },
    };
    let ghost mut dropped: int = 0;
    while must_drop_turn(args, kept.len(), replayed.len(), input)
        invariant
            texts == prompt::turn_texts(state.turns@),
            0 <= dropped <= state.turns@.len(),
            kept@.len() == state.turns@.len() - dropped,
            prompt::turn_texts(kept@) == texts.skip(dropped),
            prompt::optional_text(system) == replayed_system(*args),
            replay_encoding(*args, *tokenizer, state.turns@, dropped, replayed@),
            forall|k: int|
                0 <= k < dropped ==> #[trigger] replay_too_long(
                    *args,
                    *tokenizer,
                    state.turns@,
                    k,
                    input as nat,
                ),
        decreases kept@.len(),
    {
        kept.remove(0);
        proof {
            assert(prompt::turn_texts(kept@) =~= texts.skip(dropped).drop_first());
            assert(texts.skip(dropped).drop_first() =~= texts.skip(dropped + 1));
            assert(replay_too_long(*args, *tokenizer, state.turns@, dropped, input as nat));
            dropped = dropped + 1;
        }
        replayed =
        match tokenizer::encode_prompt(
            tokenizer,
            prompt::build_prompt_from_history(system, &kept, None).as_str(),
        ) {
            Ok(ids) => ids,
            Err(e) => {
                assert(replay_fails(
                    *args,
                    *tokenizer,
                    state.turns@,
                    dropped,
                    input as nat,
                    e.message@,
                ));
                return Err(e);
            },
        };
    }
    assert(trimmed_replay(*args, *tokenizer, state.turns@, dropped, input as nat, replayed@));
    let tokens = context_of_replay(args, replayed, input);
    Ok(Rebuilt { turns: kept, tokens })
}

fn copy_turns(turns: &Vec<(String, String)>) -> (r: Vec<(String, String)>)
    ensures
        r@.len() == turns@.len(),
        prompt::turn_texts(r@) == prompt::turn_texts(turns@),
{
    let mut r: Vec<(String, String)> = Vec::new();
    let mut i: usize = 0;
    while i < turns.len()
        invariant
            0 <= i <= turns@.len(),
            r@.len() == i,
            forall|k: int|
                0 <= k < i ==> (#[trigger] r@[k]).0@ == turns@[k].0@ && r@[k].1@ == turns@[k].1@,
        decreases turns@.len() - i,
    {
        r.push((turns[i].0.clone(), turns[i].1.clone()));
        i = i + 1;
    }
    assert(prompt::turn_texts(r@) =~= prompt::turn_texts(turns@));
    r
}

/// Makes a conversation out of a rebuilt context whose tokens the model has not read yet.
pub fn install_turns(state: &mut ChatState, turns: Vec<(String, String)>)
    ensures
        final(state).turns@ == turns@,
        final(state).tokens@ == Seq::<u32>::empty(),
{
    state.turns = turns;
    state.tokens = Vec::new();
}

/// `text` up to its first replacement character, which stands for bytes of an unfinished one.
pub open spec fn stable_text(text: Seq<char>) -> Seq<char> {
    text::prefix_while(text, |c: char| c != '\u{fffd}')
}

/// The part of a partially decoded text that later tokens cannot change.
pub fn stable_prefix<'a>(text: &'a str) -> (r: &'a str)
    ensures
        r@ == stable_text(text@),
        r@.is_prefix_of(text@),
        !r@.contains('\u{fffd}'),
{
    let chars = text::chars_of(text);
    let ghost keep = |c: char| c != '\u{fffd}';
    let mut end: usize = 0;
    while end < chars.len() && chars[end] != '\u{fffd}'
        invariant
            chars@ == text@,
            0 <= end <= text@.len(),
            forall|i: int| 0 <= i < end ==> #[trigger] text@[i] != '\u{fffd}',
        decreases text@.len() - end,
    {
        end = end + 1;
    }
    proof {
        text::lemma_prefix_while(text@, keep);
        let p = text::prefix_while(text@, keep);
        if p.len() < end {
            assert(text@[p.len() as int] != '\u{fffd}');
        }
        if p.len() > end {
            assert(keep(p[end as int]));
            assert(p[end as int] == text@[end as int]);
        }
        assert(p =~= text@.subrange(0, end as int));
    }
    text.substring_char(0, end)
}

/// What a longer text adds to the text that is visible: nothing where it does not begin with it.
pub open spec fn addition(visible: Seq<char>, text: Seq<char>) -> Option<Seq<char>> {
    if visible.is_prefix_of(text) && visible.len() < text.len() {
        Some(text.skip(visible.len() as int))
    } else {
        None
    }
}

/// `visible` with what `text` adds to it.
pub open spec fn shown(visible: Seq<char>, text: Seq<char>) -> Seq<char> {
    if visible.is_prefix_of(text) {
        text
    } else {
        visible
    }
}

/// Shows what `text` adds to the visible text; the addition is to be printed.
pub fn show(visible: &mut String, text: &str) -> (printed: Option<String>)
    ensures
        final(visible)@ == shown(old(visible)@, text@),
        match addition(old(visible)@, text@) {
            Some(added) => printed matches Some(p) && p@ == added,
            None => printed is None,
        },
        final(visible)@ == old(visible)@ + (match printed {
            Some(p) => p@,
            None => Seq::empty(),
        }),
{
    match text::without_prefix(text, visible.as_str()) {
        Some(suffix) => {
            let ghost before = visible@;
            assert(text@.skip(before.len() as int) =~= suffix@);
            if suffix.is_empty() {
                assert(text@ =~= before);
                assert(before + Seq::<char>::empty() =~= before);
                None
            } else {
                visible.append(suffix);
                Some(suffix.to_owned())
            }
        },
        None => {
            assert(visible@ + Seq::<char>::empty() =~= visible@);
            None
        },
    }
}

/// A reply that is being generated.
#[derive(Debug)]
pub struct Reply {
    /// Where the generated tokens begin among the tokens of the conversation.
    pub start: usize,
    /// Whether the reply is shown while it is generated.
    pub stream: bool,
    /// The text shown so far.
    pub visible: String,
    /// The sampled tokens that are shown.
    pub streamed: Vec<u32>,
    /// All sampled tokens.
    pub sampled: Vec<u32>,
}

/// What to do after a token was sampled.
#[derive(Debug)]
pub enum TokenStep {
    /// The message is complete.
    Stop,
    /// Print what became visible, and let the model read the token at `position`.
    Continue { printed: Option<String>, position: usize },
}

/// A finished reply.
#[derive(Debug)]
pub struct Finished {
    /// The text of the reply.
    pub text: String,
    /// What is still to be printed.
    pub printed: Option<String>,
    /// The tokens of the reply, without the end of the message.
    pub tokens: Vec<u32>,
}

/// The position behind the last of `tokens` that is not `eos`; `otherwise` where there is none.
pub open spec fn end_without(tokens: Seq<u32>, eos: u32, otherwise: int) -> int
    decreases tokens.len(),
{
    if tokens.len() == 0 {
        otherwise
    } else if tokens.last() != eos {
        tokens.len() as int
    } else {
        end_without(tokens.drop_last(), eos, otherwise)
    }
}

/// Where the tokens of a reply that begins at `start` end.
pub open spec fn reply_end_of(tokens: Seq<u32>, start: int, eos: Option<u32>) -> int {
    match eos {
        Some(id) => end_without(tokens, id, start),
        None => tokens.len() as int,
    }
}

/// How a reply goes on with a sampled token when the conversation holds `held` tokens.
pub open spec fn token_taken(
    tokenizer: tokenizers::Tokenizer,
    before: Reply,
    held: nat,
    token: u32,
    eos: Option<u32>,
    after: Reply,
    r: Result<TokenStep, tokenizer::TokenizerError>,
) -> bool {
    &&& after.start == before.start
    &&& after.stream == before.stream
    &&& after.sampled@ == before.sampled@.push(token)
    &&& after.streamed@ == (if before.stream && eos != Some(token) {
        before.streamed@.push(token)
    } else {
        before.streamed@
    })
    &&& if eos == Some(token) {
        r matches Ok(TokenStep::Stop) && after.visible@ == before.visible@
    } else if !before.stream {
        r == Ok::<TokenStep, tokenizer::TokenizerError>(
            TokenStep::Continue { printed: None, position: held as usize },
        ) && after.visible@ == before.visible@
    } else {
        match tokenizer::decoded(tokenizer, after.streamed@) {
            Ok(text) => {
                &&& after.visible@ == shown(before.visible@, stable_text(text))
                &&& r matches Ok(TokenStep::Continue { printed, position })
                &&& position == held
                &&& match addition(before.visible@, stable_text(text)) {
                    Some(added) => printed matches Some(p) && p@ == added,
                    None => printed is None,
                }
            },
            Err(message) => {
                &&& after.visible@ == before.visible@
                &&& r matches Err(error)
                &&& error.message@ == message
            },
        }
    }
}

/// What becomes of a reply that is finished in a conversation of `tokens`: it is decoded without the
/// end of the message, and what was not visible yet is shown.
pub open spec fn reply_finished(
    tokenizer: tokenizers::Tokenizer,
    reply: Reply,
    tokens: Seq<u32>,
    eos: Option<u32>,
    r: Result<Finished, tokenizer::TokenizerError>,
) -> bool {
    let ids = tokens.subrange(reply.start as int, reply_end_of(tokens, reply.start as int, eos));
    match tokenizer::decoded(tokenizer, ids) {
        Ok(text) => {
            &&& r matches Ok(finished)
            &&& finished.tokens@ == ids
            &&& finished.text@ == (if reply.stream {
                shown(reply.visible@, text)
            } else {
                text
            })
            &&& match addition(reply.visible@, text) {
                Some(added) => if reply.stream {
                    finished.printed matches Some(p) && p@ == added
                } else {
                    finished.printed is None
                },
                None => finished.printed is None,
            }
        },
        Err(message) => r matches Err(error) && error.message@ == message,
    }
}

impl Reply {
    /// The sampled tokens are the last ones of the conversation, and nothing unfinished is visible.
    pub open spec fn well_formed(&self, state: ChatState) -> bool {
        &&& self.start <= state.tokens@.len()
        &&& state.tokens@.skip(self.start as int) == self.sampled@
        &&& !self.visible@.contains('\u{fffd}')
    }

    /// A reply of which nothing was generated yet.
    pub open spec fn begins(&self, state: ChatState, stream: bool) -> bool {
        &&& self.start == state.tokens@.len()
        &&& self.stream == stream
        &&& self.visible@ == Seq::<char>::empty()
        &&& self.streamed@ == Seq::<u32>::empty()
        &&& self.sampled@ == Seq::<u32>::empty()
    }

    /// Begins a reply to a prompt that the model has read.
    pub fn begin(state: &mut ChatState, input_ids: &Vec<u32>, stream: bool) -> (r: Reply)
        ensures
            final(state).tokens@ == old(state).tokens@ + input_ids@,
            final(state).turns@ == old(state).turns@,
            r.begins(*final(state), stream),
            r.well_formed(*final(state)),
    {
        state.tokens.extend_from_slice(input_ids.as_slice());
        assert(state.tokens@ =~= old(state).tokens@ + input_ids@);
        let r = Reply {
            start: state.tokens.len(),
            stream,
            visible: String::new(),
            streamed: Vec::new(),
            sampled: Vec::new(),
        };
        assert(state.tokens@.skip(r.start as int) =~= r.sampled@);
        r
    }

    /// Whether another token may be sampled.
    pub fn wants_token(&self, args: &prompt::Args) -> (r: bool)
        ensures
            r == (self.sampled@.len() < args.sample_len),
    {
        self.sampled.len() < args.sample_len
    }

    /// Takes a sampled token.
    ///
    /// The token that ends a message stops the reply. Any other one is to be read by the model,
    /// after the part of the text that became stable was printed.
    pub fn take_token(
        &mut self,
        state: &mut ChatState,
        tokenizer: &tokenizers::Tokenizer,
        token: u32,
        eos: Option<u32>,
    ) -> (r: Result<TokenStep, tokenizer::TokenizerError>)
        requires
            old(self).well_formed(*old(state)),
        ensures
            final(self).well_formed(*final(state)),
            final(state).tokens@ == old(state).tokens@.push(token),
            final(state).turns@ == old(state).turns@,
            token_taken(
                *tokenizer,
                *old(self),
                old(state).tokens@.len(),
                token,
                eos,
                *final(self),
                r,
            ),
    {
        let position: usize = state.tokens.len();
        state.tokens.push(token);
        self.sampled.push(token);
        assert(state.tokens@.skip(self.start as int) =~= self.sampled@);
        match eos {
            Some(id) => {
                if id == token {
                    return Ok(TokenStep::Stop);
                }
            },
            None => {},
        }
        let mut printed: Option<String> = None;
        if self.stream {
            self.streamed.push(token);
            match tokenizer::decode_tokens(tokenizer, &self.streamed) {
                Ok(decoded) => {
                    printed = show(&mut self.visible, stable_prefix(decoded.as_str()));
                },
                Err(e) => {
                    return Err(e);
                },
            }
        }
        Ok(TokenStep::Continue { printed, position })
    }

    /// Where the tokens of the reply end: the end of the message is not part of it.
    ///
    /// Trailing end tokens of the prompt are passed over too, so that the end may lie before the
    /// start where nothing but end tokens was generated.
    pub fn end(&self, state: &ChatState, eos: Option<u32>) -> (r: usize)
        requires
            self.well_formed(*state),
        ensures
            r == reply_end_of(state.tokens@, self.start as int, eos),
            r <= state.tokens@.len(),
    {
        match eos {
            Some(id) => {
                let mut i: usize = state.tokens.len();
                assert(state.tokens@.take(i as int) =~= state.tokens@);
                while i > 0
                    invariant
                        eos == Some(id),
                        0 <= i <= state.tokens@.len(),
                        end_without(state.tokens@, id, self.start as int) == end_without(
                            state.tokens@.take(i as int),
                            id,
                            self.start as int,
                        ),
                    decreases i,
                {
                    assert(state.tokens@.take(i as int).drop_last() =~= state.tokens@.take(i - 1));
                    if state.tokens[i - 1] != id {
                        return i;
                    }
                    i = i - 1;
                }
                self.start
            },
            None => state.tokens.len(),
        }
    }

    /// Finishes the reply: decodes its tokens and shows what was not visible yet.
    ///
    /// A reply that was shown while it was generated is what was shown.
    pub fn finish(
        self,
        state: &ChatState,
        tokenizer: &tokenizers::Tokenizer,
        eos: Option<u32>,
    ) -> (r: Result<Finished, tokenizer::TokenizerError>)
        requires
            self.well_formed(*state),
            self.start <= reply_end_of(state.tokens@, self.start as int, eos),
        ensures
            reply_finished(*tokenizer, self, state.tokens@, eos, r),
    {
        let end = self.end(state, eos);
        let tokens = copy_range(&state.tokens, self.start, end);
        match tokenizer::decode_tokens(tokenizer, &tokens) {
            Ok(decoded) => {
                if self.stream {
                    let mut visible = self.visible;
                    let printed = show(&mut visible, decoded.as_str());
                    Ok(Finished { text: visible, printed, tokens })
                } else {
                    Ok(Finished { text: decoded, printed: None, tokens })
                }
            },
            Err(e) => Err(e),
        }
    }
}

fn copy_range(tokens: &Vec<u32>, from: usize, to: usize) -> (r: Vec<u32>)
    requires
        from <= to <= tokens@.len(),
    ensures
        r@ == tokens@.subrange(from as int, to as int),
{
    let mut r: Vec<u32> = Vec::new();
    let mut i: usize = from;
    while i < to
        invariant
            from <= i <= to <= tokens@.len(),
            r@ == tokens@.subrange(from as int, i as int),
        decreases to - i,
    {
        r.push(tokens[i]);
        assert(r@ =~= tokens@.subrange(from as int, i + 1));
        i = i + 1;
    }
    r
}

/// Where the tokens begin that the repetition penalty looks at.
pub fn penalty_start(args: &prompt::Args, state: &ChatState) -> (r: usize)
    ensures
        r == (if state.tokens@.len() >= args.repeat_last_n {
            state.tokens@.len() - args.repeat_last_n
        } else {
            0
        }),
{
    state.tokens.len().saturating_sub(args.repeat_last_n)
}

/// A prompt that is read without rebuilding leaves room for all tokens that may be generated: the
/// conversation stays within the context limit.
pub proof fn reply_stays_within_limit(
    args: prompt::Args,
    held: nat,
    input: nat,
    sampled: nat,
    rebuilt: bool,
)
    requires
        prefill_step(args, held, input, rebuilt) is Read,
        rebuilt ==> within_limit(args, held, input),
        sampled <= args.sample_len,
    ensures
        held + input + sampled <= args.max_context,
{
}

/// A prompt is only ever read where it fits into the context together with what is held.
pub proof fn read_prompt_fits(args: prompt::Args, held: nat, input: nat, rebuilt: bool)
    requires
        prefill_step(args, held, input, rebuilt) is Read,
    ensures
        0 < input,
        held + input <= args.max_context,
{
}

/// A prompt that alone exceeds the context limit is never read, whatever is held and whether or
/// not the context was rebuilt.
pub proof fn overlong_prompt_is_refused(args: prompt::Args, held: nat, input: nat)
    requires
        input > args.max_context,
    ensures
        prefill_step(args, held, input, true) == PrefillStep::Refuse(
            ReplyError::PromptTooLong { max_context: args.max_context },
        ),
        prefill_step(args, held, input, false) == PrefillStep::Rebuild,
{
}

/// Rebuilding makes room: a prompt that leaves room for the tokens to generate is read after the
/// context was rebuilt, and the reply to it stays within the limit.
pub proof fn rebuilding_makes_room(args: prompt::Args, rebuilt: nat, input: nat)
    requires
        input > 0,
        within_limit(args, 0, input),
        rebuilt == 0 || within_limit(args, rebuilt, input),
    ensures
        prefill_step(args, rebuilt, input, true) == (PrefillStep::Read {
            position: rebuilt as usize,
        }),
        within_limit(args, rebuilt, input),
{
}

/// No turn is dropped where every encoding of the whole replay is within the limit.
pub proof fn nothing_is_dropped_needlessly(
    args: prompt::Args,
    tokenizer: tokenizers::Tokenizer,
    turns: Seq<(String, String)>,
    dropped: int,
    input: nat,
    ids: Seq<u32>,
)
    requires
        trimmed_replay(args, tokenizer, turns, dropped, input, ids),
        forall|all: Seq<u32>| #[trigger]
            replay_encoding(args, tokenizer, turns, 0, all) ==> within_limit(
                args,
                all.len(),
                input,
            ),
    ensures
        dropped == 0,
{
    if dropped > 0 {
        assert(replay_too_long(args, tokenizer, turns, 0, input));
    }
}

/// Everything behind the end of a reply is the end token, and the reply does not end with it.
pub proof fn reply_ends_before_end_tokens(tokens: Seq<u32>, id: u32, start: int)
    ensures
        ({
            let end = end_without(tokens, id, start);
            &&& (exists|i: int| 0 <= i < tokens.len() && tokens[i] != id) ==> {
                &&& 0 < end <= tokens.len()
                &&& tokens[end - 1] != id
                &&& forall|i: int| end <= i < tokens.len() ==> #[trigger] tokens[i] == id
            }
            &&& !(exists|i: int| 0 <= i < tokens.len() && tokens[i] != id) ==> end == start
        }),
    decreases tokens.len(),
{
    if tokens.len() > 0 {
        let rest = tokens.drop_last();
        if tokens.last() != id {
            assert(tokens[tokens.len() - 1] != id);
        } else {
            reply_ends_before_end_tokens(rest, id, start);
            if exists|i: int| 0 <= i < tokens.len() && tokens[i] != id {
                let i = choose|i: int| 0 <= i < tokens.len() && tokens[i] != id;
                assert(rest[i] != id);
                let end = end_without(rest, id, start);
                assert forall|k: int| end <= k < tokens.len() implies #[trigger] tokens[k] == id by {
                    if k < rest.len() {
                        assert(rest[k] == id);
                    }
                }
            } else {
                assert forall|i: int| 0 <= i < rest.len() implies rest[i] == id by {
                    assert(tokens[i] == id);
                }
            }
        }
    }
}

/// A prompt whose last token is not the end token keeps the reply in range: the reply is the
/// sampled tokens without the end tokens behind them.
pub proof fn reply_is_what_was_sampled(tokens: Seq<u32>, id: u32, start: int)
    requires
        0 < start <= tokens.len(),
        tokens[start - 1] != id,
    ensures
        ({
            let end = end_without(tokens, id, start);
            &&& start <= end <= tokens.len()
            &&& forall|i: int| end <= i < tokens.len() ==> #[trigger] tokens[i] == id
            &&& start < end ==> tokens[end - 1] != id
        }),
{
    reply_ends_before_end_tokens(tokens, id, start);
    let end = end_without(tokens, id, start);
    if end < start {
        assert(tokens[start - 1] == id);
    }
}

/// What is visible is never taken back, and a text that begins with it becomes visible whole.
pub proof fn visible_text_only_grows(visible: Seq<char>, text: Seq<char>)
    ensures
        visible.is_prefix_of(shown(visible, text)),
        visible.is_prefix_of(text) ==> shown(visible, text) == text,
        shown(visible, text) == visible + (match addition(visible, text) {
            Some(added) => added,
            None => Seq::empty(),
        }),
{
    if visible.is_prefix_of(text) {
        assert(text =~= visible + text.skip(visible.len() as int));
        if visible.len() == text.len() {
            assert(visible =~= text);
            assert(visible + Seq::<char>::empty() =~= visible);
        }
    } else {
        assert(visible + Seq::<char>::empty() =~= visible);
    }
}

/// The text that is visible after `texts` were shown one after the other.
pub open spec fn visible_after(texts: Seq<Seq<char>>) -> Seq<char>
    decreases texts.len(),
{
    if texts.len() == 0 {
        Seq::empty()
    } else {
        shown(visible_after(texts.drop_last()), texts.last())
    }
}

/// Everything that is printed while `texts` are shown one after the other.
pub open spec fn printed_while_showing(texts: Seq<Seq<char>>) -> Seq<char>
    decreases texts.len(),
{
    if texts.len() == 0 {
        Seq::empty()
    } else {
        printed_while_showing(texts.drop_last()) + (match addition(
            visible_after(texts.drop_last()),
            texts.last(),
        ) {
            Some(added) => added,
            None => Seq::empty(),
        })
    }
}

/// What was printed piece by piece is the text that is visible in the end: nothing is printed twice,
/// and nothing is left out.
pub proof fn printed_pieces_make_the_reply(texts: Seq<Seq<char>>)
    ensures
        printed_while_showing(texts) == visible_after(texts),
    decreases texts.len(),
{
    if texts.len() > 0 {
        printed_pieces_make_the_reply(texts.drop_last());
        visible_text_only_grows(visible_after(texts.drop_last()), texts.last());
    }
}

/// Nothing unfinished is visible where the texts that are shown are stable.
pub proof fn stable_texts_show_nothing_unfinished(texts: Seq<Seq<char>>)
    requires
        forall|k: int| 0 <= k < texts.len() ==> !(#[trigger] texts[k]).contains('\u{fffd}'),
    ensures
        !visible_after(texts).contains('\u{fffd}'),
    decreases texts.len(),
{
    if texts.len() > 0 {
        assert forall|k: int| 0 <= k < texts.len() - 1 implies !(
        #[trigger] texts.drop_last()[k]).contains('\u{fffd}') by {
            assert(texts.drop_last()[k] == texts[k]);
        }
        stable_texts_show_nothing_unfinished(texts.drop_last());
        assert(texts.last() == texts[texts.len() - 1]);
    }
}

/// A stable text has no mark of an unfinished character.
pub proof fn stable_text_is_finished(text: Seq<char>)
    ensures
        !stable_text(text).contains('\u{fffd}'),
{
    let keep = |c: char| c != '\u{fffd}';
    text::lemma_prefix_while(text, keep);
    let p = stable_text(text);
    assert forall|i: int| 0 <= i < p.len() implies p[i] != '\u{fffd}' by {
        assert(keep(p[i]));
    }
}

/// The first chat turn opens with the prompt that a run with the same options builds for its
/// initial turn.
pub proof fn first_turn_opens_as_a_run(args: prompt::Args, system: &str, user: &str)
    requires
        system@ == args.system@,
    ensures
        chat_prompt(args, true, user@) == prompt::run_prompt(
            args,
            prompt::PromptKind::Initial { system, user },
        ),
{
}

/// The first chat turn is the replay of a conversation without a completed turn, in which this
/// message is open, under the system message that replays begin with.
pub proof fn first_turn_is_its_own_replay(args: prompt::Args, user: Seq<char>)
    requires
        !args.raw_prompt,
    ensures
        chat_prompt(args, true, user) == prompt::conversation(
            replayed_system(args),
            Seq::empty(),
            Some(user),
        ),
        chat_prompt(args, true, user) == replay(args, Seq::empty(), 0) + chat_prompt(
            args,
            false,
            user,
        ),
{
    let none = Seq::<(Seq<char>, Seq<char>)>::empty();
    assert(prompt::turn_texts(Seq::empty()).skip(0) =~= none);
    assert(prompt::turns_part(none) =~= Seq::empty());
    assert(prompt::conversation(replayed_system(args), none, Some(user)) =~= chat_prompt(
        args,
        true,
        user,
    ));
    assert(replay(args, Seq::empty(), 0) + chat_prompt(args, false, user) =~= chat_prompt(
        args,
        true,
        user,
    ));
}

/// A chat without a system prompt opens with the user's message alone, whatever the system prompt
/// would be. A chat with one opens with the system message, and then the user's.
pub proof fn first_turn_written_out(args: prompt::Args, user: Seq<char>)
    requires
        !args.raw_prompt,
    ensures
        args.no_system ==> chat_prompt(args, true, user) == "<|im_start|>user\n"@ + user
            + "<|im_end|>\n<|im_start|>assistant\n"@,
        !args.no_system ==> chat_prompt(args, true, user) == "<|im_start|>system\n"@
            + args.system@ + "<|im_end|>\n<|im_start|>user\n"@ + user
            + "<|im_end|>\n<|im_start|>assistant\n"@,
        chat_prompt(args, false, user) == "<|im_start|>user\n"@ + user
            + "<|im_end|>\n<|im_start|>assistant\n"@,
{
    let none = Seq::<(Seq<char>, Seq<char>)>::empty();
    prompt::conversation_written_out(replayed_system(args), none, (user, user), user);
    first_turn_is_its_own_replay(args, user);
    let rest = "<|im_start|>user\n"@ + user + "<|im_end|>\n<|im_start|>assistant\n"@;
    prompt::conversation_written_out(None, none, (user, user), user);
    assert(prompt::conversation(None, none, None) =~= Seq::empty());
    assert(prompt::turns_part(none) =~= Seq::empty());
    assert(prompt::conversation(None, none, Some(user)) =~= prompt::user_turn(user));
    assert(prompt::conversation(None, none, Some(user)) =~= rest);
    if !args.no_system {
        reveal_strlit("<|im_end|>\n");
        reveal_strlit("<|im_start|>user\n");
        reveal_strlit("<|im_end|>\n<|im_start|>user\n");
        assert("<|im_end|>\n"@ + "<|im_start|>user\n"@ =~= "<|im_end|>\n<|im_start|>user\n"@);
        assert(chat_prompt(args, true, user) =~= "<|im_start|>system\n"@ + args.system@
            + "<|im_end|>\n<|im_start|>user\n"@ + user
            + "<|im_end|>\n<|im_start|>assistant\n"@);
    }
}

/// With the system prompt left out, two runs that differ only in it open a chat alike.
pub proof fn omitted_system_prompt_does_not_matter(
    a: prompt::Args,
    b: prompt::Args,
    turns: Seq<(String, String)>,
    dropped: int,
    fresh: bool,
    user: Seq<char>,
)
    requires
        a.no_system,
        b.no_system,
        a.raw_prompt == b.raw_prompt,
    ensures
        chat_prompt(a, fresh, user) == chat_prompt(b, fresh, user),
        replay(a, turns, dropped) == replay(b, turns, dropped),
{
}

/// A later chat turn continues the conversation: behind the replay of the completed turns it is the
/// replay in which this message is open.
pub proof fn later_turn_continues_the_replay(
    args: prompt::Args,
    turns: Seq<(String, String)>,
    user: Seq<char>,
)
    ensures
        replay(args, turns, 0) + chat_prompt(args, false, user) == prompt::conversation(
            replayed_system(args),
            prompt::turn_texts(turns),
            Some(user),
        ),
{
    assert(prompt::turn_texts(turns).skip(0) =~= prompt::turn_texts(turns));
    assert(replay(args, turns, 0) + chat_prompt(args, false, user) =~= prompt::conversation(
        replayed_system(args),
        prompt::turn_texts(turns),
        Some(user),
    ));
}

/// A replay holds the system message exactly where the run does not leave it out, and then the kept
/// turns, the oldest ones having been dropped.
pub proof fn replay_written_out(args: prompt::Args, turns: Seq<(String, String)>, dropped: int)
    requires
        0 <= dropped < turns.len(),
    ensures
        args.no_system ==> replay(args, Seq::empty(), 0).len() == 0,
        !args.no_system ==> replay(args, Seq::empty(), 0) == "<|im_start|>system\n"@ + args.system@
            + "<|im_end|>\n"@,
        replay(args, turns, turns.len() as int) == replay(args, Seq::empty(), 0),
        replay(args, turns, dropped) == replay(args, turns.drop_last(), dropped)
            + "<|im_start|>user\n"@ + turns.last().0@
            + "<|im_end|>\n<|im_start|>assistant\n"@ + turns.last().1@ + "<|im_end|>\n"@,
        replay(args, turns, dropped) == replay(args, turns.skip(dropped), 0),
{
    let none = Seq::<(Seq<char>, Seq<char>)>::empty();
    let texts = prompt::turn_texts(turns);
    let last = (turns.last().0@, turns.last().1@);
    assert(prompt::turn_texts(Seq::empty()).skip(0) =~= none);
    assert(texts.skip(turns.len() as int) =~= none);
    let kept = prompt::turn_texts(turns.drop_last()).skip(dropped);
    assert(texts.skip(dropped) =~= kept.push(last));
    prompt::conversation_written_out(replayed_system(args), kept, last, Seq::empty());
    assert(prompt::turn_texts(turns.skip(dropped)).skip(0) =~= texts.skip(dropped));
    prompt::conversation_written_out(replayed_system(args), none, last, Seq::empty());
}

/// What was typed is the line without the white space around it: it neither begins nor ends with
/// white space, and what was taken off on either side is white space.
pub proof fn typed_text_is_the_line_without_its_margins(line: Seq<char>)
    ensures
        exists|left: Seq<char>, right: Seq<char>|
            {
                &&& line == #[trigger] (left + typed(line) + right)
                &&& forall|i: int| 0 <= i < left.len() ==> text::is_white_space(#[trigger] left[i])
                &&& forall|i: int|
                    0 <= i < right.len() ==> text::is_white_space(#[trigger] right[i])
            },
        typed(line).len() > 0 ==> !text::is_white_space(typed(line)[0]) && !text::is_white_space(
            typed(line).last(),
        ),
{
    let left = text::lemma_trimmed_start(line);
    let rest = text::trim_start(line);
    let right = text::lemma_trimmed_end(rest);
    assert(line =~= left + typed(line) + right);
    if typed(line).len() > 0 {
        assert(rest[0] == typed(line)[0]);
    }
}

/// The stable part of a text is all that stands before its first mark of an unfinished character:
/// the whole text where there is none.
pub proof fn stable_text_ends_at_the_first_mark(text: Seq<char>)
    ensures
        stable_text(text).is_prefix_of(text),
        !text.contains('\u{fffd}') ==> stable_text(text) == text,
        text.contains('\u{fffd}') ==> stable_text(text).len() < text.len()
            && text[stable_text(text).len() as int] == '\u{fffd}',
{
    let keep = |c: char| c != '\u{fffd}';
    text::lemma_prefix_while(text, keep);
    stable_text_is_finished(text);
    let p = stable_text(text);
    if p.len() == text.len() {
        assert(p =~= text);
    } else {
        assert(text[p.len() as int] == '\u{fffd}');
        assert(text.contains('\u{fffd}'));
    }
}

/// When a prompt is read. A prompt without tokens is refused. Any other one is read right behind
/// what is held exactly where it and all tokens that may be generated fit into the context; where
/// they do not, the context is rebuilt, once, and then the prompt is read exactly where it fits in
/// itself.
pub proof fn prompts_are_read_where_they_fit(args: prompt::Args, held: usize, input: nat)
    ensures
        forall|rebuilt: bool| #[trigger]
            prefill_step(args, held as nat, 0, rebuilt) == PrefillStep::Refuse(
                ReplyError::EmptyPrompt,
            ),
        input > 0 ==> prefill_step(args, held as nat, input, false) == (if held + input
            + args.sample_len <= args.max_context {
            PrefillStep::Read { position: held }
        } else {
            PrefillStep::Rebuild
        }),
        input > 0 ==> prefill_step(args, held as nat, input, true) == (if held + input
            <= args.max_context {
            PrefillStep::Read { position: held }
        } else {
            PrefillStep::Refuse(ReplyError::PromptTooLong { max_context: args.max_context })
        }),
{
}

/// A rebuilt context keeps the most recent turns, in their order. Its tokens, if there are any, are
/// an encoding of the replay of exactly these turns, and fit into the context together with the
/// prompt and the tokens to generate. A turn was dropped only where its replay did not fit.
pub proof fn rebuilt_context_replays_the_recent_turns(
    args: prompt::Args,
    tokenizer: tokenizers::Tokenizer,
    state: ChatState,
    input: nat,
    rebuilt: Rebuilt,
    kept: int,
)
    requires
        rebuilt_context(args, tokenizer, state, input, rebuilt),
    ensures
        rebuilt.turns@.len() <= state.turns@.len(),
        prompt::turn_texts(rebuilt.turns@) == prompt::turn_texts(
            state.turns@.skip(state.turns@.len() - rebuilt.turns@.len()),
        ),
        rebuilt.tokens@.len() > 0 ==> {
            &&& tokenizer::encoded(
                tokenizer,
                replay(args, rebuilt.turns@, 0),
                Ok(rebuilt.tokens@),
            )
            &&& rebuilt.tokens@.len() + input + args.sample_len <= args.max_context
        },
        rebuilt.turns@.len() > 0 ==> exists|ids: Seq<u32>|
            {
                &&& #[trigger] tokenizer::encoded(
                    tokenizer,
                    replay(args, rebuilt.turns@, 0),
                    Ok(ids),
                )
                &&& ids == rebuilt.tokens@
            },
        rebuilt.turns@.len() < kept <= state.turns@.len() ==> exists|ids: Seq<u32>|
            {
                &&& #[trigger] tokenizer::encoded(
                    tokenizer,
                    replay(args, state.turns@.skip(state.turns@.len() - kept), 0),
                    Ok(ids),
                )
                &&& ids.len() + input + args.sample_len > args.max_context
            },
{
    let dropped = state.turns@.len() - rebuilt.turns@.len();
    let texts = prompt::turn_texts(state.turns@);
    let ids = choose|ids: Seq<u32>| #[trigger]
        trimmed_replay(args, tokenizer, state.turns@, dropped, input, ids) && rebuilt.tokens@ == (
        if within_limit(args, ids.len(), input) {
            ids
        } else {
            Seq::empty()
        });
    assert(trimmed_replay(args, tokenizer, state.turns@, dropped, input, ids));
    assert(prompt::turn_texts(state.turns@.skip(dropped)) =~= texts.skip(dropped));
    assert(prompt::turn_texts(rebuilt.turns@).skip(0) =~= texts.skip(dropped));
    assert(replay_encoding(args, tokenizer, state.turns@, dropped, ids));
    if rebuilt.turns@.len() < kept <= state.turns@.len() {
        let k = state.turns@.len() - kept;
        assert(replay_too_long(args, tokenizer, state.turns@, k, input));
        let other = choose|other: Seq<u32>| #[trigger]
            replay_encoding(args, tokenizer, state.turns@, k, other) && !within_limit(
                args,
                other.len(),
                input,
            );
        assert(prompt::turn_texts(state.turns@.skip(k)).skip(0) =~= texts.skip(k));
        assert(tokenizer::encoded(
            tokenizer,
            replay(args, state.turns@.skip(k), 0),
            Ok(other),
        ));
    }
}

/// The words that leave a chat are these two, as they are.
pub proof fn two_words_leave_the_chat(line: Seq<char>)
    ensures
        is_farewell(line) <==> line == "exit"@ || line == "quit"@,
{
}

/// A line with a message is answered: the message is what was typed without white space around it.
/// While nothing was said yet, the model continues the opening of the conversation, with the system
/// message unless it is to be left out; as soon as there is a turn or a token, it continues the
/// message alone.
pub proof fn typed_message_is_answered(
    args: prompt::Args,
    state: ChatState,
    before: Seq<char>,
    message: Seq<char>,
    behind: Seq<char>,
    line: String,
    r: ChatAction,
)
    requires
        call_ensures(chat_step, (&args, &state, &LineEvent::Line(line)), r),
        line@ == before + message + behind,
        forall|i: int| 0 <= i < before.len() ==> text::is_white_space(#[trigger] before[i]),
        forall|i: int| 0 <= i < behind.len() ==> text::is_white_space(#[trigger] behind[i]),
        message.len() > 0,
        !text::is_white_space(message[0]),
        !text::is_white_space(message.last()),
        message != "exit"@,
        message != "quit"@,
        !args.raw_prompt,
    ensures
        r matches ChatAction::Answer { user, prompt } && user@ == message && prompt@ == (if (
        state.turns@.len() == 0 && state.tokens@.len() == 0) && !args.no_system {
            "<|im_start|>system\n"@ + args.system@ + "<|im_end|>\n<|im_start|>user\n"@ + message
                + "<|im_end|>\n<|im_start|>assistant\n"@
        } else {
            "<|im_start|>user\n"@ + message + "<|im_end|>\n<|im_start|>assistant\n"@
        }),
{
    lemma_margins_go(before, message, behind);
    first_turn_written_out(args, message);
}

proof fn lemma_margins_go(before: Seq<char>, message: Seq<char>, behind: Seq<char>)
    requires
        forall|i: int| 0 <= i < before.len() ==> text::is_white_space(#[trigger] before[i]),
        forall|i: int| 0 <= i < behind.len() ==> text::is_white_space(#[trigger] behind[i]),
        message.len() > 0,
        !text::is_white_space(message[0]),
        !text::is_white_space(message.last()),
    ensures
        typed(before + message + behind) == message,
    decreases before.len() + behind.len(),
{
    let line = before + message + behind;
    if before.len() > 0 {
        let rest = before.drop_first();
        assert forall|i: int| 0 <= i < rest.len() implies text::is_white_space(
            #[trigger] rest[i],
        ) by {
            assert(rest[i] == before[i + 1]);
        }
        lemma_margins_go(rest, message, behind);
        assert(line.drop_first() =~= rest + message + behind);
        assert(line[0] == before[0]);
    } else {
        assert(line =~= message + behind);
        assert(line[0] == message[0]);
        if behind.len() > 0 {
            let rest = behind.drop_last();
            lemma_margins_go(before, message, rest);
            assert(before + message + rest =~= message + rest);
            assert(line.drop_last() =~= message + rest);
            assert((message + rest)[0] == message[0]);
            assert(line.last() == behind[behind.len() - 1]);
        } else {
            assert(line =~= message);
            assert(line.last() == message.last());
        }
    }
}

/// What is not a message: a line of white space is read again, each of the two words leaves the chat,
/// an interrupted line is read again and the end of the input leaves the chat, both on a new line,
/// and a failure to read gives up.
pub proof fn other_input_is_not_answered(
    args: prompt::Args,
    state: ChatState,
    event: LineEvent,
    r: ChatAction,
)
    requires
        call_ensures(chat_step, (&args, &state, &event), r),
    ensures
        event matches LineEvent::Line(line) && (forall|i: int|
            0 <= i < line@.len() ==> text::is_white_space(#[trigger] line@[i])) ==> r == (
        ChatAction::ReadAgain { newline: false }),
        event matches LineEvent::Line(line) && (line@ == "exit"@ || line@ == "quit"@) ==> r == (
        ChatAction::Leave { newline: false }),
        event is Interrupted ==> r == (ChatAction::ReadAgain { newline: true }),
        event is Eof ==> r == (ChatAction::Leave { newline: true }),
        event is Failed ==> r is Fail,
{
    if let LineEvent::Line(line) = event {
        typed_text_is_the_line_without_its_margins(line@);
        if forall|i: int| 0 <= i < line@.len() ==> text::is_white_space(#[trigger] line@[i]) {
            let rest = text::trim_start(line@);
            let left = text::lemma_trimmed_start(line@);
            let right = text::lemma_trimmed_end(rest);
            if typed(line@).len() > 0 {
                assert(rest[0] == line@[left.len() as int]);
            }
        }
        reveal_strlit("exit");
        reveal_strlit("quit");
        if line@ == "exit"@ || line@ == "quit"@ {
            let none = Seq::<char>::empty();
            assert(none + line@ + none =~= line@);
            lemma_margins_go(none, line@, none);
        }
    }
}

}
