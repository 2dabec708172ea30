//! Run options and the chat prompt format.
use vstd::prelude::*;

verus! {

/// The options of a run.
#[derive(Debug)]
pub struct Args {
    /// The repository of the model.
    pub model: String,
    /// The repository of the quantized model.
    pub quantized_model: String,
    /// Load a GGUF file instead of dense weights.
    pub quantized: bool,
    /// The GGUF file to prefer where a repository holds several.
    pub gguf_file: String,
    /// The system prompt.
    pub system: String,
    /// The prompt of a single-turn run.
    pub prompt: Option<String>,
    /// Interactive chat.
    pub chat: bool,
    /// Leave the system prompt out.
    pub no_system: bool,
    /// Hand the prompt to the model as it is.
    pub raw_prompt: bool,
    /// The largest number of newly generated tokens.
    pub sample_len: usize,
    /// How many recent tokens the repetition penalty looks at.
    pub repeat_last_n: usize,
    /// The number of tokens that may be retained as context.
    pub max_context: usize,
    /// Run on the CPU even where CUDA is available.
    pub cpu: bool,
    /// Report token ids.
    pub debug_tokens: bool,
}

impl Args {
    /// The repository that the model is loaded from.
    pub fn requested_model(&self) -> (r: &str)
        ensures
            r@ == (if self.quantized {
                self.quantized_model@
            } else {
                self.model@
            }),
    {
        if self.quantized {
            self.quantized_model.as_str()
        } else {
            self.model.as_str()
        }
    }
}

/// Options that do not go together.
#[derive(Debug, Clone, Copy, PartialEq, Eq, Structural)]
pub enum ArgsError {
    /// Neither a prompt nor chat mode.
    PromptRequired,
    /// A raw prompt in chat mode.
    RawPromptInChat,
}

impl ArgsError {
    /// The error in words.
    pub fn message(&self) -> (r: &'static str)
        ensures
            r@ == (match *self {
                ArgsError::PromptRequired => "--prompt is required unless --chat is enabled"@,
                ArgsError::RawPromptInChat => "--raw-prompt cannot be used with --chat"@,
            }),
    {
        match self {
            ArgsError::PromptRequired => "--prompt is required unless --chat is enabled",
            ArgsError::RawPromptInChat => "--raw-prompt cannot be used with --chat",
        }
    }
}

/// Which part of a conversation a prompt opens.
#[derive(Debug, Clone, Copy)]
pub enum PromptKind<'a> {
    /// The first turn, with the system prompt.
    Initial { system: &'a str, user: &'a str },
    /// A later turn.
    NextTurn { user: &'a str },
}

/// One complete message of a role.
pub open spec fn section(role: Seq<char>, content: Seq<char>) -> Seq<char> {
    "<|im_start|>"@ + role + "\n"@ + content + "<|im_end|>\n"@
}

/// The opening of the assistant's message, which the model continues.
pub open spec fn assistant_opening() -> Seq<char> {
    "<|im_start|>"@ + "assistant"@ + "\n"@
}

/// A user message and the opening of the answer.
pub open spec fn user_turn(user: Seq<char>) -> Seq<char> {
    section("user"@, user) + assistant_opening()
}

/// The prompt of a turn.
pub open spec fn turn_prompt(kind: PromptKind) -> Seq<char> {
    match kind {
        PromptKind::Initial { system, user } => section("system"@, system@) + user_turn(user@),
        PromptKind::NextTurn { user } => user_turn(user@),
    }
}

/// The prompt of a turn under the options of a run.
pub open spec fn run_prompt(args: Args, kind: PromptKind) -> Seq<char> {
    match kind {
        PromptKind::Initial { system, user } => if args.raw_prompt {
            user@
        } else if args.no_system {
            user_turn(user@)
        } else {
            turn_prompt(kind)
        },
        PromptKind::NextTurn { user } => user_turn(user@),
    }
}

/// The system message, if there is one.
pub open spec fn system_part(system: Option<Seq<char>>) -> Seq<char> {
    match system {
        Some(s) => section("system"@, s),
        None => Seq::empty(),
    }
}

/// Completed turns, each a user message and its answer.
pub open spec fn turns_part(turns: Seq<(Seq<char>, Seq<char>)>) -> Seq<char>
    decreases turns.len(),
{
    if turns.len() == 0 {
        Seq::empty()
    } else {
        turns_part(turns.drop_last()) + section("user"@, turns.last().0) + section(
            "assistant"@,
            turns.last().1,
        )
    }
}

/// A whole conversation: the system message, completed turns and an open turn.
pub open spec fn conversation(
    system: Option<Seq<char>>,
    turns: Seq<(Seq<char>, Seq<char>)>,
    user: Option<Seq<char>>,
) -> Seq<char> {
    system_part(system) + turns_part(turns) + (match user {
        Some(u) => user_turn(u),
        None => Seq::empty(),
    })
}

/// The texts of completed turns.
pub open spec fn turn_texts(turns: Seq<(String, String)>) -> Seq<(Seq<char>, Seq<char>)> {
    Seq::new(turns.len(), |i: int| (turns[i].0@, turns[i].1@))
}

pub open spec fn optional_text(text: Option<&str>) -> Option<Seq<char>> {
    match text {
        Some(s) => Some(s@),
        None => None,
    }
}

/// Whether the options go together.
pub fn validate_args(args: &Args) -> (r: Result<(), ArgsError>)
    ensures
        r == (if !args.chat && args.prompt is None {
            Err(ArgsError::PromptRequired)
        } else if args.raw_prompt && args.chat {
            Err(ArgsError::RawPromptInChat)
        } else {
            Ok::<(), ArgsError>(())
        }),
{
    if !args.chat && args.prompt.is_none() {
        return Err(ArgsError::PromptRequired);
    }
    if args.raw_prompt && args.chat {
        return Err(ArgsError::RawPromptInChat);
    }
    Ok(())
}

fn push_section(prompt: &mut String, role: &str, content: &str)
    ensures
        final(prompt)@ == old(prompt)@ + section(role@, content@),
{
    prompt.append("<|im_start|>");
    prompt.append(role);
    prompt.append("\n");
    prompt.append(content);
    prompt.append("<|im_end|>\n");
    assert(prompt@ =~= old(prompt)@ + section(role@, content@));
}

fn push_user_turn(prompt: &mut String, user: &str)
    ensures
        final(prompt)@ == old(prompt)@ + user_turn(user@),
{
    push_section(prompt, "user", user);
    prompt.append("<|im_start|>");
    prompt.append("assistant");
    prompt.append("\n");
    assert(prompt@ =~= old(prompt)@ + user_turn(user@));
}

/// The prompt of a turn.
pub fn build_prompt(kind: PromptKind<'_>) -> (r: String)
    ensures
        r@ == turn_prompt(kind),
{
    let mut prompt = String::new();
    match kind {
        PromptKind::Initial { system, user } => {
            push_section(&mut prompt, "system", system);
            push_user_turn(&mut prompt, user);
        },
        PromptKind::NextTurn { user } => {
            push_user_turn(&mut prompt, user);
        },
    }
    assert(prompt@ =~= turn_prompt(kind));
    prompt
}

/// The prompt of a turn under the options of a run.
pub fn build_prompt_for_args(args: &Args, kind: PromptKind<'_>) -> (r: String)
    ensures
        r@ == run_prompt(*args, kind),
{
    match kind {
        PromptKind::Initial { system, user } => {
            if args.raw_prompt {
                user.to_owned()
            } else if args.no_system {
                build_prompt(PromptKind::NextTurn { user })
            } else {
                build_prompt(PromptKind::Initial { system, user })
            }
        },
        PromptKind::NextTurn { user } => build_prompt(PromptKind::NextTurn { user }),
    }
}

/// The prompt that replays a conversation.
pub fn build_prompt_from_history(
    system: Option<&str>,
    turns: &Vec<(String, String)>,
    current_user: Option<&str>,
) -> (r: String)
    ensures
        r@ == conversation(
            optional_text(system),
            turn_texts(turns@),
            optional_text(current_user),
        ),
{
    let mut prompt = String::new();
    match system {
        Some(text) => {
            push_section(&mut prompt, "system", text);
        },
        None => {},
    }
    let ghost texts = turn_texts(turns@);
    let ghost opening = system_part(optional_text(system));
    assert(texts.take(0) =~= Seq::empty());
    assert(prompt@ =~= opening + turns_part(texts.take(0)));
    let mut i: usize = 0;
    while i < turns.len()
        invariant
            0 <= i <= turns@.len(),
            texts == turn_texts(turns@),
            prompt@ == opening + turns_part(texts.take(i as int)),
        decreases turns@.len() - i,
    {
        assert(texts.take(i + 1).drop_last() =~= texts.take(i as int));
        push_section(&mut prompt, "user", turns[i].0.as_str());
        push_section(&mut prompt, "assistant", turns[i].1.as_str());
        assert(prompt@ =~= opening + turns_part(texts.take(i + 1)));
        i = i + 1;
    }
    assert(texts.take(i as int) =~= texts);
    match current_user {
        Some(user) => {
            push_user_turn(&mut prompt, user);
        },
        None => {},
    }
    assert(prompt@ =~= conversation(optional_text(system), texts, optional_text(current_user)));
    prompt
}

/// Replaying a conversation that has no completed turn is its first prompt.
pub proof fn replay_of_first_turn(system: &str, user: &str)
    ensures
        conversation(Some(system@), Seq::empty(), Some(user@)) == turn_prompt(
            PromptKind::Initial { system, user },
        ),
        conversation(None, Seq::empty(), Some(user@)) == turn_prompt(PromptKind::NextTurn { user }),
{
    assert(turns_part(Seq::empty()) =~= Seq::empty());
    assert(conversation(Some(system@), Seq::empty(), Some(user@)) =~= section("system"@, system@)
        + user_turn(user@));
    assert(conversation(None, Seq::empty(), Some(user@)) =~= user_turn(user@));
}

/// An open turn adds exactly its own prompt to the replayed conversation.
pub proof fn open_turn_extends_replay(
    system: Option<Seq<char>>,
    turns: Seq<(Seq<char>, Seq<char>)>,
    user: &str,
)
    ensures
        conversation(system, turns, Some(user@)) == conversation(system, turns, None)
            + turn_prompt(PromptKind::NextTurn { user }),
{
    assert(conversation(system, turns, Some(user@)) =~= conversation(system, turns, None)
        + user_turn(user@));
}

/// Completing the open turn with an answer, and closing the answer's message, is the replay of the
/// conversation with that turn.
pub proof fn answered_turn_is_replayed(
    system: Option<Seq<char>>,
    turns: Seq<(Seq<char>, Seq<char>)>,
    user: Seq<char>,
    answer: Seq<char>,
)
    ensures
        conversation(system, turns.push((user, answer)), None) == conversation(
            system,
            turns,
            Some(user),
        ) + answer + "<|im_end|>\n"@,
{
    assert(turns.push((user, answer)).drop_last() =~= turns);
    assert(conversation(system, turns.push((user, answer)), None) =~= conversation(
        system,
        turns,
        Some(user),
    ) + answer + "<|im_end|>\n"@);
}

/// The prompt of a run, written out. A raw prompt is the user's message as it is. A run without a
/// system prompt opens with the user's message, any other one with the system prompt; a later turn
/// is the user's message alone, whatever the options.
pub proof fn run_prompt_written_out(args: Args, system: &str, user: &str)
    ensures
        args.raw_prompt ==> run_prompt(args, PromptKind::Initial { system, user }) == user@,
        !args.raw_prompt && args.no_system ==> run_prompt(
            args,
            PromptKind::Initial { system, user },
        ) == "<|im_start|>user\n"@ + user@ + "<|im_end|>\n<|im_start|>assistant\n"@,
        !args.raw_prompt && !args.no_system ==> run_prompt(
            args,
            PromptKind::Initial { system, user },
        ) == "<|im_start|>system\n"@ + system@ + "<|im_end|>\n<|im_start|>user\n"@ + user@
            + "<|im_end|>\n<|im_start|>assistant\n"@,
        run_prompt(args, PromptKind::NextTurn { user }) == "<|im_start|>user\n"@ + user@
            + "<|im_end|>\n<|im_start|>assistant\n"@,
{
    lemma_user_turn(user@);
    lemma_section("system", system@);
    reveal_strlit("<|im_start|>");
    reveal_strlit("system");
    reveal_strlit("\n");
    reveal_strlit("<|im_end|>\n");
    reveal_strlit("<|im_start|>user\n");
    reveal_strlit("<|im_start|>system\n");
    reveal_strlit("<|im_end|>\n<|im_start|>user\n");
    let first = "<|im_start|>"@ + "system"@ + "\n"@;
    assert(first =~= "<|im_start|>system\n"@);
    assert("<|im_end|>\n"@ + "<|im_start|>user\n"@ =~= "<|im_end|>\n<|im_start|>user\n"@);
    assert(section("system"@, system@) + user_turn(user@) =~= "<|im_start|>system\n"@ + system@
        + "<|im_end|>\n<|im_start|>user\n"@ + user@ + "<|im_end|>\n<|im_start|>assistant\n"@);
}

proof fn lemma_section(role: &str, content: Seq<char>)
    ensures
        section(role@, content) == ("<|im_start|>"@ + role@ + "\n"@) + content + "<|im_end|>\n"@,
{
}

proof fn lemma_user_turn(user: Seq<char>)
    ensures
        user_turn(user) == "<|im_start|>user\n"@ + user
            + "<|im_end|>\n<|im_start|>assistant\n"@,
{
    reveal_strlit("<|im_start|>");
    reveal_strlit("user");
    reveal_strlit("assistant");
    reveal_strlit("\n");
    reveal_strlit("<|im_end|>\n");
    reveal_strlit("<|im_start|>user\n");
    reveal_strlit("<|im_end|>\n<|im_start|>assistant\n");
    assert("<|im_start|>"@ + "user"@ + "\n"@ =~= "<|im_start|>user\n"@);
    assert("<|im_end|>\n"@ + ("<|im_start|>"@ + "assistant"@ + "\n"@)
        =~= "<|im_end|>\n<|im_start|>assistant\n"@);
    assert(user_turn(user) =~= "<|im_start|>user\n"@ + user
        + "<|im_end|>\n<|im_start|>assistant\n"@);
}

/// The prompt of a turn without options, written out: that of a first turn holds the system prompt,
/// that of a later one does not.
pub proof fn turn_prompt_written_out(system: &str, user: &str)
    ensures
        turn_prompt(PromptKind::Initial { system, user }) == "<|im_start|>system\n"@ + system@
            + "<|im_end|>\n<|im_start|>user\n"@ + user@
            + "<|im_end|>\n<|im_start|>assistant\n"@,
        turn_prompt(PromptKind::NextTurn { user }) == "<|im_start|>user\n"@ + user@
            + "<|im_end|>\n<|im_start|>assistant\n"@,
{
    let args = choose|args: Args| !#[trigger] args.raw_prompt && !args.no_system;
    assert(exists|args: Args| !#[trigger] args.raw_prompt && !args.no_system) by {
        let any: Args = arbitrary();
        let plain = Args { raw_prompt: false, no_system: false, ..any };
        assert(!plain.raw_prompt && !plain.no_system);
    }
    run_prompt_written_out(args, system, user);
}

/// A replayed conversation, written out: it begins with the system message where there is one, each
/// completed turn is a message of the user and one of the assistant, in their order, and an open
/// turn ends with the opening of an answer.
pub proof fn conversation_written_out(
    system: Option<Seq<char>>,
    turns: Seq<(Seq<char>, Seq<char>)>,
    turn: (Seq<char>, Seq<char>),
    user: Seq<char>,
)
    ensures
        conversation(None, Seq::empty(), None).len() == 0,
        system matches Some(s) ==> conversation(system, Seq::empty(), None)
            == "<|im_start|>system\n"@ + s + "<|im_end|>\n"@,
        system matches Some(s) ==> conversation(system, turns, None) == conversation(
            system,
            Seq::empty(),
            None,
        ) + conversation(None, turns, None),
        conversation(system, turns.push(turn), None) == conversation(system, turns, None)
            + "<|im_start|>user\n"@ + turn.0 + "<|im_end|>\n<|im_start|>assistant\n"@ + turn.1
            + "<|im_end|>\n"@,
        conversation(system, turns, Some(user)) == conversation(system, turns, None)
            + "<|im_start|>user\n"@ + user + "<|im_end|>\n<|im_start|>assistant\n"@,
{
    lemma_user_turn(user);
    lemma_user_turn(turn.0);
    answered_turn_is_replayed(system, turns, turn.0, turn.1);
    assert(turns_part(Seq::empty()) =~= Seq::empty());
    let before = conversation(system, turns, None);
    assert(conversation(system, turns, Some(turn.0)) =~= before + user_turn(turn.0));
    assert(conversation(system, turns, Some(user)) =~= before + user_turn(user));
    assert(conversation(system, turns, Some(user)) =~= before + "<|im_start|>user\n"@ + user
        + "<|im_end|>\n<|im_start|>assistant\n"@);
    assert(conversation(system, turns, Some(turn.0)) =~= before + "<|im_start|>user\n"@ + turn.0
        + "<|im_end|>\n<|im_start|>assistant\n"@);
    match system {
        Some(s) => {
            lemma_section("system", s);
            reveal_strlit("<|im_start|>");
            reveal_strlit("system");
            reveal_strlit("\n");
            reveal_strlit("<|im_start|>system\n");
            assert("<|im_start|>"@ + "system"@ + "\n"@ =~= "<|im_start|>system\n"@);
            assert(conversation(system, Seq::empty(), None) =~= section("system"@, s));
            assert(conversation(system, turns, None) =~= conversation(system, Seq::empty(), None)
                + conversation(None, turns, None));
        },
        None => {},
    }
}

}
