//! One turn of a conversation: what is asked of the model, step by step, to answer a prompt.
use crate::chat;
use crate::chat::{ChatState, PrefillStep, Rebuilt, Reply, ReplyError, TokenStep};
use crate::prompt;
use crate::tokenizer;
use vstd::prelude::*;

verus! {

/// Where a turn stands: what was asked last.
#[derive(Debug)]
pub enum Turn {
    /// Nothing was asked yet.
    Begun,
    /// The model is to be loaded anew, for this context.
    Reloading(Rebuilt),
    /// The model is to read these tokens again.
    Replaying(Vec<u32>),
    /// The model is to read the prompt.
    Reading,
    /// A token of the reply is to be drawn.
    Sampling(Reply),
    /// The model is to read the token that was drawn.
    Extending(Reply),
    /// Nothing more will be asked.
    Over,
}

/// What became of what was asked.
#[derive(Debug, Clone, Copy, PartialEq, Eq, Structural)]
pub enum TurnEvent {
    /// It was done.
    Done,
    /// This token was drawn.
    Drawn(u32),
}

/// What a turn asks for.
#[derive(Debug)]
pub enum TurnAction {
    /// Nothing: the prompt is refused.
    Refuse(ReplyError),
    /// Load the model anew.
    Reload,
    /// Let the model read the tokens of the replay, from the first position on.
    ReadContext,
    /// Let the model read the prompt from this position on.
    ReadPrompt { position: usize },
    /// Draw a token; the tokens from this position on may be penalised.
    Sample { recent: usize },
    /// Print what became visible, and let the model read the drawn token at this position.
    ReadToken { printed: Option<String>, position: usize },
    /// Nothing: the reply is complete.
    Complete(Reply),
}

impl Turn {
    /// A reply in progress consists of the last tokens of the conversation, and there is room for
    /// the token that is being drawn.
    pub open spec fn well_formed(self, args: prompt::Args, state: ChatState) -> bool {
        match self {
            Turn::Sampling(reply) => reply.well_formed(state) && reply.sampled@.len()
                < args.sample_len,
            Turn::Extending(reply) => reply.well_formed(state) && reply.sampled@.len()
                <= args.sample_len,
            _ => true,
        }
    }

    /// Whether `event` can become of what was asked.
    pub open spec fn expects(self, event: TurnEvent) -> bool {
        match self {
            Turn::Sampling(_) => event is Drawn,
            Turn::Over => false,
            _ => event is Done,
        }
    }

    /// More than the number of things that may still be asked.
    pub open spec fn remaining(self, args: prompt::Args) -> int {
        match self {
            Turn::Begun => 2 * args.sample_len + 6,
            Turn::Reloading(_) => 2 * args.sample_len + 5,
            Turn::Replaying(_) => 2 * args.sample_len + 4,
            Turn::Reading => 2 * args.sample_len + 3,
            Turn::Sampling(reply) => 2 * (args.sample_len - reply.sampled@.len()) + 1,
            Turn::Extending(reply) => 2 * (args.sample_len - reply.sampled@.len()) + 2,
            Turn::Over => 0,
        }
    }
}

/// What follows a rebuilt context of `held` tokens: the prompt is read, or refused.
pub open spec fn prompt_follows(
    args: prompt::Args,
    held: nat,
    input: nat,
    next: (Turn, TurnAction),
) -> bool {
    match chat::prefill_step(args, held, input, true) {
        PrefillStep::Read { position } => next == (Turn::Reading, TurnAction::ReadPrompt { position }),
        PrefillStep::Refuse(error) => next == (Turn::Over, TurnAction::Refuse(error)),
        PrefillStep::Rebuild => false,
    }
}

/// What follows a token that the model has read: another one is drawn, or the reply is complete.
pub open spec fn reply_goes_on(
    args: prompt::Args,
    held: nat,
    reply: Reply,
    next: (Turn, TurnAction),
) -> bool {
    if reply.sampled@.len() < args.sample_len {
        next == (
            Turn::Sampling(reply),
            TurnAction::Sample {
                recent: (if held >= args.repeat_last_n {
                    held - args.repeat_last_n
                } else {
                    0
                }) as usize,
            },
        )
    } else {
        next == (Turn::Over, TurnAction::Complete(reply))
    }
}

/// What follows a token that was drawn: it ends the reply, or the model reads it. Only a reply that
/// is shown while it is generated can fail here, on tokens that have no text.
pub open spec fn token_follows(
    tokenizer: tokenizers::Tokenizer,
    before: Reply,
    held: nat,
    token: u32,
    eos: Option<u32>,
    r: Result<(Turn, TurnAction), tokenizer::TokenizerError>,
) -> bool {
    match r {
        Ok((Turn::Over, TurnAction::Complete(after))) => chat::token_taken(
            tokenizer,
            before,
            held,
            token,
            eos,
            after,
            Ok(TokenStep::Stop),
        ),
        Ok((Turn::Extending(after), TurnAction::ReadToken { printed, position })) => chat::token_taken(
            tokenizer,
            before,
            held,
            token,
            eos,
            after,
            Ok(TokenStep::Continue { printed, position }),
        ),
        Ok(_) => false,
        Err(error) => before.stream && eos != Some(token) && tokenizer::decoded(
            tokenizer,
            before.streamed@.push(token),
        ) == Err::<Seq<char>, Seq<char>>(error.message@),
    }
}

/// What follows in a turn, and what becomes of the conversation, when `event` became of what was
/// asked.
pub open spec fn turn_follows(
    args: prompt::Args,
    tokenizer: tokenizers::Tokenizer,
    eos: Option<u32>,
    before: ChatState,
    input_ids: Seq<u32>,
    stream: bool,
    turn: Turn,
    event: TurnEvent,
    after: ChatState,
    r: Result<(Turn, TurnAction), tokenizer::TokenizerError>,
) -> bool {
    let held = before.tokens@.len();
    let input = input_ids.len();
    match turn {
        Turn::Begun => {
            &&& after == before
            &&& match chat::prefill_step(args, held, input, false) {
                PrefillStep::Refuse(error) => r == Ok::<_, tokenizer::TokenizerError>(
                    (Turn::Over, TurnAction::Refuse(error)),
                ),
                PrefillStep::Read { position } => r == Ok::<_, tokenizer::TokenizerError>(
                    (Turn::Reading, TurnAction::ReadPrompt { position }),
                ),
                PrefillStep::Rebuild => match r {
                    Ok((Turn::Reloading(rebuilt), TurnAction::Reload)) => chat::rebuilt_context(
                        args,
                        tokenizer,
                        before,
                        input,
                        rebuilt,
                    ),
                    Ok(_) => false,
                    Err(error) => chat::rebuilding_fails(
                        args,
                        tokenizer,
                        before,
                        input,
                        error.message@,
                    ),
                },
            }
        },
        Turn::Reloading(rebuilt) => {
            &&& after.turns@ == rebuilt.turns@
            &&& after.tokens@ == Seq::<u32>::empty()
            &&& r matches Ok(next)
            &&& if rebuilt.tokens@.len() == 0 {
                prompt_follows(args, 0, input, next)
            } else {
                next == (Turn::Replaying(rebuilt.tokens), TurnAction::ReadContext)
            }
        },
        Turn::Replaying(tokens) => {
            &&& after.turns@ == before.turns@
            &&& after.tokens@ == tokens@
            &&& r matches Ok(next)
            &&& prompt_follows(args, tokens@.len(), input, next)
        },
        Turn::Reading => {
            &&& after.turns@ == before.turns@
            &&& after.tokens@ == before.tokens@ + input_ids
            &&& r matches Ok(next)
            &&& exists|reply: Reply| #[trigger]
                reply.begins(after, stream) && reply_goes_on(args, held + input, reply, next)
        },
        Turn::Sampling(reply) => {
            &&& after.turns@ == before.turns@
            &&& event matches TurnEvent::Drawn(token)
            &&& after.tokens@ == before.tokens@.push(token)
            &&& token_follows(tokenizer, reply, held, token, eos, r)
        },
        Turn::Extending(reply) => {
            &&& after == before
            &&& r matches Ok(next)
            &&& reply_goes_on(args, held, reply, next)
        },
        Turn::Over => false,
    }
}

fn ask_for_prompt(args: &prompt::Args, state: &ChatState, input: usize) -> (r: (Turn, TurnAction))
    ensures
        prompt_follows(*args, state.tokens@.len(), input as nat, r),
{
    match chat::before_prefill(args, state, input, true) {
        PrefillStep::Read { position } => (Turn::Reading, TurnAction::ReadPrompt { position }),
        PrefillStep::Refuse(error) => (Turn::Over, TurnAction::Refuse(error)),
        PrefillStep::Rebuild => (Turn::Over, TurnAction::Reload),
    }
}

fn ask_for_token(args: &prompt::Args, state: &ChatState, reply: Reply) -> (r: (Turn, TurnAction))
    ensures
        reply_goes_on(*args, state.tokens@.len(), reply, r),
{
    if reply.wants_token(args) {
        let recent = chat::penalty_start(args, state);
        (Turn::Sampling(reply), TurnAction::Sample { recent })
    } else {
        (Turn::Over, TurnAction::Complete(reply))
    }
}

/// The next step of answering a prompt.
///
/// A prompt without tokens, or one that does not fit into the context, is refused. Where there is
/// no room for the prompt and the tokens to generate, the context is rebuilt from the most recent
/// turns: the model is loaded anew and reads their replay. After the model has read the prompt,
/// tokens are drawn and read until one ends the message or the limit is reached.
pub fn generate_reply(
    args: &prompt::Args,
    tokenizer: &tokenizers::Tokenizer,
    eos: Option<u32>,
    state: &mut ChatState,
    input_ids: &Vec<u32>,
    stream: bool,
    turn: Turn,
    event: TurnEvent,
) -> (r: Result<(Turn, TurnAction), tokenizer::TokenizerError>)
    requires
        turn.well_formed(*args, *old(state)),
        turn.expects(event),
    ensures
        r matches Ok(next) ==> {
            &&& next.0.well_formed(*args, *final(state))
            &&& 0 <= next.0.remaining(*args) < turn.remaining(*args)
            &&& next.1 matches TurnAction::Complete(reply) ==> reply.well_formed(*final(state))
                && reply.sampled@.len() <= args.sample_len
        },
        turn_follows(
            *args,
            *tokenizer,
            eos,
            *old(state),
            input_ids@,
            stream,
            turn,
            event,
            *final(state),
            r,
        ),
{
    match turn {
        Turn::Begun => match chat::before_prefill(args, state, input_ids.len(), false) {
            PrefillStep::Refuse(error) => Ok((Turn::Over, TurnAction::Refuse(error))),
            PrefillStep::Read { position } => Ok(
                (Turn::Reading, TurnAction::ReadPrompt { position }),
            ),
            PrefillStep::Rebuild => match chat::rebuild_state_for_current_turn(
                args,
                tokenizer,
                state,
                input_ids.len(),
            ) {
                Ok(rebuilt) => Ok((Turn::Reloading(rebuilt), TurnAction::Reload)),
                Err(error) => Err(error),
            },
        },
        Turn::Reloading(rebuilt) => {
            chat::install_turns(state, rebuilt.turns);
            if rebuilt.tokens.len() == 0 {
                Ok(ask_for_prompt(args, state, input_ids.len()))
            } else {
                Ok((Turn::Replaying(rebuilt.tokens), TurnAction::ReadContext))
            }
        },
        Turn::Replaying(tokens) => {
            state.tokens = tokens;
            Ok(ask_for_prompt(args, state, input_ids.len()))
        },
        Turn::Reading => {
            let reply = Reply::begin(state, input_ids, stream);
            assert(reply.begins(*state, stream));
            Ok(ask_for_token(args, state, reply))
        },
        Turn::Sampling(mut reply) => {
            let token: u32 = match event {
                TurnEvent::Drawn(token) => token,
                TurnEvent::Done => 0,
            };
            match reply.take_token(state, tokenizer, token, eos) {
                Ok(TokenStep::Stop) => Ok((Turn::Over, TurnAction::Complete(reply))),
                Ok(TokenStep::Continue { printed, position }) => Ok(
                    (Turn::Extending(reply), TurnAction::ReadToken { printed, position }),
                ),
                Err(error) => Err(error),
            }
        },
        Turn::Extending(reply) => Ok(ask_for_token(args, state, reply)),
        Turn::Over => Ok((Turn::Over, TurnAction::Reload)),
    }
}

/// A step of a turn: what became of what was asked, and what is asked next.
#[derive(Debug)]
pub struct Moment {
    pub event: TurnEvent,
    pub turn: Turn,
    pub action: TurnAction,
    /// The conversation after the step.
    pub state: ChatState,
}

/// Where a turn stands after the steps of `run`.
pub open spec fn turn_after(run: Seq<Moment>) -> Turn {
    if run.len() == 0 {
        Turn::Begun
    } else {
        run.last().turn
    }
}

/// The conversation after the steps of `run`.
pub open spec fn state_after(first: ChatState, run: Seq<Moment>) -> ChatState {
    if run.len() == 0 {
        first
    } else {
        run.last().state
    }
}

/// `run` answers the prompt `input`, step by step, from the conversation `first` on.
pub open spec fn is_run(
    args: prompt::Args,
    tokenizer: tokenizers::Tokenizer,
    eos: Option<u32>,
    first: ChatState,
    input: Seq<u32>,
    stream: bool,
    run: Seq<Moment>,
) -> bool
    decreases run.len(),
{
    run.len() > 0 ==> {
        let before = run.drop_last();
        let last = run.last();
        &&& is_run(args, tokenizer, eos, first, input, stream, before)
        &&& turn_follows(
            args,
            tokenizer,
            eos,
            state_after(first, before),
            input,
            stream,
            turn_after(before),
            last.event,
            last.state,
            Ok((last.turn, last.action)),
        )
    }
}

/// The tokens that were drawn.
pub open spec fn drawn(run: Seq<Moment>) -> Seq<u32>
    decreases run.len(),
{
    if run.len() == 0 {
        Seq::empty()
    } else {
        match (turn_after(run.drop_last()), run.last().event) {
            (Turn::Sampling(_), TurnEvent::Drawn(token)) => drawn(run.drop_last()).push(token),
            _ => drawn(run.drop_last()),
        }
    }
}

/// What the model was asked to read: which tokens, from which position on.
pub open spec fn reads(input: Seq<u32>, run: Seq<Moment>) -> Seq<(Seq<u32>, int)>
    decreases run.len(),
{
    if run.len() == 0 {
        Seq::empty()
    } else {
        let before = reads(input, run.drop_last());
        match (run.last().action, run.last().turn, run.last().event) {
            (TurnAction::ReadContext, Turn::Replaying(tokens), _) => before.push((tokens@, 0)),
            (TurnAction::ReadPrompt { position }, _, _) => before.push((input, position as int)),
            (TurnAction::ReadToken { position, .. }, _, TurnEvent::Drawn(token)) => before.push(
                (seq![token], position as int),
            ),
            _ => before,
        }
    }
}

/// What was printed.
pub open spec fn printed_in(run: Seq<Moment>) -> Seq<char>
    decreases run.len(),
{
    if run.len() == 0 {
        Seq::empty()
    } else {
        printed_in(run.drop_last()) + (match run.last().action {
            TurnAction::ReadToken { printed: Some(text), .. } => text@,
            _ => Seq::empty(),
        })
    }
}

/// The turns and the tokens that a prompt of `input` tokens is read behind: those of the
/// conversation where there is room, else those of a rebuilt context.
pub open spec fn context_of_prompt(
    args: prompt::Args,
    tokenizer: tokenizers::Tokenizer,
    first: ChatState,
    input: nat,
    turns: Seq<(String, String)>,
    tokens: Seq<u32>,
) -> bool {
    if chat::within_limit(args, first.tokens@.len(), input) {
        turns == first.turns@ && tokens == first.tokens@
    } else {
        exists|rebuilt: Rebuilt| #[trigger]
            chat::rebuilt_context(args, tokenizer, first, input, rebuilt) && turns
                == rebuilt.turns@ && tokens == rebuilt.tokens@
    }
}

/// What the model reads before a reply: the prompt behind its context, and the context itself where
/// it is a rebuilt one.
pub open spec fn opening_reads(
    args: prompt::Args,
    first: ChatState,
    input: Seq<u32>,
    context: Seq<u32>,
) -> Seq<(Seq<u32>, int)> {
    if chat::within_limit(args, first.tokens@.len(), input.len()) || context.len() == 0 {
        seq![(input, context.len() as int)]
    } else {
        seq![(context, 0), (input, context.len() as int)]
    }
}

/// The first `count` of `tokens`, read one by one from the position `start` on.
pub open spec fn reads_one_by_one(tokens: Seq<u32>, start: int, count: nat) -> Seq<
    (Seq<u32>, int),
> {
    Seq::new(count, |k: int| (seq![tokens[k]], start + k))
}

/// The stable texts of the first tokens, of the first two, and so on up to `count`.
pub open spec fn stable_texts(
    tokenizer: tokenizers::Tokenizer,
    tokens: Seq<u32>,
    count: nat,
) -> Seq<Seq<char>> {
    Seq::new(
        count,
        |k: int| chat::stable_text(tokenizer::decoded(tokenizer, tokens.take(k + 1))->Ok_0),
    )
}

/// How a reply stands of whose drawn tokens the model was asked to read the first `count`.
pub open spec fn reply_stands(
    args: prompt::Args,
    tokenizer: tokenizers::Tokenizer,
    eos: Option<u32>,
    first: ChatState,
    input: Seq<u32>,
    stream: bool,
    run: Seq<Moment>,
    reply: Reply,
    count: nat,
) -> bool {
    let state = state_after(first, run);
    let tokens = drawn(run);
    let context = state.tokens@.take(reply.start - input.len());
    let texts = stable_texts(tokenizer, tokens, count);
    // The conversation holds the context, the prompt and what was drawn.
    &&& input.len() <= reply.start <= state.tokens@.len()
    &&& context_of_prompt(args, tokenizer, first, input.len(), state.turns@, context)
    &&& state.tokens@ == context + input + tokens
    &&& reply.sampled@ == tokens
    &&& count <= tokens.len()
    &&& forall|k: int| 0 <= k < count ==> eos != Some(#[trigger] tokens[k])
    // The model was asked to read the same, in order.
    &&& reads(input, run) == opening_reads(args, first, input, context) + reads_one_by_one(
        tokens,
        reply.start as int,
        count,
    )
    // What became visible was printed.
    &&& reply.stream == stream
    &&& if stream {
        &&& reply.streamed@ == tokens.take(count as int)
        &&& forall|k: int|
            1 <= k <= count ==> tokenizer::decoded(tokenizer, #[trigger] tokens.take(k)) is Ok
        &&& reply.visible@ == chat::visible_after(texts)
        &&& printed_in(run) == chat::printed_while_showing(texts)
    } else {
        &&& reply.visible@ == Seq::<char>::empty()
        &&& printed_in(run) == Seq::<char>::empty()
    }
}

/// How a turn stands after the steps of `run`.
pub open spec fn turn_stands(
    args: prompt::Args,
    tokenizer: tokenizers::Tokenizer,
    eos: Option<u32>,
    first: ChatState,
    input: Seq<u32>,
    stream: bool,
    run: Seq<Moment>,
) -> bool {
    let state = state_after(first, run);
    let fresh = drawn(run) == Seq::<u32>::empty() && printed_in(run) == Seq::<char>::empty();
    let room = chat::within_limit(args, first.tokens@.len(), input.len());
    match turn_after(run) {
        Turn::Begun => run.len() == 0 && fresh,
        Turn::Reloading(rebuilt) => fresh && !room && reads(input, run).len() == 0
            && chat::rebuilt_context(args, tokenizer, first, input.len(), rebuilt),
        Turn::Replaying(tokens) => {
            &&& fresh
            &&& !room
            &&& tokens@.len() > 0
            &&& reads(input, run) == seq![(tokens@, 0int)]
            &&& context_of_prompt(args, tokenizer, first, input.len(), state.turns@, tokens@)
        },
        Turn::Reading => {
            &&& fresh
            &&& context_of_prompt(
                args,
                tokenizer,
                first,
                input.len(),
                state.turns@,
                state.tokens@,
            )
            &&& reads(input, run) == opening_reads(args, first, input, state.tokens@)
        },
        Turn::Sampling(reply) => drawn(run).len() < args.sample_len && reply_stands(
            args,
            tokenizer,
            eos,
            first,
            input,
            stream,
            run,
            reply,
            drawn(run).len(),
        ),
        Turn::Extending(reply) => drawn(run).len() <= args.sample_len && reply_stands(
            args,
            tokenizer,
            eos,
            first,
            input,
            stream,
            run,
            reply,
            drawn(run).len(),
        ),
        Turn::Over => run.last().action matches TurnAction::Complete(reply) ==> {
            ||| drawn(run).len() == args.sample_len && reply_stands(
                args,
                tokenizer,
                eos,
                first,
                input,
                stream,
                run,
                reply,
                drawn(run).len(),
            )
            ||| drawn(run).len() > 0 && drawn(run).len() <= args.sample_len && eos == Some(
                drawn(run).last(),
            ) && reply_stands(
                args,
                tokenizer,
                eos,
                first,
                input,
                stream,
                run,
                reply,
                (drawn(run).len() - 1) as nat,
            )
        },
    }
}

/// The steps up to the prompt.
proof fn lemma_opening_stands(
    args: prompt::Args,
    tokenizer: tokenizers::Tokenizer,
    eos: Option<u32>,
    first: ChatState,
    input: Seq<u32>,
    stream: bool,
    run: Seq<Moment>,
)
    requires
        run.len() > 0,
        is_run(args, tokenizer, eos, first, input, stream, run),
        turn_stands(args, tokenizer, eos, first, input, stream, run.drop_last()),
        turn_after(run.drop_last()) is Begun || turn_after(run.drop_last()) is Reloading
            || turn_after(run.drop_last()) is Replaying,
    ensures
        turn_stands(args, tokenizer, eos, first, input, stream, run),
{
    let before = run.drop_last();
    let last = run.last();
    assert(printed_in(run) =~= printed_in(before));
    match turn_after(before) {
        Turn::Begun => {
            assert(first.tokens.len() == first.tokens@.len());
            assert(reads(input, before) =~= Seq::empty());
            if last.turn is Reading {
                assert(reads(input, run) =~= opening_reads(args, first, input, first.tokens@));
            }
        },
        Turn::Reloading(rebuilt) => {
            let after = last.state;
            assert(context_of_prompt(
                args,
                tokenizer,
                first,
                input.len(),
                after.turns@,
                rebuilt.tokens@,
            ));
            if rebuilt.tokens@.len() == 0 {
                assert(rebuilt.tokens@ =~= after.tokens@);
                if last.turn is Reading {
                    assert(reads(input, run) =~= opening_reads(args, first, input, after.tokens@));
                }
            } else {
                assert(reads(input, run) =~= seq![(rebuilt.tokens@, 0int)]);
            }
        },
        Turn::Replaying(tokens) => {
            assert(tokens.len() == tokens@.len());
            if last.turn is Reading {
                assert(reads(input, run) =~= opening_reads(args, first, input, tokens@));
            }
        },
        _ => {},
    }
}

/// The step behind the prompt.
proof fn lemma_beginning_stands(
    args: prompt::Args,
    tokenizer: tokenizers::Tokenizer,
    eos: Option<u32>,
    first: ChatState,
    input: Seq<u32>,
    stream: bool,
    run: Seq<Moment>,
)
    requires
        run.len() > 0,
        is_run(args, tokenizer, eos, first, input, stream, run),
        turn_stands(args, tokenizer, eos, first, input, stream, run.drop_last()),
        turn_after(run.drop_last()) is Reading,
    ensures
        turn_stands(args, tokenizer, eos, first, input, stream, run),
{
    let before = run.drop_last();
    let last = run.last();
    let held = state_after(first, before).tokens@;
    let after = last.state;
    let reply = choose|reply: Reply| #[trigger]
        reply.begins(after, stream) && reply_goes_on(
            args,
            held.len() + input.len(),
            reply,
            (last.turn, last.action),
        );
    assert(printed_in(run) =~= printed_in(before));
    assert(drawn(run) =~= Seq::empty());
    let context = after.tokens@.take(reply.start - input.len());
    assert(context =~= held);
    assert(after.tokens@ =~= context + input + drawn(run));
    assert(reads(input, run) =~= opening_reads(args, first, input, context) + reads_one_by_one(
        drawn(run),
        reply.start as int,
        0,
    ));
    let texts = stable_texts(tokenizer, drawn(run), 0);
    assert(texts =~= Seq::empty());
    assert(drawn(run).take(0) =~= Seq::empty());
    assert(reply_stands(args, tokenizer, eos, first, input, stream, run, reply, 0));
}

/// The step behind a drawn token.
proof fn lemma_drawing_stands(
    args: prompt::Args,
    tokenizer: tokenizers::Tokenizer,
    eos: Option<u32>,
    first: ChatState,
    input: Seq<u32>,
    stream: bool,
    run: Seq<Moment>,
)
    requires
        run.len() > 0,
        is_run(args, tokenizer, eos, first, input, stream, run),
        turn_stands(args, tokenizer, eos, first, input, stream, run.drop_last()),
        turn_after(run.drop_last()) is Sampling,
    ensures
        turn_stands(args, tokenizer, eos, first, input, stream, run),
{
    let before = run.drop_last();
    let last = run.last();
    let reply = turn_after(before)->Sampling_0;
    let held = state_after(first, before).tokens@;
    assert(state_after(first, before).tokens.len() == held.len());
    let token = last.event->Drawn_0;
    let old_tokens = drawn(before);
    let tokens = drawn(run);
    assert(tokens == old_tokens.push(token));
    let count = old_tokens.len();
    let after = last.state;
    let context = held.take(reply.start - input.len());
    assert(after.tokens@.take(reply.start - input.len()) =~= context);
    assert(after.tokens@ =~= context + input + tokens);
    assert(tokens.take(count as int) =~= old_tokens);
    assert(old_tokens.take(count as int) =~= old_tokens);
    assert(tokens.take(count as int + 1) =~= tokens);
    assert(stable_texts(tokenizer, tokens, count) =~= stable_texts(tokenizer, old_tokens, count))
        by {
        let (x, y) = (
            stable_texts(tokenizer, tokens, count),
            stable_texts(tokenizer, old_tokens, count),
        );
        assert forall|k: int| 0 <= k < count implies #[trigger] x[k] == y[k] by {
            assert(tokens.take(k + 1) =~= old_tokens.take(k + 1));
        }
    }
    assert forall|k: int| 0 <= k < count implies eos != Some(#[trigger] tokens[k]) by {
        assert(tokens[k] == old_tokens[k]);
    }
    assert forall|k: int| stream && 1 <= k <= count implies tokenizer::decoded(
        tokenizer,
        #[trigger] tokens.take(k),
    ) is Ok by {
        assert(tokens.take(k) =~= old_tokens.take(k));
    }
    assert(reads_one_by_one(tokens, reply.start as int, count) =~= reads_one_by_one(
        old_tokens,
        reply.start as int,
        count,
    ));
    match last.turn {
        Turn::Over => {
            let done = last.action->Complete_0;
            assert(printed_in(run) =~= printed_in(before));
            assert(reply_stands(args, tokenizer, eos, first, input, stream, run, done, count));
        },
        Turn::Extending(done) => {
            assert(reply.start + count == held.len());
            assert(reads_one_by_one(tokens, reply.start as int, count + 1) =~= reads_one_by_one(
                tokens,
                reply.start as int,
                count,
            ).push((seq![token], held.len() as int)));
            assert(reads(input, run) =~= opening_reads(args, first, input, context)
                + reads_one_by_one(tokens, reply.start as int, count + 1));
            if stream {
                let texts = stable_texts(tokenizer, tokens, count + 1);
                assert(texts.drop_last() =~= stable_texts(tokenizer, tokens, count));
                let text = tokenizer::decoded(tokenizer, tokens)->Ok_0;
                assert(texts.last() == chat::stable_text(text));
            } else {
                assert(printed_in(run) =~= printed_in(before));
            }
            assert(reply_stands(args, tokenizer, eos, first, input, stream, run, done, count + 1));
        },
        _ => {},
    }
}

/// The step behind a token that the model has read.
proof fn lemma_extending_stands(
    args: prompt::Args,
    tokenizer: tokenizers::Tokenizer,
    eos: Option<u32>,
    first: ChatState,
    input: Seq<u32>,
    stream: bool,
    run: Seq<Moment>,
)
    requires
        run.len() > 0,
        is_run(args, tokenizer, eos, first, input, stream, run),
        turn_stands(args, tokenizer, eos, first, input, stream, run.drop_last()),
        turn_after(run.drop_last()) is Extending,
    ensures
        turn_stands(args, tokenizer, eos, first, input, stream, run),
{
    let before = run.drop_last();
    let reply = turn_after(before)->Extending_0;
    assert(printed_in(run) =~= printed_in(before));
    assert(drawn(run) == drawn(before));
    assert(reads(input, run) == reads(input, before));
    assert(reply_stands(
        args,
        tokenizer,
        eos,
        first,
        input,
        stream,
        run,
        reply,
        drawn(run).len(),
    ));
}

/// Every run of a turn: the model reads the context where it had to be rebuilt, then the prompt,
/// then the drawn tokens one by one, each at the position behind the one before; the conversation
/// holds exactly what the model was given, and what was printed is what became visible.
pub proof fn turn_reads_what_it_holds(
    args: prompt::Args,
    tokenizer: tokenizers::Tokenizer,
    eos: Option<u32>,
    first: ChatState,
    input: Seq<u32>,
    stream: bool,
    run: Seq<Moment>,
)
    requires
        is_run(args, tokenizer, eos, first, input, stream, run),
    ensures
        turn_stands(args, tokenizer, eos, first, input, stream, run),
    decreases run.len(),
{
    if run.len() > 0 {
        let before = run.drop_last();
        turn_reads_what_it_holds(args, tokenizer, eos, first, input, stream, before);
        match turn_after(before) {
            Turn::Reading => {
                lemma_beginning_stands(args, tokenizer, eos, first, input, stream, run);
            },
            Turn::Sampling(_) => {
                lemma_drawing_stands(args, tokenizer, eos, first, input, stream, run);
            },
            Turn::Extending(_) => {
                lemma_extending_stands(args, tokenizer, eos, first, input, stream, run);
            },
            Turn::Over => {},
            _ => {
                lemma_opening_stands(args, tokenizer, eos, first, input, stream, run);
            },
        }
    }
}

/// A run that completes a reply: with the context `c` that the prompt was read behind, the
/// conversation ends with `c`, the prompt and all drawn tokens; they are as many as may be generated,
/// or end with the first end of a message. All of them but that one were read by the model, from the
/// position behind the prompt on, and what was printed on the way is what is visible. The reply begins
/// behind the prompt, and can be finished.
pub proof fn completed_turn(
    args: prompt::Args,
    tokenizer: tokenizers::Tokenizer,
    eos: Option<u32>,
    first: ChatState,
    input: Seq<u32>,
    stream: bool,
    run: Seq<Moment>,
    reply: Reply,
)
    requires
        is_run(args, tokenizer, eos, first, input, stream, run),
        run.len() > 0,
        run.last().action == TurnAction::Complete(reply),
    ensures
        ({
            let state = run.last().state;
            let tokens = drawn(run);
            let c = state.tokens@.take(reply.start - input.len());
            let ended = tokens.len() > 0 && eos == Some(tokens.last());
            let count = (if ended { tokens.len() - 1 } else { tokens.len() as int }) as nat;
            let texts = stable_texts(tokenizer, tokens, count);
            &&& reply.stream == stream
            &&& reply.start == c.len() + input.len()
            &&& reply.well_formed(state)
            &&& context_of_prompt(args, tokenizer, first, input.len(), state.turns@, c)
            &&& state.tokens@ == c + input + tokens
            &&& reply.sampled@ == tokens
            &&& ended || tokens.len() == args.sample_len
            &&& tokens.len() <= args.sample_len
            &&& forall|k: int| 0 <= k < count ==> eos != Some(#[trigger] tokens[k])
            &&& reads(input, run) == opening_reads(args, first, input, c) + reads_one_by_one(
                tokens,
                (c.len() + input.len()) as int,
                count,
            )
            &&& reply.visible@ == printed_in(run)
            &&& printed_in(run) == (if stream {
                chat::visible_after(texts)
            } else {
                Seq::empty()
            })
        }),
{
    turn_reads_what_it_holds(args, tokenizer, eos, first, input, stream, run);
    let tokens = drawn(run);
    let before = run.drop_last();
    turn_reads_what_it_holds(args, tokenizer, eos, first, input, stream, before);
    assert(run.last().turn is Over);
    let count = (if tokens.len() > 0 && eos == Some(tokens.last()) {
        tokens.len() - 1
    } else {
        tokens.len() as int
    }) as nat;
    let texts = stable_texts(tokenizer, tokens, count);
    chat::printed_pieces_make_the_reply(texts);
    assert forall|k: int| 0 <= k < texts.len() implies !(#[trigger] texts[k]).contains(
        '\u{fffd}',
    ) by {
        chat::stable_text_is_finished(tokenizer::decoded(tokenizer, tokens.take(k + 1))->Ok_0);
    }
    chat::stable_texts_show_nothing_unfinished(texts);
    if tokens.len() > 0 && eos == Some(tokens.last()) {
        assert(tokens[tokens.len() - 1] == tokens.last());
    }
    assert(run.last().state.tokens@.skip(reply.start as int) =~= tokens);
}

/// A run that completes a reply, and the reply finished behind it: its tokens are the drawn ones
/// without the end of the message. Where they have a text, a reply that is not shown while it is
/// generated is that text, all at once; of a reply that is shown, the pieces that were printed on the
/// way and the last one make the text, and this is the text of the tokens where it begins with what
/// was printed. Where they have none, the reply fails as they do.
///
/// Left out is a reply of nothing but the end of a message to a prompt that ends with the same token.
pub proof fn finished_turn(
    args: prompt::Args,
    tokenizer: tokenizers::Tokenizer,
    eos: Option<u32>,
    first: ChatState,
    input: Seq<u32>,
    stream: bool,
    run: Seq<Moment>,
    reply: Reply,
    r: Result<chat::Finished, tokenizer::TokenizerError>,
)
    requires
        is_run(args, tokenizer, eos, first, input, stream, run),
        run.len() > 0,
        run.last().action == TurnAction::Complete(reply),
        reply.start <= chat::reply_end_of(run.last().state.tokens@, reply.start as int, eos),
        chat::reply_finished(tokenizer, reply, run.last().state.tokens@, eos, r),
    ensures
        ({
            let tokens = drawn(run);
            let ids = if tokens.len() > 0 && eos == Some(tokens.last()) {
                tokens.drop_last()
            } else {
                tokens
            };
            match tokenizer::decoded(tokenizer, ids) {
                Ok(text) => {
                    &&& r matches Ok(finished)
                    &&& finished.tokens@ == ids
                    &&& if stream {
                        &&& finished.text@ == printed_in(run) + (match finished.printed {
                            Some(rest) => rest@,
                            None => Seq::empty(),
                        })
                        &&& printed_in(run).is_prefix_of(text) ==> finished.text@ == text
                    } else {
                        &&& finished.text@ == text
                        &&& finished.printed is None
                        &&& printed_in(run) == Seq::<char>::empty()
                    }
                },
                Err(message) => r matches Err(error) && error.message@ == message,
            }
        }),
{
    completed_turn(args, tokenizer, eos, first, input, stream, run, reply);
    let all = run.last().state.tokens@;
    let tokens = drawn(run);
    let ended = tokens.len() > 0 && eos == Some(tokens.last());
    let ids = if ended {
        tokens.drop_last()
    } else {
        tokens
    };
    let end = chat::reply_end_of(all, reply.start as int, eos);
    assert(end == reply.start + ids.len()) by {
        if let Some(id) = eos {
            chat::reply_ends_before_end_tokens(all, id, reply.start as int);
            if ids.len() > 0 {
                assert(all[reply.start + ids.len() - 1] == tokens[ids.len() - 1]);
            }
            if ended {
                assert(all[all.len() - 1] == id);
            }
        }
    }
    assert(all.subrange(reply.start as int, end) =~= ids);
    if let Ok(text) = tokenizer::decoded(tokenizer, ids) {
        chat::visible_text_only_grows(reply.visible@, text);
    }
}

/// A token is drawn while fewer were drawn than may be. The penalty then looks at the last tokens of
/// the conversation, as many as the options say, or at all of them where there are fewer.
pub proof fn penalty_looks_at_the_last_tokens(
    args: prompt::Args,
    held: usize,
    reply: Reply,
    next: (Turn, TurnAction),
)
    requires
        reply_goes_on(args, held as nat, reply, next),
    ensures
        next.1 is Sample <==> reply.sampled@.len() < args.sample_len,
        next.1 matches TurnAction::Sample { recent } ==> recent <= held && held - recent == (
        if held < args.repeat_last_n {
            held
        } else {
            args.repeat_last_n
        }),
        next.1 !is Sample ==> next == (Turn::Over, TurnAction::Complete(reply)),
{
}

}
