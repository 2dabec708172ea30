//! The tokenizer: what the library relies on of the `tokenizers` crate.
//!
//! A tokenizer file can ask for work on which the crate panics or does not end. The library looks at
//! the parts of a tokenizer first, and refuses with an error what it does not know to be safe.
use crate::text;
use crate::tokenizer_parts;
use crate::tokenizer_parts::{Decoding, Finishing, Normalizing, Splitting};
use vstd::prelude::*;

verus! {

/// A loaded tokenizer, carried through the library as it is.
#[verifier::external_type_specification]
#[verifier::external_body]
pub struct ExTokenizer(tokenizers::Tokenizer);

/// How a tokenizer shortens what it makes of a text.
pub struct Truncating {
    /// The greatest number of tokens.
    pub max_length: usize,
    /// How many tokens two neighbouring parts share.
    pub stride: usize,
    /// Whether only a second text is to be shortened.
    pub second_only: bool,
}

/// How a tokenizer fills up what it makes of a text.
pub struct Padding {
    /// The number of tokens to fill up to, where it is fixed.
    pub fixed: Option<usize>,
    /// A number of which the count is to be a multiple.
    pub multiple: Option<usize>,
}

/// What the normalizer of a tokenizer consists of, if it has one.
pub uninterp spec fn normalizing_of(tokenizer: tokenizers::Tokenizer) -> Option<Normalizing>;

/// What the pre-tokenizer of a tokenizer consists of, if it has one.
pub uninterp spec fn splitting_of(tokenizer: tokenizers::Tokenizer) -> Option<Splitting>;

/// What the post-processor of a tokenizer consists of, if it has one.
pub uninterp spec fn finishing_of(tokenizer: tokenizers::Tokenizer) -> Option<Finishing>;

/// What the decoder of a tokenizer consists of, if it has one.
pub uninterp spec fn decoding_of(tokenizer: tokenizers::Tokenizer) -> Option<Decoding>;

/// The truncation of a tokenizer, if it has one.
pub uninterp spec fn truncation(tokenizer: tokenizers::Tokenizer) -> Option<Truncating>;

/// The padding of a tokenizer, if it has one.
pub uninterp spec fn padding(tokenizer: tokenizers::Tokenizer) -> Option<Padding>;

/// Where the model of a tokenizer leaves something to chance: whether it may drop merges, and whether
/// it draws its segmentation by scores.
pub uninterp spec fn chance(tokenizer: tokenizers::Tokenizer) -> (bool, bool);

/// Whether the added tokens of a tokenizer strip white space off on their left and on their right, in
/// pairs.
pub uninterp spec fn stripping(tokenizer: tokenizers::Tokenizer) -> Set<(bool, bool)>;

/// How many tokens `Tokenizer::encode` makes of a text before it shortens, finishes and pads them;
/// `None` where it fails.
pub uninterp spec fn full_lengths(tokenizer: tokenizers::Tokenizer) -> Map<Seq<char>, Option<usize>>;

/// The tokens that `Tokenizer::id_to_token` gives for ids.
pub uninterp spec fn tokens_of(tokenizer: tokenizers::Tokenizer) -> Map<u32, Seq<char>>;

/// The tokens that `AddedVocabulary::is_special_token` holds for special.
pub uninterp spec fn special_tokens(tokenizer: tokenizers::Tokenizer) -> Set<Seq<char>>;

/// The pairs of a text and an outcome that `Tokenizer::encode` can give for it, without special
/// tokens added: the token ids, or what its error says.
///
/// A tokenizer whose model drops merges at random has several outcomes for one text.
pub uninterp spec fn encodings(tokenizer: tokenizers::Tokenizer) -> Set<
    (Seq<char>, Result<Seq<u32>, Seq<char>>),
>;

/// What `Tokenizer::decode` gives for sequences of token ids, special tokens left out: the text, or
/// what its error says.
pub uninterp spec fn decodings(tokenizer: tokenizers::Tokenizer) -> Map<
    Seq<u32>,
    Result<Seq<char>, Seq<char>>,
>;

/// The ids that `Tokenizer::token_to_id` gives for the tokens of the vocabulary.
pub uninterp spec fn vocabulary(tokenizer: tokenizers::Tokenizer) -> Map<Seq<char>, u32>;

/// Calls `tokenizers::Tokenizer::get_normalizer`.
#[verifier::external_body]
fn normalizer_of<'a>(tokenizer: &'a tokenizers::Tokenizer) -> (r: Option<
    &'a tokenizers::NormalizerWrapper,
>)
    ensures
        normalizing_of(*tokenizer) == (match r {
            Some(normalizer) => Some(tokenizer_parts::normalizing(*normalizer)),
            None => None,
        }),
{
    tokenizer.get_normalizer()
}

/// Calls `tokenizers::Tokenizer::get_pre_tokenizer`.
#[verifier::external_body]
fn pre_tokenizer_of<'a>(tokenizer: &'a tokenizers::Tokenizer) -> (r: Option<
    &'a tokenizers::PreTokenizerWrapper,
>)
    ensures
        splitting_of(*tokenizer) == (match r {
            Some(pre_tokenizer) => Some(tokenizer_parts::splitting(*pre_tokenizer)),
            None => None,
        }),
{
    tokenizer.get_pre_tokenizer()
}

/// Calls `tokenizers::Tokenizer::get_post_processor`.
#[verifier::external_body]
fn post_processor_of<'a>(tokenizer: &'a tokenizers::Tokenizer) -> (r: Option<
    &'a tokenizers::PostProcessorWrapper,
>)
    ensures
        finishing_of(*tokenizer) == (match r {
            Some(post_processor) => Some(tokenizer_parts::finishing(*post_processor)),
            None => None,
        }),
{
    tokenizer.get_post_processor()
}

/// Calls `tokenizers::Tokenizer::get_decoder`.
#[verifier::external_body]
fn decoder_of<'a>(tokenizer: &'a tokenizers::Tokenizer) -> (r: Option<
    &'a tokenizers::DecoderWrapper,
>)
    ensures
        decoding_of(*tokenizer) == (match r {
            Some(decoder) => Some(tokenizer_parts::decoding(*decoder)),
            None => None,
        }),
{
    tokenizer.get_decoder()
}

/// Calls `tokenizers::Tokenizer::get_truncation`: the greatest length, the stride, and whether the
/// strategy is to shorten a second text only.
#[verifier::external_body]
fn truncation_of(tokenizer: &tokenizers::Tokenizer) -> (r: Option<Truncating>)
    ensures
        r == truncation(*tokenizer),
{
    tokenizer.get_truncation().map(|limits| Truncating {
        max_length: limits.max_length,
        stride: limits.stride,
        second_only: matches!(limits.strategy, tokenizers::TruncationStrategy::OnlySecond),
    })
}

/// Calls `tokenizers::Tokenizer::get_padding`: the length of a `Fixed` strategy, and the multiple.
#[verifier::external_body]
fn padding_of(tokenizer: &tokenizers::Tokenizer) -> (r: Option<Padding>)
    ensures
        r == padding(*tokenizer),
{
    tokenizer.get_padding().map(|params| Padding {
        fixed: match params.strategy {
            tokenizers::PaddingStrategy::Fixed(length) => Some(length),
            tokenizers::PaddingStrategy::BatchLongest => None,
        },
        multiple: params.pad_to_multiple_of,
    })
}

/// Calls `tokenizers::Tokenizer::get_model`: whether it is a `BPE` model that was given a probability
/// to drop merges, and whether it is a `Unigram` model that was told to sample.
#[verifier::external_body]
fn chance_of(tokenizer: &tokenizers::Tokenizer) -> (r: (bool, bool))
    ensures
        r == chance(*tokenizer),
{
    match tokenizer.get_model() {
        tokenizers::ModelWrapper::BPE(model) => (model.dropout.is_some(), false),
        tokenizers::ModelWrapper::Unigram(model) => (false, model.alpha.is_some()),
        _ => (false, false),
    }
}

/// Calls `tokenizers::Tokenizer::get_added_tokens_decoder`: the flags `lstrip` and `rstrip` of the added
/// tokens, in some order.
#[verifier::external_body]
fn stripping_of(tokenizer: &tokenizers::Tokenizer) -> (r: Vec<(bool, bool)>)
    ensures
        r@.to_set() == stripping(*tokenizer),
{
    let added = tokenizer.get_added_tokens_decoder();
    added.values().map(|token| (token.lstrip, token.rstrip)).collect()
}

/// Calls `tokenizers::Tokenizer::encode` on `text`, on a copy of the tokenizer that has no truncation, no
/// padding and no post-processor, and counts the tokens.
///
/// The count is fixed by the tokenizer and the text, since models that leave something to chance are
/// left out.
#[verifier::external_body]
fn full_length(tokenizer: &tokenizers::Tokenizer, text: &str) -> (r: Option<usize>)
    requires
        reads_safely(*tokenizer),
        !chance(*tokenizer).0,
    ensures
        r == full_lengths(*tokenizer)[text@],
{
    let mut plain = tokenizer.clone();
    plain.with_padding(None);
    plain.with_post_processor(None::<tokenizers::PostProcessorWrapper>);
    plain.with_truncation(None).ok()?;
    plain.encode(text, false).ok().map(|encoding| encoding.len())
}

/// Calls `tokenizers::Tokenizer::id_to_token`: the token of an id, if there is one.
#[verifier::external_body]
fn token_of(tokenizer: &tokenizers::Tokenizer, id: u32) -> (r: Option<String>)
    ensures
        r is Some <==> tokens_of(*tokenizer).dom().contains(id),
        r matches Some(token) ==> token@ == tokens_of(*tokenizer)[id],
{
    tokenizer.id_to_token(id)
}

/// Calls `tokenizers::AddedVocabulary::is_special_token`: whether a token is special.
#[verifier::external_body]
fn is_special(tokenizer: &tokenizers::Tokenizer, token: &str) -> (r: bool)
    ensures
        r == special_tokens(*tokenizer).contains(token@),
{
    tokenizer.get_added_vocabulary().is_special_token(token)
}

/// The tokenizer failed; `message` is what it said.
#[derive(Debug)]
pub struct TokenizerError {
    pub message: String,
}

/// No added token strips on its right where one strips on its left. Otherwise a token of white space
/// may end before it starts.
pub open spec fn finds_added_tokens_safely(flags: Set<(bool, bool)>) -> bool {
    ||| forall|pair: (bool, bool)| #[trigger] flags.contains(pair) ==> !pair.0
    ||| forall|pair: (bool, bool)| #[trigger] flags.contains(pair) ==> !pair.1
}

/// The tokenizer can make tokens of every text, before it shortens and finishes them.
///
/// A model that draws by scores is left out: it has none to draw from where all are out of range.
pub open spec fn reads_safely(tokenizer: tokenizers::Tokenizer) -> bool {
    &&& finds_added_tokens_safely(stripping(tokenizer))
    &&& normalizing_of(tokenizer) matches Some(part) ==> tokenizer_parts::normalizes_safely(part)
    &&& splitting_of(tokenizer) matches Some(part) ==> tokenizer_parts::splits_safely(part)
    &&& !chance(tokenizer).1
}

/// A truncation can work on this text: its stride is below the greatest length where there is one, or
/// there is nothing to shorten.
pub open spec fn truncates_safely(tokenizer: tokenizers::Tokenizer, text: Seq<char>) -> bool {
    match truncation(tokenizer) {
        Some(limits) => {
            ||| limits.max_length == 0
            ||| limits.stride < limits.max_length
            ||| limits.second_only
            ||| !chance(tokenizer).0 && (full_lengths(tokenizer)[text] matches Some(length) && length
                <= limits.max_length)
        },
        None => true,
    }
}

/// A number of tokens that have addresses.
pub open spec fn is_addressable(count: Option<usize>) -> bool {
    count matches Some(n) ==> n <= usize::MAX / 128
}

/// Every text can be filled up: the tokens that are added have addresses.
pub open spec fn pads_safely(padding: Option<Padding>) -> bool {
    padding matches Some(params) ==> is_addressable(params.fixed) && is_addressable(params.multiple)
}

/// The tokenizer can work on this text, as far as its parts tell: where this holds it does, and where
/// it does not it might fail.
pub open spec fn can_encode(tokenizer: tokenizers::Tokenizer, text: Seq<char>) -> bool {
    &&& reads_safely(tokenizer)
    &&& truncates_safely(tokenizer, text)
    &&& finishing_of(tokenizer) matches Some(part) ==> tokenizer_parts::finishes_safely(
        part,
        1,
    ) is Some
    &&& pads_safely(padding(tokenizer))
}

/// The tokens that ids stand for, without the special ones.
pub open spec fn visible_tokens(tokenizer: tokenizers::Tokenizer, ids: Seq<u32>) -> Seq<Seq<char>>
    decreases ids.len(),
{
    if ids.len() == 0 {
        Seq::empty()
    } else {
        let before = visible_tokens(tokenizer, ids.drop_last());
        let id = ids.last();
        if tokens_of(tokenizer).dom().contains(id) && !special_tokens(tokenizer).contains(
            tokens_of(tokenizer)[id],
        ) {
            before.push(tokens_of(tokenizer)[id])
        } else {
            before
        }
    }
}

/// The tokenizer can work on these ids, as far as the steps of its decoder tell.
pub open spec fn can_decode(tokenizer: tokenizers::Tokenizer, ids: Seq<u32>) -> bool {
    decoding_of(tokenizer) matches Some(part) ==> tokenizer_parts::decoded_tokens(
        part,
        visible_tokens(tokenizer, ids),
    ) is Some
}

/// What a call gave, over views.
pub open spec fn encoding_view(r: Result<Vec<u32>, String>) -> Result<Seq<u32>, Seq<char>> {
    match r {
        Ok(ids) => Ok(ids@),
        Err(message) => Err(message@),
    }
}

/// Calls `tokenizers::Tokenizer::encode` on `text`, without adding special tokens.
///
/// What comes back is one of the outcomes that the tokenizer can give for this text, and the only one
/// unless its model may drop merges at random. Which of several it is, is left open. Tokenizers and
/// texts on which the call may panic are left out. That it may run out of memory is not, as with a long
/// padding, or with a template that repeats a text of which much was cut off.
#[verifier::external_body]
fn encode(tokenizer: &tokenizers::Tokenizer, text: &str) -> (r: Result<Vec<u32>, String>)
    requires
        can_encode(*tokenizer, text@),
    ensures
        encodings(*tokenizer).contains((text@, encoding_view(r))),
        !chance(*tokenizer).0 ==> forall|outcome: Result<Seq<u32>, Seq<char>>| #[trigger]
            encodings(*tokenizer).contains((text@, outcome)) ==> outcome == encoding_view(r),
{
    match tokenizer.encode(text, false) {
        Ok(encoding) => Ok(encoding.get_ids().to_vec()),
        Err(error) => Err(error.to_string()),
    }
}

/// Calls `tokenizers::Tokenizer::decode` on `ids`, leaving special tokens out.
///
/// The text, or what the error says, is fixed by the tokenizer and the ids. Decoders that may panic
/// on these ids are left out.
#[verifier::external_body]
fn decode(tokenizer: &tokenizers::Tokenizer, ids: &[u32]) -> (r: Result<String, String>)
    requires
        can_decode(*tokenizer, ids@),
    ensures
        decodings(*tokenizer)[ids@] == (match r {
            Ok(text) => Ok::<Seq<char>, Seq<char>>(text@),
            Err(message) => Err(message@),
        }),
{
    tokenizer.decode(ids, true).map_err(|error| error.to_string())
}

/// Calls `tokenizers::Tokenizer::token_to_id`: the id of a token of the vocabulary.
#[verifier::external_body]
fn token_id(tokenizer: &tokenizers::Tokenizer, token: &str) -> (r: Option<u32>)
    ensures
        r == (if vocabulary(*tokenizer).dom().contains(token@) {
            Some(vocabulary(*tokenizer)[token@])
        } else {
            None
        }),
{
    tokenizer.token_to_id(token)
}

fn added_tokens_are_safe(tokenizer: &tokenizers::Tokenizer) -> (r: bool)
    ensures
        r == finds_added_tokens_safely(stripping(*tokenizer)),
{
    let flags = stripping_of(tokenizer);
    let ghost all = flags@.to_set();
    let mut left = false;
    let mut right = false;
    let mut i: usize = 0;
    while i < flags.len()
        invariant
            0 <= i <= flags@.len(),
            all == flags@.to_set(),
            !left ==> forall|k: int| 0 <= k < i ==> !(#[trigger] flags@[k]).0,
            !right ==> forall|k: int| 0 <= k < i ==> !(#[trigger] flags@[k]).1,
            left ==> exists|pair: (bool, bool)| #[trigger] all.contains(pair) && pair.0,
            right ==> exists|pair: (bool, bool)| #[trigger] all.contains(pair) && pair.1,
        decreases flags@.len() - i,
    {
        let (on_left, on_right) = flags[i];
        assert(all.contains(flags@[i as int]));
        left = left || on_left;
        right = right || on_right;
        i = i + 1;
    }
    assert forall|pair: (bool, bool)| #[trigger] all.contains(pair) implies exists|k: int|
        0 <= k < flags@.len() && flags@[k] == pair by {
        assert(flags@.contains(pair));
    }
    !left || !right
}

fn is_able_to_read(tokenizer: &tokenizers::Tokenizer) -> (r: bool)
    ensures
        r == reads_safely(*tokenizer),
{
    let normalizes = match normalizer_of(tokenizer) {
        Some(normalizer) => tokenizer_parts::normalizer_is_safe(normalizer),
        None => true,
    };
    let splits = match pre_tokenizer_of(tokenizer) {
        Some(pre_tokenizer) => tokenizer_parts::pre_tokenizer_is_safe(pre_tokenizer),
        None => true,
    };
    added_tokens_are_safe(tokenizer) && normalizes && splits && !chance_of(tokenizer).1
}

fn is_able_to_truncate(tokenizer: &tokenizers::Tokenizer, text: &str) -> (r: bool)
    requires
        reads_safely(*tokenizer),
    ensures
        r == truncates_safely(*tokenizer, text@),
{
    match truncation_of(tokenizer) {
        Some(limits) => {
            if limits.max_length == 0 || limits.stride < limits.max_length || limits.second_only {
                true
            } else if chance_of(tokenizer).0 {
                false
            } else {
                match full_length(tokenizer, text) {
                    Some(length) => length <= limits.max_length,
                    None => false,
                }
            }
        },
        None => true,
    }
}

fn addressable(count: Option<usize>) -> (r: bool)
    ensures
        r == is_addressable(count),
{
    match count {
        Some(n) => n <= usize::MAX / 128,
        None => true,
    }
}

fn is_able_to_pad(tokenizer: &tokenizers::Tokenizer) -> (r: bool)
    ensures
        r == pads_safely(padding(*tokenizer)),
{
    match padding_of(tokenizer) {
        Some(params) => addressable(params.fixed) && addressable(params.multiple),
        None => true,
    }
}

/// Whether the tokenizer can work on this text.
pub fn is_able_to_encode(tokenizer: &tokenizers::Tokenizer, text: &str) -> (r: bool)
    ensures
        r == can_encode(*tokenizer, text@),
{
    if !is_able_to_pad(tokenizer) || !is_able_to_read(tokenizer) || !is_able_to_truncate(
        tokenizer,
        text,
    ) {
        return false;
    }
    match post_processor_of(tokenizer) {
        Some(post_processor) => tokenizer_parts::post_processor_outcome(
            post_processor,
            1,
        ).is_some(),
        None => true,
    }
}

fn visible_tokens_of(tokenizer: &tokenizers::Tokenizer, ids: &Vec<u32>) -> (r: Vec<String>)
    ensures
        text::views(r@) == visible_tokens(*tokenizer, ids@),
{
    let mut r: Vec<String> = Vec::new();
    let mut i: usize = 0;
    assert(text::views(r@) =~= visible_tokens(*tokenizer, ids@.take(0)));
    while i < ids.len()
        invariant
            0 <= i <= ids@.len(),
            text::views(r@) == visible_tokens(*tokenizer, ids@.take(i as int)),
        decreases ids@.len() - i,
    {
        let ghost before = r@;
        assert(ids@.take(i + 1).drop_last() =~= ids@.take(i as int));
        if let Some(token) = token_of(tokenizer, ids[i]) {
            if !is_special(tokenizer, token.as_str()) {
                r.push(token);
                assert(text::views(r@) =~= text::views(before).push(token@));
            }
        }
        i = i + 1;
    }
    assert(ids@.take(i as int) =~= ids@);
    r
}

/// Whether the tokenizer can work on these ids.
pub fn is_able_to_decode(tokenizer: &tokenizers::Tokenizer, ids: &Vec<u32>) -> (r: bool)
    ensures
        r == can_decode(*tokenizer, ids@),
{
    match decoder_of(tokenizer) {
        Some(decoder) => tokenizer_parts::decoder_outcome(
            decoder,
            visible_tokens_of(tokenizer, ids),
        ).is_some(),
        None => true,
    }
}

/// `outcome` can become of a text: one of the tokenizer's, or a refusal where it is not able to work
/// on the text.
pub open spec fn encoded(
    tokenizer: tokenizers::Tokenizer,
    text: Seq<char>,
    outcome: Result<Seq<u32>, Seq<char>>,
) -> bool {
    if can_encode(tokenizer, text) {
        encodings(tokenizer).contains((text, outcome))
    } else {
        outcome == Err::<Seq<u32>, Seq<char>>("unsupported tokenizer"@)
    }
}

/// What becomes of ids: what the tokenizer gives, or a refusal where it is not able to work on them.
pub open spec fn decoded(tokenizer: tokenizers::Tokenizer, ids: Seq<u32>) -> Result<
    Seq<char>,
    Seq<char>,
> {
    if can_decode(tokenizer, ids) {
        decodings(tokenizer)[ids]
    } else {
        Err("unsupported decoder"@)
    }
}

/// What became of a prompt, over views.
pub open spec fn prompt_view(r: Result<Vec<u32>, TokenizerError>) -> Result<Seq<u32>, Seq<char>> {
    match r {
        Ok(ids) => Ok(ids@),
        Err(error) => Err(error.message@),
    }
}

/// The token ids of a prompt.
///
/// Unless the model may drop merges at random, nothing else can become of the prompt.
pub fn encode_prompt(tokenizer: &tokenizers::Tokenizer, prompt: &str) -> (r: Result<
    Vec<u32>,
    TokenizerError,
>)
    ensures
        encoded(*tokenizer, prompt@, prompt_view(r)),
        !chance(*tokenizer).0 ==> forall|outcome: Result<Seq<u32>, Seq<char>>| #[trigger]
            encoded(*tokenizer, prompt@, outcome) ==> outcome == prompt_view(r),
{
    if !is_able_to_encode(tokenizer, prompt) {
        return Err(TokenizerError { message: "unsupported tokenizer".to_owned() });
    }
    match encode(tokenizer, prompt) {
        Ok(ids) => Ok(ids),
        Err(message) => Err(TokenizerError { message }),
    }
}

/// The text of a sequence of token ids.
pub fn decode_tokens(tokenizer: &tokenizers::Tokenizer, ids: &Vec<u32>) -> (r: Result<
    String,
    TokenizerError,
>)
    ensures
        decoded(*tokenizer, ids@) == (match r {
            Ok(text) => Ok::<Seq<char>, Seq<char>>(text@),
            Err(error) => Err(error.message@),
        }),
{
    if !is_able_to_decode(tokenizer, ids) {
        return Err(TokenizerError { message: "unsupported decoder".to_owned() });
    }
    match decode(tokenizer, ids.as_slice()) {
        Ok(text) => Ok(text),
        Err(message) => Err(TokenizerError { message }),
    }
}

/// The token that ends a message, if the vocabulary has it.
pub fn end_of_message(tokenizer: &tokenizers::Tokenizer) -> (r: Option<u32>)
    ensures
        r == (if vocabulary(*tokenizer).dom().contains("<|im_end|>"@) {
            Some(vocabulary(*tokenizer)["<|im_end|>"@])
        } else {
            None
        }),
{
    token_id(tokenizer, "<|im_end|>")
}

/// The visible tokens of ids stand one behind the other; an id shows its token, but nothing where the
/// token is special or there is none.
pub proof fn ids_show_their_tokens(tokenizer: tokenizers::Tokenizer, a: Seq<u32>, b: Seq<u32>, id: u32)
    ensures
        visible_tokens(tokenizer, a + b) == visible_tokens(tokenizer, a) + visible_tokens(
            tokenizer,
            b,
        ),
        !tokens_of(tokenizer).dom().contains(id) ==> visible_tokens(tokenizer, seq![id]).len() == 0,
        tokens_of(tokenizer).dom().contains(id) && special_tokens(tokenizer).contains(
            tokens_of(tokenizer)[id],
        ) ==> visible_tokens(tokenizer, seq![id]).len() == 0,
        tokens_of(tokenizer).dom().contains(id) && !special_tokens(tokenizer).contains(
            tokens_of(tokenizer)[id],
        ) ==> visible_tokens(tokenizer, seq![id]) == seq![tokens_of(tokenizer)[id]],
    decreases b.len(),
{
    let one = seq![id];
    assert(one.drop_last() =~= Seq::empty());
    assert(visible_tokens(tokenizer, one.drop_last()) =~= Seq::empty());
    if b.len() == 0 {
        assert(a + b =~= a);
        assert(visible_tokens(tokenizer, a) + visible_tokens(tokenizer, b) =~= visible_tokens(
            tokenizer,
            a,
        ));
    } else {
        ids_show_their_tokens(tokenizer, a, b.drop_last(), id);
        assert((a + b).drop_last() =~= a + b.drop_last());
        assert(visible_tokens(tokenizer, a + b) =~= visible_tokens(tokenizer, a) + visible_tokens(
            tokenizer,
            b,
        ));
    }
}

}
