//! What a tokenizer consists of, and which parts the `tokenizers` crate can run without panicking.
//!
//! Every kind of part has a name of its own. For each of them this module says on what it is safe, and
//! finds out whether it is.
use crate::compiled_table;
use crate::text;
use tokenizers::normalizers::replace::ReplacePattern;
use tokenizers::pre_tokenizers::split::{Split, SplitPattern};
use tokenizers::processors::template::{Piece, Sequence};
use tokenizers::{DecoderWrapper, NormalizerWrapper, PostProcessorWrapper, PreTokenizerWrapper};
use vstd::prelude::*;

verus! {

/// A normalizer of a tokenizer.
#[verifier::external_type_specification]
#[verifier::external_body]
pub struct ExNormalizer(tokenizers::NormalizerWrapper);

/// A pre-tokenizer of a tokenizer.
#[verifier::external_type_specification]
#[verifier::external_body]
pub struct ExPreTokenizer(tokenizers::PreTokenizerWrapper);

/// A post-processor of a tokenizer.
#[verifier::external_type_specification]
#[verifier::external_body]
pub struct ExPostProcessor(tokenizers::PostProcessorWrapper);

/// A decoder of a tokenizer.
#[verifier::external_type_specification]
#[verifier::external_body]
pub struct ExDecoder(tokenizers::DecoderWrapper);

/// A replacement, which serves as a normalizer and as a decoder.
#[verifier::external_type_specification]
#[verifier::external_body]
pub struct ExReplace(tokenizers::normalizers::replace::Replace);

/// A compiled table of characters.
#[verifier::external_type_specification]
#[verifier::external_body]
pub struct ExPrecompiled(tokenizers::normalizers::Precompiled);

/// The form that a post-processor gives to one text or to two.
#[verifier::external_type_specification]
#[verifier::external_body]
pub struct ExTemplate(tokenizers::processors::template::Template);

/// What is searched for in a text.
pub enum Matcher {
    /// This text.
    Text(Seq<char>),
    /// Whatever this regular expression describes.
    Regex(Seq<char>),
}

/// What a normalizer consists of.
pub enum Normalizing {
    Bert,
    Strip,
    StripAccents,
    /// One of the four normal forms of Unicode.
    NormalForm,
    Lowercase,
    Nmt,
    ByteLevel,
    /// A compiled table of characters, written in base 64.
    Precompiled(Option<Seq<char>>),
    /// Puts this in front.
    Prepend(Seq<char>),
    /// Puts the second in the place of the first.
    Replace(Option<Matcher>, Seq<char>),
    Sequence(Seq<Normalizing>),
}

/// What a pre-tokenizer consists of.
pub enum Splitting {
    Bert,
    ByteLevel,
    Delimiter,
    Metaspace,
    Whitespace,
    WhitespaceSplit,
    Punctuation,
    Digits,
    UnicodeScripts,
    /// Pieces of this length.
    FixedLength(usize),
    Split(Matcher),
    Sequence(Seq<Splitting>),
}

/// A piece of a template.
#[derive(Clone, Copy, PartialEq, Eq, Structural)]
pub enum TemplatePiece {
    /// The first text.
    First,
    /// The second text.
    Second,
    /// A special token.
    Special,
}

/// What a post-processor consists of.
pub enum Finishing {
    Roberta,
    Bert,
    ByteLevel,
    /// A form for one text, and one for two.
    Template(Option<Seq<TemplatePiece>>, Option<Seq<TemplatePiece>>),
    Sequence(Seq<Finishing>),
}

/// One step of a decoder.
pub enum DecodingStep {
    Bpe,
    ByteFallback,
    ByteLevel,
    Ctc,
    Fuse,
    Metaspace,
    Replace(Option<Matcher>),
    /// Strips up to so many of this character off the start, and up to so many off the end.
    Strip(char, usize, usize),
    WordPiece,
}

/// What a decoder consists of.
pub enum Decoding {
    /// A step, and what it makes of tokens: other tokens, or what its error says.
    Step(DecodingStep, Map<Seq<Seq<char>>, Result<Seq<Seq<char>>, Seq<char>>>),
    Sequence(Seq<Decoding>),
}

/// What is searched for in a text.
enum Pattern {
    Text(String),
    Regex(String),
}

/// One level of a normalizer.
enum NormalizerPart<'a> {
    Bert,
    Strip,
    StripAccents,
    NormalForm,
    Lowercase,
    Nmt,
    ByteLevel,
    Precompiled(&'a tokenizers::normalizers::Precompiled),
    Prepend(&'a str),
    Replace(&'a tokenizers::normalizers::replace::Replace, &'a str),
    Sequence(&'a [tokenizers::NormalizerWrapper]),
}

/// One level of a pre-tokenizer.
enum PreTokenizerPart<'a> {
    Bert,
    ByteLevel,
    Delimiter,
    Metaspace,
    Whitespace,
    WhitespaceSplit,
    Punctuation,
    Digits,
    UnicodeScripts,
    FixedLength(usize),
    SplitText(&'a str),
    SplitRegex(&'a str),
    Sequence(&'a [tokenizers::PreTokenizerWrapper]),
}

/// One level of a post-processor.
enum PostProcessorPart<'a> {
    Roberta,
    Bert,
    ByteLevel,
    Template(
        &'a tokenizers::processors::template::Template,
        &'a tokenizers::processors::template::Template,
    ),
    Sequence(&'a [tokenizers::PostProcessorWrapper]),
}

/// One level of a decoder.
enum DecoderPart<'a> {
    Bpe,
    ByteFallback,
    ByteLevel,
    Ctc,
    Fuse,
    Metaspace,
    Replace(&'a tokenizers::normalizers::replace::Replace),
    Strip(char, usize, usize),
    WordPiece,
    Sequence(&'a [tokenizers::DecoderWrapper]),
}

/// What a replacement searches for, as far as its written form can be read back.
pub uninterp spec fn replacing(replace: tokenizers::normalizers::replace::Replace) -> Option<Matcher>;

/// The written form of a compiled table, in base 64.
pub uninterp spec fn written_table(table: tokenizers::normalizers::Precompiled) -> Option<Seq<char>>;

/// The pieces of a template, as far as its written form can be read back.
pub uninterp spec fn pieces(template: tokenizers::processors::template::Template) -> Option<
    Seq<TemplatePiece>,
>;

/// What a normalizer consists of.
pub uninterp spec fn normalizing(normalizer: tokenizers::NormalizerWrapper) -> Normalizing;

/// What a pre-tokenizer consists of.
pub uninterp spec fn splitting(pre_tokenizer: tokenizers::PreTokenizerWrapper) -> Splitting;

/// What a post-processor consists of.
pub uninterp spec fn finishing(post_processor: tokenizers::PostProcessorWrapper) -> Finishing;

/// What a decoder consists of.
pub uninterp spec fn decoding(decoder: tokenizers::DecoderWrapper) -> Decoding;

/// What `Decoder::decode_chain` makes of tokens: other tokens, or what its error says.
pub uninterp spec fn chains(decoder: tokenizers::DecoderWrapper) -> Map<
    Seq<Seq<char>>,
    Result<Seq<Seq<char>>, Seq<char>>,
>;

spec fn pattern_view(pattern: Option<Pattern>) -> Option<Matcher> {
    match pattern {
        Some(Pattern::Text(text)) => Some(Matcher::Text(text@)),
        Some(Pattern::Regex(regex)) => Some(Matcher::Regex(regex@)),
        None => None,
    }
}

spec fn normalizer_view(part: NormalizerPart) -> Normalizing {
    match part {
        NormalizerPart::Bert => Normalizing::Bert,
        NormalizerPart::Strip => Normalizing::Strip,
        NormalizerPart::StripAccents => Normalizing::StripAccents,
        NormalizerPart::NormalForm => Normalizing::NormalForm,
        NormalizerPart::Lowercase => Normalizing::Lowercase,
        NormalizerPart::Nmt => Normalizing::Nmt,
        NormalizerPart::ByteLevel => Normalizing::ByteLevel,
        NormalizerPart::Precompiled(table) => Normalizing::Precompiled(written_table(*table)),
        NormalizerPart::Prepend(text) => Normalizing::Prepend(text@),
        NormalizerPart::Replace(replace, content) => Normalizing::Replace(
            replacing(*replace),
            content@,
        ),
        NormalizerPart::Sequence(items) => Normalizing::Sequence(
            items@.map_values(|item: tokenizers::NormalizerWrapper| normalizing(item)),
        ),
    }
}

spec fn pre_tokenizer_view(part: PreTokenizerPart) -> Splitting {
    match part {
        PreTokenizerPart::Bert => Splitting::Bert,
        PreTokenizerPart::ByteLevel => Splitting::ByteLevel,
        PreTokenizerPart::Delimiter => Splitting::Delimiter,
        PreTokenizerPart::Metaspace => Splitting::Metaspace,
        PreTokenizerPart::Whitespace => Splitting::Whitespace,
        PreTokenizerPart::WhitespaceSplit => Splitting::WhitespaceSplit,
        PreTokenizerPart::Punctuation => Splitting::Punctuation,
        PreTokenizerPart::Digits => Splitting::Digits,
        PreTokenizerPart::UnicodeScripts => Splitting::UnicodeScripts,
        PreTokenizerPart::FixedLength(length) => Splitting::FixedLength(length),
        PreTokenizerPart::SplitText(text) => Splitting::Split(Matcher::Text(text@)),
        PreTokenizerPart::SplitRegex(regex) => Splitting::Split(Matcher::Regex(regex@)),
        PreTokenizerPart::Sequence(items) => Splitting::Sequence(
            items@.map_values(|item: tokenizers::PreTokenizerWrapper| splitting(item)),
        ),
    }
}

spec fn post_processor_view(part: PostProcessorPart) -> Finishing {
    match part {
        PostProcessorPart::Roberta => Finishing::Roberta,
        PostProcessorPart::Bert => Finishing::Bert,
        PostProcessorPart::ByteLevel => Finishing::ByteLevel,
        PostProcessorPart::Template(single, pair) => Finishing::Template(
            pieces(*single),
            pieces(*pair),
        ),
        PostProcessorPart::Sequence(items) => Finishing::Sequence(
            items@.map_values(|item: tokenizers::PostProcessorWrapper| finishing(item)),
        ),
    }
}

spec fn decoder_view(
    part: DecoderPart,
    outcomes: Map<Seq<Seq<char>>, Result<Seq<Seq<char>>, Seq<char>>>,
) -> Decoding {
    match part {
        DecoderPart::Bpe => Decoding::Step(DecodingStep::Bpe, outcomes),
        DecoderPart::ByteFallback => Decoding::Step(DecodingStep::ByteFallback, outcomes),
        DecoderPart::ByteLevel => Decoding::Step(DecodingStep::ByteLevel, outcomes),
        DecoderPart::Ctc => Decoding::Step(DecodingStep::Ctc, outcomes),
        DecoderPart::Fuse => Decoding::Step(DecodingStep::Fuse, outcomes),
        DecoderPart::Metaspace => Decoding::Step(DecodingStep::Metaspace, outcomes),
        DecoderPart::Replace(replace) => Decoding::Step(
            DecodingStep::Replace(replacing(*replace)),
            outcomes,
        ),
        DecoderPart::Strip(content, start, stop) => Decoding::Step(
            DecodingStep::Strip(content, start, stop),
            outcomes,
        ),
        DecoderPart::WordPiece => Decoding::Step(DecodingStep::WordPiece, outcomes),
        DecoderPart::Sequence(items) => Decoding::Sequence(
            items@.map_values(|item: tokenizers::DecoderWrapper| decoding(item)),
        ),
    }
}

/// Writes a `Replace` with `serde_json::to_value` and reads its pattern back as a `ReplacePattern`;
/// the pattern has no other access.
#[verifier::external_body]
fn replaced_pattern(replace: &tokenizers::normalizers::replace::Replace) -> (r: Option<Pattern>)
    ensures
        pattern_view(r) == replacing(*replace),
{
    let written = serde_json::to_value(replace).ok()?;
    match serde_json::from_value(written.get("pattern")?.clone()).ok()? {
        ReplacePattern::String(text) => Some(Pattern::Text(text)),
        ReplacePattern::Regex(regex) => Some(Pattern::Regex(regex)),
    }
}

/// Writes a `Precompiled` with `serde_json::to_value` and takes the table out of it, which is written in
/// base 64; it has no other access.
#[verifier::external_body]
fn table_text(table: &tokenizers::normalizers::Precompiled) -> (r: Option<String>)
    ensures
        r is Some == written_table(*table) is Some,
        r matches Some(written) ==> written_table(*table) == Some(written@),
{
    let written = serde_json::to_value(table).ok()?;
    Some(written.get("precompiled_charsmap")?.as_str()?.to_owned())
}

/// Writes a `Template` with `serde_json::to_value` and reads its pieces back as `Piece`s; they have no
/// other access.
#[verifier::external_body]
fn template_pieces(template: &tokenizers::processors::template::Template) -> (r: Option<
    Vec<TemplatePiece>,
>)
    ensures
        r is Some == pieces(*template) is Some,
        r matches Some(list) ==> pieces(*template) == Some(list@),
{
    let written = serde_json::to_value(template).ok()?;
    let pieces: Vec<Piece> = serde_json::from_value(written).ok()?;
    let kind = |piece: Piece| match piece {
        Piece::Sequence { id: Sequence::A, .. } => TemplatePiece::First,
        Piece::Sequence { id: Sequence::B, .. } => TemplatePiece::Second,
        Piece::SpecialToken { .. } => TemplatePiece::Special,
    };
    Some(pieces.into_iter().map(kind).collect())
}

/// Tells the variants of `tokenizers::NormalizerWrapper` apart: what a `Prepend` prepends, a `Replace`
/// and what it puts in, the items of a sequence. The four normal forms are taken together.
#[verifier::external_body]
fn normalizer_part<'a>(normalizer: &'a tokenizers::NormalizerWrapper) -> (r: NormalizerPart<'a>)
    ensures
        normalizing(*normalizer) == normalizer_view(r),
{
    match normalizer {
        NormalizerWrapper::BertNormalizer(_) => NormalizerPart::Bert,
        NormalizerWrapper::StripNormalizer(_) => NormalizerPart::Strip,
        NormalizerWrapper::StripAccents(_) => NormalizerPart::StripAccents,
        NormalizerWrapper::NFC(_) | NormalizerWrapper::NFD(_) => NormalizerPart::NormalForm,
        NormalizerWrapper::NFKC(_) | NormalizerWrapper::NFKD(_) => NormalizerPart::NormalForm,
        NormalizerWrapper::Lowercase(_) => NormalizerPart::Lowercase,
        NormalizerWrapper::Nmt(_) => NormalizerPart::Nmt,
        NormalizerWrapper::ByteLevel(_) => NormalizerPart::ByteLevel,
        NormalizerWrapper::Precompiled(n) => NormalizerPart::Precompiled(n),
        NormalizerWrapper::Prepend(n) => NormalizerPart::Prepend(&n.prepend),
        NormalizerWrapper::Replace(n) => NormalizerPart::Replace(n, &n.content),
        NormalizerWrapper::Sequence(items) => NormalizerPart::Sequence(items.as_ref()),
    }
}

/// Tells the variants of `tokenizers::PreTokenizerWrapper` apart: the length of a `FixedLength`, the
/// pattern of a `Split`, the items of a sequence. A `Split` searches for the pattern that it names where
/// it was read from a file or made by `Split::new`.
#[verifier::external_body]
fn pre_tokenizer_part<'a>(pre_tokenizer: &'a tokenizers::PreTokenizerWrapper) -> (r:
    PreTokenizerPart<'a>)
    ensures
        splitting(*pre_tokenizer) == pre_tokenizer_view(r),
{
    match pre_tokenizer {
        PreTokenizerWrapper::BertPreTokenizer(_) => PreTokenizerPart::Bert,
        PreTokenizerWrapper::ByteLevel(_) => PreTokenizerPart::ByteLevel,
        PreTokenizerWrapper::Delimiter(_) => PreTokenizerPart::Delimiter,
        PreTokenizerWrapper::Metaspace(_) => PreTokenizerPart::Metaspace,
        PreTokenizerWrapper::Whitespace(_) => PreTokenizerPart::Whitespace,
        PreTokenizerWrapper::WhitespaceSplit(_) => PreTokenizerPart::WhitespaceSplit,
        PreTokenizerWrapper::Punctuation(_) => PreTokenizerPart::Punctuation,
        PreTokenizerWrapper::Digits(_) => PreTokenizerPart::Digits,
        PreTokenizerWrapper::UnicodeScripts(_) => PreTokenizerPart::UnicodeScripts,
        PreTokenizerWrapper::FixedLength(p) => PreTokenizerPart::FixedLength(p.length),
        PreTokenizerWrapper::Split(Split { pattern: SplitPattern::String(s), .. }) => PreTokenizerPart::SplitText(s),
        PreTokenizerWrapper::Split(Split { pattern: SplitPattern::Regex(s), .. }) => PreTokenizerPart::SplitRegex(s),
        PreTokenizerWrapper::Sequence(p) => PreTokenizerPart::Sequence(p.as_ref()),
    }
}

/// Tells the variants of `tokenizers::PostProcessorWrapper` apart: the two forms of a template, the
/// items of a sequence.
#[verifier::external_body]
fn post_processor_part<'a>(post_processor: &'a tokenizers::PostProcessorWrapper) -> (r:
    PostProcessorPart<'a>)
    ensures
        finishing(*post_processor) == post_processor_view(r),
{
    match post_processor {
        PostProcessorWrapper::Roberta(_) => PostProcessorPart::Roberta,
        PostProcessorWrapper::Bert(_) => PostProcessorPart::Bert,
        PostProcessorWrapper::ByteLevel(_) => PostProcessorPart::ByteLevel,
        PostProcessorWrapper::Template(p) => PostProcessorPart::Template(&p.single, p.get_pair()),
        PostProcessorWrapper::Sequence(p) => PostProcessorPart::Sequence(p.as_ref()),
    }
}

/// Tells the variants of `tokenizers::DecoderWrapper` apart: a `Replace`, what a `Strip` takes off, the
/// items of a sequence.
#[verifier::external_body]
fn decoder_part<'a>(decoder: &'a tokenizers::DecoderWrapper) -> (r: DecoderPart<'a>)
    ensures
        decoding(*decoder) == decoder_view(r, chains(*decoder)),
{
    match decoder {
        DecoderWrapper::BPE(_) => DecoderPart::Bpe,
        DecoderWrapper::ByteFallback(_) => DecoderPart::ByteFallback,
        DecoderWrapper::ByteLevel(_) => DecoderPart::ByteLevel,
        DecoderWrapper::CTC(_) => DecoderPart::Ctc,
        DecoderWrapper::Fuse(_) => DecoderPart::Fuse,
        DecoderWrapper::Metaspace(_) => DecoderPart::Metaspace,
        DecoderWrapper::Replace(d) => DecoderPart::Replace(d),
        DecoderWrapper::Strip(d) => DecoderPart::Strip(d.content, d.start, d.stop),
        DecoderWrapper::WordPiece(_) => DecoderPart::WordPiece,
        DecoderWrapper::Sequence(d) => DecoderPart::Sequence(d.get_decoders()),
    }
}

/// Calls `tokenizers::Decoder::decode_chain` on a single step.
///
/// What comes back is fixed by the decoder and the tokens.
#[verifier::external_body]
fn decode_step(decoder: &tokenizers::DecoderWrapper, tokens: Vec<String>) -> (r: Result<
    Vec<String>,
    String,
>)
    requires
        runs_on(decoding(*decoder), text::views(tokens@)),
    ensures
        chains(*decoder)[text::views(tokens@)] == outcome_view(r),
{
    tokenizers::Decoder::decode_chain(decoder, tokens).map_err(|error| error.to_string())
}

spec fn outcome_view(r: Result<Vec<String>, String>) -> Result<Seq<Seq<char>>, Seq<char>> {
    match r {
        Ok(tokens) => Ok(text::views(tokens@)),
        Err(message) => Err(message@),
    }
}

/// A regular expression that may move the start of its match, by the mark `\K`. In a look-ahead the
/// start can come to lie behind the end, and matches are then out of order.
pub open spec fn moves_its_start(regex: Seq<char>) -> bool {
    text::find(regex, "\\K"@) is Some
}

/// The matches follow one another.
pub open spec fn matches_in_order(pattern: Matcher) -> bool {
    match pattern {
        Matcher::Text(_) => true,
        Matcher::Regex(regex) => !moves_its_start(regex),
    }
}

/// Whether a part of a regular expression need not occur by what stands at position `i`; a brace that
/// counts from one on demands it.
pub open spec fn is_optional_mark(regex: Seq<char>, i: int) -> bool {
    ||| regex[i] == '|' || regex[i] == '*' || regex[i] == '?'
    ||| regex[i] == '{' && !(i + 1 < regex.len() && '1' <= regex[i + 1] <= '9')
}

/// A letter that stands for a character or a class of characters, behind a backslash.
pub open spec fn is_class_letter(c: char) -> bool {
    ||| c == 's' || c == 'S'
    ||| c == 'd' || c == 'D'
    ||| c == 'w' || c == 'W'
    ||| c == 'n' || c == 'r' || c == 't'
}

/// A regular expression that starts with a character, and of which no part may be left out.
pub open spec fn takes_a_character(regex: Seq<char>) -> bool {
    &&& forall|i: int| 0 <= i < regex.len() ==> !#[trigger] is_optional_mark(regex, i)
    &&& regex.len() > 0
    &&& (text::is_alphanumeric(regex[0]) || regex[0] == ' ' || regex[0] == '.' || regex[0] == '[' || (
    regex[0] == '\\' && regex.len() > 1 && is_class_letter(regex[1])))
}

/// No match is empty.
pub open spec fn matches_something(pattern: Matcher) -> bool {
    match pattern {
        Matcher::Text(text) => text.len() > 0,
        Matcher::Regex(regex) => takes_a_character(regex),
    }
}

/// Every text can be normalised.
///
/// A text that is put in at the very start, before the first character and in the place of nothing,
/// has no counterpart in the text as it was, and the next normalizer may look for one. A compiled
/// table is to be sound.
pub open spec fn normalizes_safely(part: Normalizing) -> bool
    decreases part, 0nat,
{
    match part {
        Normalizing::Bert => true,
        Normalizing::Strip => true,
        Normalizing::StripAccents => true,
        Normalizing::NormalForm => true,
        Normalizing::Lowercase => true,
        Normalizing::Nmt => true,
        Normalizing::ByteLevel => true,
        Normalizing::Precompiled(Some(written)) => compiled_table::is_sound_table(written),
        Normalizing::Precompiled(None) => false,
        Normalizing::Prepend(text) => text.len() > 0,
        Normalizing::Replace(Some(pattern), content) => matches_in_order(pattern) && (
        content.len() == 0 || matches_something(pattern)),
        Normalizing::Replace(None, _) => false,
        Normalizing::Sequence(items) => all_normalize_safely(items, items.len()),
    }
}

/// The same of the first `n` items of a sequence.
pub open spec fn all_normalize_safely(items: Seq<Normalizing>, n: nat) -> bool
    decreases items, n,
{
    n == 0 || n > items.len() || (all_normalize_safely(items, (n - 1) as nat) && normalizes_safely(
        items[n - 1],
    ))
}

proof fn lemma_normalizing_stops(items: Seq<Normalizing>, n: nat, m: nat)
    requires
        n <= m <= items.len(),
        !all_normalize_safely(items, n),
    ensures
        !all_normalize_safely(items, m),
    decreases m,
{
    if n < m {
        lemma_normalizing_stops(items, n, (m - 1) as nat);
    }
}

/// Every text can be split: pieces of length zero are none, and matches are to follow one another.
pub open spec fn splits_safely(part: Splitting) -> bool
    decreases part, 0nat,
{
    match part {
        Splitting::Bert => true,
        Splitting::ByteLevel => true,
        Splitting::Delimiter => true,
        Splitting::Metaspace => true,
        Splitting::Whitespace => true,
        Splitting::WhitespaceSplit => true,
        Splitting::Punctuation => true,
        Splitting::Digits => true,
        Splitting::UnicodeScripts => true,
        Splitting::FixedLength(length) => length != 0,
        Splitting::Split(pattern) => matches_in_order(pattern),
        Splitting::Sequence(items) => all_split_safely(items, items.len()),
    }
}

/// The same of the first `n` items of a sequence.
pub open spec fn all_split_safely(items: Seq<Splitting>, n: nat) -> bool
    decreases items, n,
{
    n == 0 || n > items.len() || (all_split_safely(items, (n - 1) as nat) && splits_safely(
        items[n - 1],
    ))
}

proof fn lemma_splitting_stops(items: Seq<Splitting>, n: nat, m: nat)
    requires
        n <= m <= items.len(),
        !all_split_safely(items, n),
    ensures
        !all_split_safely(items, m),
    decreases m,
{
    if n < m {
        lemma_splitting_stops(items, n, (m - 1) as nat);
    }
}

/// How many texts a template leaves: special tokens are not added.
pub open spec fn texts_left(pieces: Seq<TemplatePiece>) -> nat
    decreases pieces.len(),
{
    if pieces.len() == 0 {
        0
    } else {
        texts_left(pieces.drop_last()) + (if pieces.last() == TemplatePiece::Special {
            0nat
        } else {
            1nat
        })
    }
}

/// How many texts a post-processor makes of `count` texts, if it can work on them.
///
/// A template has a form for one text, in which there is no second one, and a form for two.
pub open spec fn finishes_safely(part: Finishing, count: nat) -> Option<nat>
    decreases part, 0nat,
{
    match part {
        Finishing::Roberta => Some(count),
        Finishing::Bert => Some(count),
        Finishing::ByteLevel => Some(count),
        Finishing::Template(single, pair) => match (if count == 1 {
            single
        } else if count == 2 {
            pair
        } else {
            None
        }) {
            Some(pieces) => if count == 1 && pieces.contains(TemplatePiece::Second) {
                None
            } else {
                Some(texts_left(pieces))
            },
            None => None,
        },
        Finishing::Sequence(items) => all_finish_safely(items, items.len(), count),
    }
}

/// The same of the first `n` items of a sequence.
pub open spec fn all_finish_safely(items: Seq<Finishing>, n: nat, count: nat) -> Option<nat>
    decreases items, n,
{
    if n == 0 || n > items.len() {
        Some(count)
    } else {
        match all_finish_safely(items, (n - 1) as nat, count) {
            Some(left) => finishes_safely(items[n - 1], left),
            None => None,
        }
    }
}

proof fn lemma_finish_stops(parts: Seq<Finishing>, n: nat, m: nat, count: nat)
    requires
        n <= m <= parts.len(),
        all_finish_safely(parts, n, count) is None,
    ensures
        all_finish_safely(parts, m, count) is None,
    decreases m,
{
    if n < m {
        lemma_finish_stops(parts, n, (m - 1) as nat, count);
    }
}

/// Up to `start` characters can be stripped off the start of a token and up to `stop` off its end: it
/// has another character between them, or there are enough.
pub open spec fn strips_safely(token: Seq<char>, content: char, start: usize, stop: usize) -> bool {
    ||| exists|i: int| 0 <= i < token.len() && #[trigger] token[i] != content
    ||| (if start <= token.len() {
        start as int
    } else {
        token.len() as int
    }) + stop <= token.len()
}

/// A step can work on these tokens. The last of no tokens is out of bounds.
pub open spec fn step_is_safe(step: DecodingStep, tokens: Seq<Seq<char>>) -> bool {
    match step {
        DecodingStep::Bpe => tokens.len() > 0,
        DecodingStep::ByteFallback => true,
        DecodingStep::ByteLevel => true,
        DecodingStep::Ctc => true,
        DecodingStep::Fuse => true,
        DecodingStep::Metaspace => true,
        DecodingStep::Replace(pattern) => pattern matches Some(p) && matches_in_order(p),
        DecodingStep::Strip(content, start, stop) => forall|i: int|
            0 <= i < tokens.len() ==> strips_safely(#[trigger] tokens[i], content, start, stop),
        DecodingStep::WordPiece => true,
    }
}

/// A decoder is a single step that can work on these tokens.
pub open spec fn runs_on(part: Decoding, tokens: Seq<Seq<char>>) -> bool {
    part matches Decoding::Step(step, _) && step_is_safe(step, tokens)
}

/// What a decoder makes of tokens, if it can work on them.
pub open spec fn decoded_tokens(part: Decoding, tokens: Seq<Seq<char>>) -> Option<
    Result<Seq<Seq<char>>, Seq<char>>,
>
    decreases part, 0nat,
{
    match part {
        Decoding::Step(step, outcomes) => if step_is_safe(step, tokens) {
            Some(outcomes[tokens])
        } else {
            None
        },
        Decoding::Sequence(items) => all_decoded(items, items.len(), tokens),
    }
}

/// The same of the first `n` items of a sequence, up to the first that fails.
pub open spec fn all_decoded(items: Seq<Decoding>, n: nat, tokens: Seq<Seq<char>>) -> Option<
    Result<Seq<Seq<char>>, Seq<char>>,
>
    decreases items, n,
{
    if n == 0 || n > items.len() {
        Some(Ok(tokens))
    } else {
        match all_decoded(items, (n - 1) as nat, tokens) {
            Some(Ok(made)) => decoded_tokens(items[n - 1], made),
            ended => ended,
        }
    }
}

proof fn lemma_decoding_stops(parts: Seq<Decoding>, n: nat, m: nat, tokens: Seq<Seq<char>>)
    requires
        n <= m <= parts.len(),
        !(all_decoded(parts, n, tokens) matches Some(Ok(_))),
    ensures
        all_decoded(parts, m, tokens) == all_decoded(parts, n, tokens),
    decreases m,
{
    if n < m {
        lemma_decoding_stops(parts, n, (m - 1) as nat, tokens);
    }
}

fn regex_moves_its_start(regex: &str) -> (r: bool)
    ensures
        r == moves_its_start(regex@),
{
    text::find_text(regex, "\\K").is_some()
}

fn regex_takes_a_character(regex: &str) -> (r: bool)
    ensures
        r == takes_a_character(regex@),
{
    let chars = text::chars_of(regex);
    if chars.len() == 0 {
        return false;
    }
    let mut i: usize = 0;
    while i < chars.len()
        invariant
            0 <= i <= chars@.len(),
            chars@ == regex@,
            forall|k: int| 0 <= k < i ==> !#[trigger] is_optional_mark(regex@, k),
        decreases chars@.len() - i,
    {
        let c = chars[i];
        assert(c == regex@[i as int]);
        let counts = i + 1 < chars.len() && '1' <= chars[i + 1] && chars[i + 1] <= '9';
        if c == '|' || c == '*' || c == '?' || (c == '{' && !counts) {
            assert(is_optional_mark(regex@, i as int));
            return false;
        }
        i = i + 1;
    }
    let first = chars[0];
    if text::alphanumeric(first) || first == ' ' || first == '.' || first == '[' {
        return true;
    }
    if first != '\\' || chars.len() == 1 {
        return false;
    }
    let c = chars[1];
    c == 's' || c == 'S' || c == 'd' || c == 'D' || c == 'w' || c == 'W' || c == 'n' || c == 'r' || c
        == 't'
}

fn replacement_is_safe(replace: &tokenizers::normalizers::replace::Replace, content: &str) -> (r: bool)
    ensures
        r == normalizes_safely(Normalizing::Replace(replacing(*replace), content@)),
{
    let adds = text::chars_of(content).len() > 0;
    match replaced_pattern(replace) {
        Some(Pattern::Text(text)) => !adds || text::chars_of(text.as_str()).len() > 0,
        Some(Pattern::Regex(regex)) => !regex_moves_its_start(regex.as_str()) && (!adds
            || regex_takes_a_character(regex.as_str())),
        None => false,
    }
}

/// Whether a normalizer can work on every text.
pub(crate) fn normalizer_is_safe(normalizer: &tokenizers::NormalizerWrapper) -> (r: bool)
    ensures
        r == normalizes_safely(normalizing(*normalizer)),
    decreases normalizing(*normalizer),
{
    match normalizer_part(normalizer) {
        NormalizerPart::Bert => true,
        NormalizerPart::Strip => true,
        NormalizerPart::StripAccents => true,
        NormalizerPart::NormalForm => true,
        NormalizerPart::Lowercase => true,
        NormalizerPart::Nmt => true,
        NormalizerPart::ByteLevel => true,
        NormalizerPart::Precompiled(table) => match table_text(table) {
            Some(written) => compiled_table::written_table_is_sound(written.as_str()),
            None => false,
        },
        NormalizerPart::Prepend(text) => text::chars_of(text).len() > 0,
        NormalizerPart::Replace(replace, content) => replacement_is_safe(replace, content),
        NormalizerPart::Sequence(items) => {
            let ghost parts = normalizing(*normalizer)->Sequence_0;
            let mut i: usize = 0;
            while i < items.len()
                invariant
                    0 <= i <= items@.len(),
                    normalizing(*normalizer) == Normalizing::Sequence(parts),
                    parts == items@.map_values(
                        |item: tokenizers::NormalizerWrapper| normalizing(item),
                    ),
                    all_normalize_safely(parts, i as nat),
                decreases items@.len() - i,
            {
                let item = &items[i];
                assert(parts[i as int] == normalizing(*item));
                assert(decreases_to!(normalizing(*normalizer) => normalizing(*normalizer)->Sequence_0));
                assert(decreases_to!(parts => parts[i as int]));
                if !normalizer_is_safe(item) {
                    proof {
                        lemma_normalizing_stops(parts, (i + 1) as nat, parts.len());
                    }
                    return false;
                }
                i = i + 1;
            }
            true
        },
    }
}

/// Whether a pre-tokenizer can work on every text.
pub(crate) fn pre_tokenizer_is_safe(pre_tokenizer: &tokenizers::PreTokenizerWrapper) -> (r: bool)
    ensures
        r == splits_safely(splitting(*pre_tokenizer)),
    decreases splitting(*pre_tokenizer),
{
    match pre_tokenizer_part(pre_tokenizer) {
        PreTokenizerPart::Bert => true,
        PreTokenizerPart::ByteLevel => true,
        PreTokenizerPart::Delimiter => true,
        PreTokenizerPart::Metaspace => true,
        PreTokenizerPart::Whitespace => true,
        PreTokenizerPart::WhitespaceSplit => true,
        PreTokenizerPart::Punctuation => true,
        PreTokenizerPart::Digits => true,
        PreTokenizerPart::UnicodeScripts => true,
        PreTokenizerPart::FixedLength(length) => length != 0,
        PreTokenizerPart::SplitText(_) => true,
        PreTokenizerPart::SplitRegex(regex) => !regex_moves_its_start(regex),
        PreTokenizerPart::Sequence(items) => {
            let ghost parts = splitting(*pre_tokenizer)->Sequence_0;
            let mut i: usize = 0;
            while i < items.len()
                invariant
                    0 <= i <= items@.len(),
                    splitting(*pre_tokenizer) == Splitting::Sequence(parts),
                    parts == items@.map_values(
                        |item: tokenizers::PreTokenizerWrapper| splitting(item),
                    ),
                    all_split_safely(parts, i as nat),
                decreases items@.len() - i,
            {
                let item = &items[i];
                assert(parts[i as int] == splitting(*item));
                assert(decreases_to!(splitting(*pre_tokenizer) => splitting(*pre_tokenizer)->Sequence_0));
                assert(decreases_to!(parts => parts[i as int]));
                if !pre_tokenizer_is_safe(item) {
                    proof {
                        lemma_splitting_stops(parts, (i + 1) as nat, parts.len());
                    }
                    return false;
                }
                i = i + 1;
            }
            true
        },
    }
}

/// How many texts a template leaves of `count`, if it can work on them.
fn template_outcome(pieces: &Vec<TemplatePiece>, count: usize) -> (r: Option<usize>)
    ensures
        r is None <==> count == 1 && pieces@.contains(TemplatePiece::Second),
        r matches Some(left) ==> left == texts_left(pieces@),
{
    let mut left: usize = 0;
    let mut i: usize = 0;
    while i < pieces.len()
        invariant
            0 <= i <= pieces@.len(),
            left <= i,
            left == texts_left(pieces@.take(i as int)),
            forall|k: int|
                0 <= k < i ==> count != 1 || #[trigger] pieces@[k] != TemplatePiece::Second,
        decreases pieces@.len() - i,
    {
        let piece = pieces[i];
        proof {
            assert(pieces@.take(i + 1).drop_last() =~= pieces@.take(i as int));
            assert(pieces@.take(i + 1).last() == piece);
        }
        if count == 1 && piece == TemplatePiece::Second {
            assert(pieces@[i as int] == TemplatePiece::Second);
            return None;
        }
        if piece != TemplatePiece::Special {
            left = left + 1;
        }
        i = i + 1;
    }
    assert(pieces@.take(i as int) =~= pieces@);
    Some(left)
}

/// How many texts a post-processor makes of `count` texts, if it can work on them.
pub(crate) fn post_processor_outcome(
    post_processor: &tokenizers::PostProcessorWrapper,
    count: usize,
) -> (r: Option<usize>)
    ensures
        r is Some == finishes_safely(finishing(*post_processor), count as nat) is Some,
        r matches Some(left) ==> finishes_safely(finishing(*post_processor), count as nat) == Some(
            left as nat,
        ),
    decreases finishing(*post_processor),
{
    match post_processor_part(post_processor) {
        PostProcessorPart::Roberta => Some(count),
        PostProcessorPart::Bert => Some(count),
        PostProcessorPart::ByteLevel => Some(count),
        PostProcessorPart::Template(single, pair) => {
            if count == 1 {
                match template_pieces(single) {
                    Some(pieces) => template_outcome(&pieces, count),
                    None => None,
                }
            } else if count == 2 {
                match template_pieces(pair) {
                    Some(pieces) => template_outcome(&pieces, count),
                    None => None,
                }
            } else {
                None
            }
        },
        PostProcessorPart::Sequence(items) => {
            let ghost parts = finishing(*post_processor)->Sequence_0;
            let mut left = count;
            let mut i: usize = 0;
            while i < items.len()
                invariant
                    0 <= i <= items@.len(),
                    finishing(*post_processor) == Finishing::Sequence(parts),
                    parts == items@.map_values(
                        |item: tokenizers::PostProcessorWrapper| finishing(item),
                    ),
                    all_finish_safely(parts, i as nat, count as nat) == Some(left as nat),
                decreases items@.len() - i,
            {
                assert(parts[i as int] == finishing(items@[i as int]));
                assert(decreases_to!(finishing(*post_processor) => finishing(*post_processor)->Sequence_0));
                assert(decreases_to!(parts => parts[i as int]));
                match post_processor_outcome(&items[i], left) {
                    Some(next) => {
                        left = next;
                    },
                    None => {
                        proof {
                            lemma_finish_stops(parts, (i + 1) as nat, parts.len(), count as nat);
                        }
                        return None;
                    },
                }
                i = i + 1;
            }
            Some(left)
        },
    }
}

fn token_strips_safely(token: &str, content: char, start: usize, stop: usize) -> (r: bool)
    ensures
        r == strips_safely(token@, content, start, stop),
{
    let chars = text::chars_of(token);
    let mut i: usize = 0;
    while i < chars.len()
        invariant
            0 <= i <= chars@.len(),
            chars@ == token@,
            forall|k: int| 0 <= k < i ==> #[trigger] token@[k] == content,
        decreases chars@.len() - i,
    {
        if chars[i] != content {
            assert(token@[i as int] != content);
            return true;
        }
        i = i + 1;
    }
    let length = chars.len();
    let from = if start <= length {
        start
    } else {
        length
    };
    stop <= length && from <= length - stop
}

fn all_strip_safely(tokens: &Vec<String>, content: char, start: usize, stop: usize) -> (r: bool)
    ensures
        r == step_is_safe(DecodingStep::Strip(content, start, stop), text::views(tokens@)),
{
    let ghost texts = text::views(tokens@);
    let mut i: usize = 0;
    while i < tokens.len()
        invariant
            0 <= i <= tokens@.len(),
            texts == text::views(tokens@),
            forall|k: int|
                0 <= k < i ==> strips_safely(#[trigger] texts[k], content, start, stop),
        decreases tokens@.len() - i,
    {
        assert(texts[i as int] == tokens@[i as int]@);
        if !token_strips_safely(tokens[i].as_str(), content, start, stop) {
            return false;
        }
        i = i + 1;
    }
    true
}

fn decoder_replacement_is_safe(replace: &tokenizers::normalizers::replace::Replace) -> (r: bool)
    ensures
        forall|tokens: Seq<Seq<char>>|
            r == #[trigger] step_is_safe(DecodingStep::Replace(replacing(*replace)), tokens),
{
    match replaced_pattern(replace) {
        Some(Pattern::Text(_)) => true,
        Some(Pattern::Regex(regex)) => !regex_moves_its_start(regex.as_str()),
        None => false,
    }
}

/// What a decoder makes of tokens, if it can work on them.
pub(crate) fn decoder_outcome(decoder: &tokenizers::DecoderWrapper, tokens: Vec<String>) -> (r: Option<
    Result<Vec<String>, String>,
>)
    ensures
        decoded_tokens(decoding(*decoder), text::views(tokens@)) == (match r {
            Some(Ok(made)) => Some(Ok::<Seq<Seq<char>>, Seq<char>>(text::views(made@))),
            Some(Err(message)) => Some(Err(message@)),
            None => None,
        }),
    decreases decoding(*decoder),
{
    let safe = match decoder_part(decoder) {
        DecoderPart::Bpe => tokens.len() > 0,
        DecoderPart::ByteFallback => true,
        DecoderPart::ByteLevel => true,
        DecoderPart::Ctc => true,
        DecoderPart::Fuse => true,
        DecoderPart::Metaspace => true,
        DecoderPart::Replace(replace) => decoder_replacement_is_safe(replace),
        DecoderPart::Strip(content, start, stop) => all_strip_safely(&tokens, content, start, stop),
        DecoderPart::WordPiece => true,
        DecoderPart::Sequence(items) => {
            let ghost parts = decoding(*decoder)->Sequence_0;
            let ghost given = text::views(tokens@);
            let mut made = tokens;
            let mut i: usize = 0;
            while i < items.len()
                invariant
                    0 <= i <= items@.len(),
                    given == text::views(tokens@),
                    decoding(*decoder) == Decoding::Sequence(parts),
                    parts == items@.map_values(|item: tokenizers::DecoderWrapper| decoding(item)),
                    all_decoded(parts, i as nat, given) == Some(
                        Ok::<Seq<Seq<char>>, Seq<char>>(text::views(made@)),
                    ),
                decreases items@.len() - i,
            {
                assert(parts[i as int] == decoding(items@[i as int]));
                assert(decreases_to!(decoding(*decoder) => decoding(*decoder)->Sequence_0));
                assert(decreases_to!(parts => parts[i as int]));
                match decoder_outcome(&items[i], made) {
                    Some(Ok(next)) => {
                        made = next;
                    },
                    ended => {
                        proof {
                            lemma_decoding_stops(parts, (i + 1) as nat, parts.len(), given);
                        }
                        return ended;
                    },
                }
                i = i + 1;
            }
            return Some(Ok(made));
        },
    };
    if safe {
        Some(decode_step(decoder, tokens))
    } else {
        None
    }
}

/// A sequence of normalizers is safe where each of them is.
pub proof fn sequence_normalizes_where_its_parts_do(items: Seq<Normalizing>, n: nat)
    requires
        n <= items.len(),
    ensures
        all_normalize_safely(items, n) <==> forall|i: int|
            0 <= i < n ==> normalizes_safely(#[trigger] items[i]),
        n == items.len() ==> normalizes_safely(Normalizing::Sequence(items)) == all_normalize_safely(
            items,
            n,
        ),
    decreases n,
{
    if n > 0 {
        sequence_normalizes_where_its_parts_do(items, (n - 1) as nat);
        assert(items[n - 1] == items[n - 1]);
    }
}

/// A sequence of splitters is safe where each of them is.
pub proof fn sequence_splits_where_its_parts_do(items: Seq<Splitting>, n: nat)
    requires
        n <= items.len(),
    ensures
        all_split_safely(items, n) <==> forall|i: int|
            0 <= i < n ==> splits_safely(#[trigger] items[i]),
        n == items.len() ==> splits_safely(Splitting::Sequence(items)) == all_split_safely(items, n),
    decreases n,
{
    if n > 0 {
        sequence_splits_where_its_parts_do(items, (n - 1) as nat);
        assert(items[n - 1] == items[n - 1]);
    }
}

/// What is stripped off the start of a token and off its end does not meet: `front` characters and
/// `back` characters, each as many as there are to strip and as may be, leave a token between them.
pub proof fn stripped_ends_do_not_meet(
    token: Seq<char>,
    content: char,
    start: usize,
    stop: usize,
    front: nat,
    back: nat,
)
    requires
        strips_safely(token, content, start, stop),
        front <= start && front <= token.len(),
        forall|i: int| 0 <= i < front ==> #[trigger] token[i] == content,
        back <= stop && back <= token.len(),
        forall|i: int| token.len() - back <= i < token.len() ==> #[trigger] token[i] == content,
    ensures
        front + back <= token.len(),
{
}

/// Templates leave the texts that they name, and no special tokens.
pub proof fn templates_leave_the_texts(a: Seq<TemplatePiece>, b: Seq<TemplatePiece>)
    ensures
        texts_left(a + b) == texts_left(a) + texts_left(b),
        b.len() == 1 && b[0] == TemplatePiece::Special ==> texts_left(b) == 0,
        b.len() == 1 && b[0] != TemplatePiece::Special ==> texts_left(b) == 1,
    decreases b.len(),
{
    if b.len() == 0 {
        assert(a + b =~= a);
    } else {
        templates_leave_the_texts(a, b.drop_last());
        assert((a + b).drop_last() =~= a + b.drop_last());
        if b.len() == 1 {
            assert(b.drop_last() =~= Seq::empty());
        }
    }
}

}
