//! Texts to tokens.
use crate::text::same_text;
use vstd::prelude::*;
use vstd::utf8::is_ascii_chars;

verus! {

/// The longest length to which a plain tokenizer pads.
pub const MOST_PADDING: usize = 65536;

/// One token of a text: its number, whether the model attends to it, and the part of the
/// text it belongs to.
#[derive(Clone, Copy, Debug, PartialEq, Eq, Structural)]
pub struct Token {
    pub id: u32,
    pub mask: u32,
    pub type_id: u32,
}

/// The tokenizer of the `tokenizers` crate.
#[verifier::external_type_specification]
#[verifier::external_body]
pub struct ExTokenizer(tokenizers::Tokenizer);

/// Whether turning these texts into tokens, special tokens included, can come to `outcome`: the
/// tokens of each text, or the text of an error, or none where the tokenizer panics on these
/// texts or never ends. A tokenizer whose model has dropout picks at random, so there may be
/// several.
pub uninterp spec fn can_encode(
    tokenizer: tokenizers::Tokenizer,
    texts: Seq<Seq<char>>,
    outcome: Option<Result<Seq<Seq<Token>>, Seq<char>>>,
) -> bool;

/// The characters of several texts.
pub open spec fn texts_of(texts: Seq<String>) -> Seq<Seq<char>> {
    texts.map_values(|text: String| text@)
}

/// The characters of several texts.
pub open spec fn shown(texts: Seq<&str>) -> Seq<Seq<char>> {
    texts.map_values(|text: &str| text@)
}

/// An outcome of turning texts into tokens, as plain sequences.
pub open spec fn tokens_of(outcome: Result<Vec<Vec<Token>>, String>) -> Result<Seq<Seq<Token>>, Seq<char>> {
    match outcome {
        Ok(batch) => Ok(batch@.map_values(|tokens: Vec<Token>| tokens@)),
        Err(m) => Err(m@),
    }
}

/// The name in an option, as a plain sequence.
pub open spec fn name_of(name: Option<String>) -> Option<Seq<char>> {
    match name {
        Some(text) => Some(text@),
        None => None,
    }
}

/// How a tokenizer cuts long texts, if it does: how many tokens are left at most, and by how
/// many the pieces overlap.
pub uninterp spec fn truncation(tokenizer: tokenizers::Tokenizer) -> Option<(usize, usize)>;

/// `tokenizers::TokenizerImpl::get_truncation`: the maximum length and the stride, or none where
/// nothing is cut.
#[verifier::external_body]
fn truncation_of(tokenizer: &tokenizers::Tokenizer) -> (r: Option<(usize, usize)>)
    ensures
        r == truncation(*tokenizer),
{
    tokenizer.get_truncation().map(|t| (t.max_length, t.stride))
}

/// How a tokenizer pads short texts, if it does: to which length, or to that of the longest
/// text where none is given, and to a multiple of which number, if any.
pub uninterp spec fn padding(tokenizer: tokenizers::Tokenizer) -> Option<(Option<usize>, Option<usize>)>;

/// `tokenizers::TokenizerImpl::get_padding`: the fixed length, or none where the strategy is the
/// longest of the batch, and `pad_to_multiple_of`; or none where nothing is padded.
#[verifier::external_body]
fn padding_of(tokenizer: &tokenizers::Tokenizer) -> (r: Option<(Option<usize>, Option<usize>)>)
    ensures
        r == padding(*tokenizer),
{
    tokenizer.get_padding().map(|p| match p.strategy {
        tokenizers::PaddingStrategy::Fixed(size) => (Some(size), p.pad_to_multiple_of),
        tokenizers::PaddingStrategy::BatchLongest => (None, p.pad_to_multiple_of),
    })
}

/// The type of a tokenizer's normalizer, by its name in the serialized form, if it has one.
pub uninterp spec fn normalizer(tokenizer: tokenizers::Tokenizer) -> Option<Seq<char>>;

/// `tokenizers::TokenizerImpl::get_normalizer`: the `type` in the serialized form of the
/// normalizer, which is the name of its type, or none where there is no normalizer.
#[verifier::external_body]
fn normalizer_of(tokenizer: &tokenizers::Tokenizer) -> (r: Option<String>)
    ensures
        name_of(r) == normalizer(*tokenizer),
{
    tokenizer.get_normalizer().map(|n| {
        let value = serde_json::to_value(n).unwrap_or_default();
        value["type"].as_str().unwrap_or_default().to_string()
    })
}

/// The type of a tokenizer's pre-tokenizer, by its name in the serialized form, if it has one.
pub uninterp spec fn pre_tokenizer(tokenizer: tokenizers::Tokenizer) -> Option<Seq<char>>;

/// `tokenizers::TokenizerImpl::get_pre_tokenizer`: the `type` in the serialized form of the
/// pre-tokenizer, which is the name of its type, or none where there is no pre-tokenizer.
#[verifier::external_body]
fn pre_tokenizer_of(tokenizer: &tokenizers::Tokenizer) -> (r: Option<String>)
    ensures
        name_of(r) == pre_tokenizer(*tokenizer),
{
    tokenizer.get_pre_tokenizer().map(|p| {
        let value = serde_json::to_value(p).unwrap_or_default();
        value["type"].as_str().unwrap_or_default().to_string()
    })
}

/// For each token that was added to the vocabulary of a tokenizer, whether it takes along the
/// white space before it, and whether it takes along that after it.
pub uninterp spec fn added_tokens(tokenizer: tokenizers::Tokenizer) -> Set<(bool, bool)>;

/// `tokenizers::TokenizerImpl::get_added_tokens_decoder`: the flags `lstrip` and `rstrip` of the
/// added tokens, in no order.
#[verifier::external_body]
fn added_tokens_of(tokenizer: &tokenizers::Tokenizer) -> (r: Vec<(bool, bool)>)
    ensures
        r@.to_set() == added_tokens(*tokenizer),
{
    tokenizer.get_added_tokens_decoder().into_values().map(|token| (token.lstrip, token.rstrip)).collect()
}

/// The post-processor of a tokenizer.
#[verifier::external_type_specification]
#[verifier::external_body]
pub struct ExPostProcessor(tokenizers::processors::PostProcessorWrapper);

/// The post-processor of a tokenizer, if it has one.
pub uninterp spec fn post_processor(tokenizer: tokenizers::Tokenizer) -> Option<
    tokenizers::processors::PostProcessorWrapper,
>;

/// `tokenizers::TokenizerImpl::get_post_processor`: the post-processor, if there is one.
#[verifier::external_body]
fn post_processor_of(tokenizer: &tokenizers::Tokenizer) -> (r: Option<&tokenizers::processors::PostProcessorWrapper>)
    ensures
        match r {
            Some(p) => post_processor(*tokenizer) == Some(*p),
            None => post_processor(*tokenizer) is None,
        },
{
    tokenizer.get_post_processor()
}

/// How many special tokens a post-processor adds to a single text.
pub uninterp spec fn added_count(processor: tokenizers::processors::PostProcessorWrapper) -> usize;

/// `tokenizers::PostProcessor::added_tokens` of a `PostProcessorWrapper`, for a single text.
#[verifier::external_body]
fn added_count_of(processor: &tokenizers::processors::PostProcessorWrapper) -> (r: usize)
    ensures
        r == added_count(*processor),
{
    tokenizers::PostProcessor::added_tokens(processor, false)
}

/// What a post-processor puts around a text.
#[verifier::external_type_specification]
#[verifier::external_body]
pub struct ExTemplate(tokenizers::processors::template::Template);

/// A place in a template.
pub enum Slot {
    /// The text.
    First,
    /// A second text beside it.
    Second,
    /// The special token of this name.
    Special(String),
}

/// A place in a template, as a plain value.
pub enum SlotKind {
    First,
    Second,
    Special(Seq<char>),
}

impl View for Slot {
    type V = SlotKind;

    open spec fn view(&self) -> SlotKind {
        match self {
            Slot::First => SlotKind::First,
            Slot::Second => SlotKind::Second,
            Slot::Special(name) => SlotKind::Special(name@),
        }
    }
}

/// Places as plain values.
pub open spec fn slots(list: Seq<Slot>) -> Seq<SlotKind> {
    list.map_values(|slot: Slot| slot@)
}

/// The places of a template.
pub uninterp spec fn places(template: tokenizers::processors::template::Template) -> Seq<SlotKind>;

/// The serialized form of a `tokenizers::processors::template::Template`, which is its list of
/// pieces, read back as that list: each piece as a place.
#[verifier::external_body]
fn places_of(template: &tokenizers::processors::template::Template) -> (r: Vec<Slot>)
    ensures
        slots(r@) == places(*template),
{
    let value = serde_json::to_value(template).unwrap();
    let pieces: Vec<tokenizers::processors::template::Piece> = serde_json::from_value(value).unwrap();
    pieces.into_iter().map(|piece| match piece {
        tokenizers::processors::template::Piece::SpecialToken { id, .. } => Slot::Special(id),
        tokenizers::processors::template::Piece::Sequence { id, .. } => match id {
            tokenizers::processors::template::Sequence::A => Slot::First,
            tokenizers::processors::template::Sequence::B => Slot::Second,
        },
    }).collect()
}

/// What a post-processor does with a single text.
pub enum Layout {
    Roberta,
    Bert,
    ByteLevel,
    /// It lays the text out by a template. `known` names the special tokens it has.
    Template { single: tokenizers::processors::template::Template, known: Vec<String> },
    Sequence,
}

/// What a post-processor does with a single text, as a plain value.
pub enum LayoutKind {
    Roberta,
    Bert,
    ByteLevel,
    Template { single: tokenizers::processors::template::Template, known: Set<Seq<char>> },
    Sequence,
}

impl View for Layout {
    type V = LayoutKind;

    open spec fn view(&self) -> LayoutKind {
        match self {
            Layout::Roberta => LayoutKind::Roberta,
            Layout::Bert => LayoutKind::Bert,
            Layout::ByteLevel => LayoutKind::ByteLevel,
            Layout::Template { single, known } => LayoutKind::Template {
                single: *single,
                known: texts_of(known@).to_set(),
            },
            Layout::Sequence => LayoutKind::Sequence,
        }
    }
}

/// What a post-processor does with a single text.
pub uninterp spec fn layout(processor: tokenizers::processors::PostProcessorWrapper) -> LayoutKind;

/// The variants of `tokenizers::processors::PostProcessorWrapper`, one for one; of a template,
/// the one for a single text and the names of its special tokens.
#[verifier::external_body]
fn layout_of(processor: &tokenizers::processors::PostProcessorWrapper) -> (r: Layout)
    ensures
        r@ == layout(*processor),
{
    match processor {
        tokenizers::processors::PostProcessorWrapper::Roberta(_) => Layout::Roberta,
        tokenizers::processors::PostProcessorWrapper::Bert(_) => Layout::Bert,
        tokenizers::processors::PostProcessorWrapper::ByteLevel(_) => Layout::ByteLevel,
        tokenizers::processors::PostProcessorWrapper::Template(t) => {
            let known: Vec<String> = t.get_special_tokens().0.keys().cloned().collect();
            Layout::Template { single: t.single.clone(), known }
        },
        tokenizers::processors::PostProcessorWrapper::Sequence(_) => Layout::Sequence,
    }
}

/// Cutting, if there is any, leaves room for the added tokens, and behind them either nothing or
/// more tokens than overlap.
pub open spec fn cuts_soundly(truncation: Option<(usize, usize)>, added: usize) -> bool {
    match truncation {
        Some((longest, overlap)) => added <= longest && (longest == added || overlap < longest - added),
        None => true,
    }
}

/// Padding, if there is any, is to a moderate length.
pub open spec fn pads_soundly(padding: Option<(Option<usize>, Option<usize>)>) -> bool {
    match padding {
        Some((length, multiple)) => multiple is None && (length matches Some(n) ==> n <= MOST_PADDING),
        None => true,
    }
}

/// Each place of a template for a single text can be filled.
pub open spec fn fillable(places: Seq<SlotKind>, known: Set<Seq<char>>) -> bool {
    forall|i: int|
        0 <= i < places.len() ==> match #[trigger] places[i] {
            SlotKind::First => true,
            SlotKind::Second => false,
            SlotKind::Special(name) => known.contains(name),
        }
}

/// The text is laid out as by a BERT model, or by a template that can be filled.
pub open spec fn lays_out_soundly(layout: LayoutKind) -> bool {
    match layout {
        LayoutKind::Bert => true,
        LayoutKind::Template { single, known } => fillable(places(single), known),
        _ => false,
    }
}

/// There is no normalizer, or that of a BERT model, or one that turns letters into small ones.
pub open spec fn normalizes_soundly(normalizer: Option<Seq<char>>) -> bool {
    match normalizer {
        Some(name) => name == "BertNormalizer"@ || name == "Lowercase"@,
        None => true,
    }
}

/// There is no pre-tokenizer, or that of a BERT model, or one that parts texts at white space.
pub open spec fn splits_soundly(pre_tokenizer: Option<Seq<char>>) -> bool {
    match pre_tokenizer {
        Some(name) => name == "BertPreTokenizer"@ || name == "Whitespace"@ || name == "WhitespaceSplit"@,
        None => true,
    }
}

/// No text has other characters than those of ASCII.
pub open spec fn all_ascii(texts: Seq<Seq<char>>) -> bool {
    forall|i: int| 0 <= i < texts.len() ==> is_ascii_chars(#[trigger] texts[i])
}

/// No added token takes white space along.
pub open spec fn strips_nothing(tokens: Set<(bool, bool)>) -> bool {
    forall|flags: (bool, bool)| #[trigger] tokens.contains(flags) ==> flags == (false, false)
}

/// The tokenizer is so plain that it deals with these texts: it cuts and pads within bounds, has
/// a common normalizer, pre-tokenizer and layout, and no token was added to its vocabulary; or
/// none that takes white space along, and the texts are in ASCII. An added token that is
/// normalized to nothing is found between any two bytes, and in ASCII these part characters.
pub open spec fn is_plain(tokenizer: tokenizers::Tokenizer, texts: Seq<Seq<char>>) -> bool {
    &&& match post_processor(tokenizer) {
        Some(p) => cuts_soundly(truncation(tokenizer), added_count(p)) && lays_out_soundly(layout(p)),
        None => cuts_soundly(truncation(tokenizer), 0),
    }
    &&& pads_soundly(padding(tokenizer))
    &&& normalizes_soundly(normalizer(tokenizer))
    &&& splits_soundly(pre_tokenizer(tokenizer))
    &&& strips_nothing(added_tokens(tokenizer))
    &&& added_tokens(tokenizer) == Set::<(bool, bool)>::empty() || all_ascii(texts)
}

/// Turning these texts into tokens comes to an end: there are none, or the tokenizer is plain,
/// or it neither panics on them nor runs for ever.
pub open spec fn is_encodable(tokenizer: tokenizers::Tokenizer, texts: Seq<Seq<char>>) -> bool {
    texts.len() == 0 || is_plain(tokenizer, texts) || !can_encode(tokenizer, texts, None)
}

fn knows(known: &Vec<String>, name: &String) -> (r: bool)
    ensures
        r == texts_of(known@).to_set().contains(name@),
{
    let mut i: usize = 0;
    while i < known.len()
        invariant
            i <= known@.len(),
            forall|k: int| 0 <= k < i ==> texts_of(known@)[k] != name@,
        decreases known@.len() - i,
    {
        if same_text(known[i].as_str(), name.as_str()) {
            assert(texts_of(known@)[i as int] == name@);
            return true;
        }
        i = i + 1;
    }
    false
}

fn is_fillable(places: &Vec<Slot>, known: &Vec<String>) -> (r: bool)
    ensures
        r == fillable(slots(places@), texts_of(known@).to_set()),
{
    let mut i: usize = 0;
    while i < places.len()
        invariant
            i <= places@.len(),
            fillable(slots(places@).take(i as int), texts_of(known@).to_set()),
        decreases places@.len() - i,
    {
        let fits: bool = match &places[i] {
            Slot::First => true,
            Slot::Second => false,
            Slot::Special(name) => knows(known, name),
        };
        let ghost now = slots(places@)[i as int];
        assert(now == places@[i as int]@);
        if !fits {
            return false;
        }
        assert forall|k: int| 0 <= k < i + 1 implies match #[trigger] slots(places@).take(i + 1)[k] {
            SlotKind::First => true,
            SlotKind::Second => false,
            SlotKind::Special(name) => texts_of(known@).to_set().contains(name),
        } by {
            if k < i {
                assert(slots(places@).take(i + 1)[k] == slots(places@).take(i as int)[k]);
            }
        }
        i = i + 1;
    }
    assert(slots(places@).take(i as int) =~= slots(places@));
    true
}

fn is_laid_out(processor: &tokenizers::processors::PostProcessorWrapper) -> (r: bool)
    ensures
        r == lays_out_soundly(layout(*processor)),
{
    match layout_of(processor) {
        Layout::Roberta => false,
        Layout::Bert => true,
        Layout::ByteLevel => false,
        Layout::Template { single, known } => is_fillable(&places_of(&single), &known),
        Layout::Sequence => false,
    }
}

fn is_cut(truncation: Option<(usize, usize)>, added: usize) -> (r: bool)
    ensures
        r == cuts_soundly(truncation, added),
{
    match truncation {
        Some((longest, overlap)) => added <= longest && (longest == added || overlap < longest - added),
        None => true,
    }
}

fn keeps_space(tokens: &Vec<(bool, bool)>) -> (r: bool)
    ensures
        r == strips_nothing(tokens@.to_set()),
{
    let mut i: usize = 0;
    while i < tokens.len()
        invariant
            i <= tokens@.len(),
            forall|k: int| 0 <= k < i ==> #[trigger] tokens@[k] == (false, false),
        decreases tokens@.len() - i,
    {
        let (before, after): (bool, bool) = tokens[i];
        if before || after {
            assert(tokens@.to_set().contains(tokens@[i as int]));
            return false;
        }
        i = i + 1;
    }
    true
}

fn are_ascii(texts: &[&str]) -> (r: bool)
    ensures
        r == all_ascii(shown(texts@)),
{
    let mut i: usize = 0;
    while i < texts.len()
        invariant
            i <= texts@.len(),
            forall|k: int| 0 <= k < i ==> is_ascii_chars(#[trigger] shown(texts@)[k]),
        decreases texts@.len() - i,
    {
        assert(shown(texts@)[i as int] == texts@[i as int]@);
        if !texts[i].is_ascii() {
            return false;
        }
        i = i + 1;
    }
    true
}

/// Whether the tokenizer is so plain that it deals with these texts.
pub fn is_plain_for(tokenizer: &tokenizers::Tokenizer, texts: &[&str]) -> (r: bool)
    ensures
        r == is_plain(*tokenizer, shown(texts@)),
{
    let processed: bool = match post_processor_of(tokenizer) {
        Some(p) => is_cut(truncation_of(tokenizer), added_count_of(p)) && is_laid_out(p),
        None => is_cut(truncation_of(tokenizer), 0),
    };
    let padded: bool = match padding_of(tokenizer) {
        Some((length, multiple)) => multiple.is_none() && match length {
            Some(n) => n <= MOST_PADDING,
            None => true,
        },
        None => true,
    };
    let normalized: bool = match normalizer_of(tokenizer) {
        Some(name) => same_text(name.as_str(), "BertNormalizer") || same_text(name.as_str(), "Lowercase"),
        None => true,
    };
    let split: bool = match pre_tokenizer_of(tokenizer) {
        Some(name) => same_text(name.as_str(), "BertPreTokenizer") || same_text(name.as_str(), "Whitespace")
            || same_text(name.as_str(), "WhitespaceSplit"),
        None => true,
    };
    let tokens: Vec<(bool, bool)> = added_tokens_of(tokenizer);
    proof {
        if tokens@.len() == 0 {
            assert(tokens@.to_set() =~= Set::empty());
        } else {
            assert(tokens@.to_set().contains(tokens@[0]));
        }
    }
    processed && padded && normalized && split && keeps_space(&tokens) && (tokens.len() == 0 || are_ascii(texts))
}

/// `tokenizers::TokenizerImpl::encode_batch` with special tokens, on a `Tokenizer`: one of the
/// outcomes that the call can come to. Where it succeeds there is a list of tokens for each
/// text. Which tokens they are is left open: it rests on the tokenizer's model, and one with
/// dropout picks at random.
///
/// There are tokenizers and texts on which the call panics or never ends, such as one that has
/// to cut a text to pieces that overlap by their whole length. They are left out: there is no
/// text, or the tokenizer is plain, or the call comes to an end. Memory is taken to suffice for
/// the tokens.
#[verifier::external_body]
pub(crate) fn encode_batch(tokenizer: &tokenizers::Tokenizer, texts: Vec<String>) -> (r: Result<Vec<Vec<Token>>, String>)
    requires
        is_encodable(*tokenizer, texts_of(texts@)),
    ensures
        can_encode(*tokenizer, texts_of(texts@), Some(tokens_of(r))),
        r is Ok ==> r->Ok_0@.len() == texts@.len(),
{
    let encodings = tokenizer.encode_batch(texts, true).map_err(|e| e.to_string())?;
    Ok(encodings.iter().map(|e| {
        let pairs = e.get_ids().iter().zip(e.get_attention_mask());
        pairs.zip(e.get_type_ids()).map(|((id, mask), type_id)| Token { id: *id, mask: *mask, type_id: *type_id }).collect()
    }).collect())
}

/// What makes a tokenizer plain for texts, put down setting by setting: it cuts to a length that
/// leaves room for the added tokens and is moved on by every piece, pads to no more than 65536
/// tokens, fills every place of its template, has a normalizer and a pre-tokenizer that are
/// known, and no added token that takes white space along; and where there are added tokens, the
/// texts are in ASCII.
pub proof fn law_plain(tokenizer: tokenizers::Tokenizer, texts: Seq<Seq<char>>)
    ensures
        is_plain(tokenizer, texts) ==> {
            &&& (post_processor(tokenizer) is None && truncation(tokenizer) is Some) ==> {
                let (longest, overlap) = truncation(tokenizer)->Some_0;
                longest == 0 || overlap < longest
            }
            &&& (post_processor(tokenizer) is Some && truncation(tokenizer) is Some) ==> {
                let (longest, overlap) = truncation(tokenizer)->Some_0;
                let added = added_count(post_processor(tokenizer)->Some_0);
                longest == added || overlap + added < longest
            }
            &&& post_processor(tokenizer) matches Some(p) ==> {
                ||| layout(p) is Bert
                ||| layout(p) is Template
            }
            &&& post_processor(tokenizer) matches Some(p) ==> (layout(p) matches LayoutKind::Template { single, known }
                ==> forall|i: int|
                0 <= i < places(single).len() ==> !((#[trigger] places(single)[i]) is Second) && (places(
                    single,
                )[i] matches SlotKind::Special(name) ==> known.contains(name)))
            &&& padding(tokenizer) matches Some(given) ==> given.1 is None && (given.0 is None || given.0->Some_0
                <= 65536)
            &&& normalizer(tokenizer) matches Some(name) ==> name == "BertNormalizer"@ || name == "Lowercase"@
            &&& pre_tokenizer(tokenizer) matches Some(name) ==> name == "BertPreTokenizer"@ || name == "Whitespace"@
                || name == "WhitespaceSplit"@
            &&& !added_tokens(tokenizer).contains((true, true)) && !added_tokens(tokenizer).contains((true, false))
                && !added_tokens(tokenizer).contains((false, true))
            &&& added_tokens(tokenizer).contains((false, false)) ==> forall|i: int|
                0 <= i < texts.len() ==> is_ascii_chars(#[trigger] texts[i])
        },
{
}

} // verus!
