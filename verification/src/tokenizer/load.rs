//! Building a tokenizer from the contents of vocabulary files.

use crate::error::FlipError;
use crate::tokenizer::bpe::text_pairs;
use crate::tokenizer::codec::{bpe_model, named_ids, named_scores, unigram_model, BpeTokenizer};
use crate::tokenizer::model::TokenizerModel;
use crate::tokenizer::pieces::{first_two_words, parse_merges, rules_of, split_pair};
use crate::tokenizer::unigram::ScoreScale;
use std::collections::BTreeMap;
use vstd::prelude::*;

verus! {

/// What a JSON text that is an object of strings and 32-bit numbers holds: the keys in the order
/// of their bytes, each with its number. `None` for any other text.
pub uninterp spec fn json_vocab(json: Seq<u8>) -> Option<Seq<(Seq<char>, u32)>>;

/// Calls `serde_json::from_slice` for a sorted map of strings to 32-bit numbers. The contract
/// names what it gives, which depends on the bytes alone; what a text must look like to be
/// accepted, and what the error says, is left unsaid.
#[verifier::external_body]
pub(crate) fn parse_vocab(json: &[u8]) -> (r: Result<Vec<(String, u32)>, serde_json::Error>)
    ensures
        json_vocab(json@) == (match r {
            Ok(list) => Some(named_ids(list@)),
            Err(_) => None,
        }),
{
    let table: BTreeMap<String, u32> = serde_json::from_slice(json)?;
    Ok(table.into_iter().collect())
}

/// A special or ordinary token listed beside the vocabulary of a `tokenizer.json`.
pub struct HfAddedToken {
    pub id: u32,
    pub content: String,
    pub special: bool,
}

/// A merge rule of a `tokenizer.json`: two words in one string, or the two strings.
pub enum HfMerge {
    Str(String),
    Pair(String, String),
}

/// The vocabulary of a `tokenizer.json`, which is read one way or the other once the kind of the
/// model is known.
pub struct HfVocab<S> {
    /// Whether it is a JSON array.
    pub is_array: bool,
    /// Its JSON text.
    pub json: Vec<u8>,
    /// What reading it as a list of scored pieces gives.
    pub scored: Result<Vec<(String, S)>, serde_json::Error>,
}

/// The model of a `tokenizer.json`.
pub struct HfModel<S> {
    /// "BPE" or "Unigram"; absent in older files.
    pub model_type: Option<String>,
    pub vocab: HfVocab<S>,
    pub merges: Vec<HfMerge>,
    pub unk_id: Option<u32>,
    pub byte_fallback: bool,
}

/// The parts of a `tokenizer.json` that a tokenizer is built from.
pub struct HfTokenizer<S> {
    pub added_tokens: Vec<HfAddedToken>,
    pub model: HfModel<S>,
}

impl<S> HfModel<S> {
    /// Whether the model is a Unigram model: it says so, or its vocabulary is an array.
    pub open spec fn is_unigram(self) -> bool {
        ||| self.model_type matches Some(t) && t@ == "Unigram"@
        ||| self.vocab.is_array
    }
}

/// The special tokens of a list of added tokens.
pub open spec fn special_list(added: Seq<HfAddedToken>) -> Seq<(Seq<char>, u32)>
    decreases added.len(),
{
    if added.len() == 0 {
        seq![]
    } else if added.last().special {
        special_list(added.drop_last()).push((added.last().content@, added.last().id))
    } else {
        special_list(added.drop_last())
    }
}

/// The two symbols of a merge rule; none for a string with fewer than two words.
pub open spec fn merge_rule(merge: HfMerge) -> Option<(Seq<char>, Seq<char>)> {
    match merge {
        HfMerge::Pair(a, b) => Some((a@, b@)),
        HfMerge::Str(s) => first_two_words(s@),
    }
}

/// The merge rules of a list, in order.
pub open spec fn merge_list(merges: Seq<HfMerge>) -> Seq<(Seq<char>, Seq<char>)>
    decreases merges.len(),
{
    if merges.len() == 0 {
        seq![]
    } else {
        match merge_rule(merges.last()) {
            Some(rule) => merge_list(merges.drop_last()).push(rule),
            None => merge_list(merges.drop_last()),
        }
    }
}

/// Whether `r` is a tokenizer with the tables `want`, or, where there are none, a failure to
/// read JSON in `context`.
pub open spec fn gives_tokenizer<S>(
    r: Result<BpeTokenizer<S>, FlipError>,
    want: Option<TokenizerModel<S>>,
    context: Seq<char>,
) -> bool {
    match want {
        Some(model) => r matches Ok(t) && t@ == model,
        None => r matches Err(FlipError::Json { context: c, .. }) && c@ == context,
    }
}

/// The tables of a byte-level tokenizer whose vocabulary is read from JSON.
pub open spec fn read_bpe<S>(
    vocab: Option<Seq<(Seq<char>, u32)>>,
    rules: Seq<(Seq<char>, Seq<char>)>,
    specials: Seq<(Seq<char>, u32)>,
) -> Option<TokenizerModel<S>> {
    match vocab {
        Some(list) => Some(bpe_model::<S>(list, rules).with_specials(specials)),
        None => None,
    }
}

fn specials_of(added: &Vec<HfAddedToken>) -> (r: Vec<(String, u32)>)
    ensures
        named_ids(r@) == special_list(added@),
{
    let mut out: Vec<(String, u32)> = Vec::new();
    let mut i: usize = 0;
    assert(added@.take(0) == Seq::<HfAddedToken>::empty());
    while i < added.len()
        invariant
            i <= added@.len(),
            named_ids(out@) == special_list(added@.take(i as int)),
        decreases added@.len() - i,
    {
        assert(added@.take(i + 1).drop_last() == added@.take(i as int));
        let ghost before = named_ids(out@);
        if added[i].special {
            let content = added[i].content.clone();
            let ghost entry = (content@, added@[i as int].id);
            out.push((content, added[i].id));
            assert(named_ids(out@) == before.push(entry));
        }
        i += 1;
    }
    assert(added@.take(added@.len() as int) == added@);
    out
}

fn merges_of(merges: Vec<HfMerge>) -> (r: Vec<(String, String)>)
    ensures
        text_pairs(r@) == merge_list(merges@),
{
    let mut out: Vec<(String, String)> = Vec::new();
    let mut i: usize = 0;
    assert(merges@.take(0) == Seq::<HfMerge>::empty());
    while i < merges.len()
        invariant
            i <= merges@.len(),
            text_pairs(out@) == merge_list(merges@.take(i as int)),
        decreases merges@.len() - i,
    {
        assert(merges@.take(i + 1).drop_last() == merges@.take(i as int));
        let ghost before = text_pairs(out@);
        let rule = match &merges[i] {
            HfMerge::Pair(a, b) => Some((a.clone(), b.clone())),
            HfMerge::Str(s) => split_pair(s.as_str()),
        };
        match rule {
            Some((a, b)) => {
                let ghost entry = (a@, b@);
                out.push((a, b));
                assert(text_pairs(out@) == before.push(entry));
            },
            None => {},
        }
        i += 1;
    }
    assert(merges@.take(merges@.len() as int) == merges@);
    out
}

impl<S> BpeTokenizer<S> {
    /// Builds a byte-level tokenizer from a vocabulary that was read from JSON in `context`,
    /// merge rules and special tokens.
    pub fn from_parsed_vocab(
        parsed: Result<Vec<(String, u32)>, serde_json::Error>,
        context: &str,
        merges_list: Vec<(String, String)>,
        specials: Vec<(String, u32)>,
    ) -> (r: Result<Self, FlipError>)
        ensures
            match parsed {
                Ok(list) => r matches Ok(t) && t@ == bpe_model::<S>(
                    named_ids(list@),
                    text_pairs(merges_list@),
                ).with_specials(named_ids(specials@)),
                Err(e) => r matches Err(FlipError::Json { context: c, source }) && c@ == context@
                    && source == e,
            },
    {
        match parsed {
            Ok(list) => Ok(BpeTokenizer::new(list, merges_list).with_special(specials)),
            Err(source) => Err(FlipError::Json { context: context.to_string(), source }),
        }
    }

    /// Builds a byte-level tokenizer from the contents of a `vocab.json` and a `merges.txt`.
    pub fn from_files(vocab_json: &[u8], merges_text: &str) -> (r: Result<Self, FlipError>)
        ensures
            gives_tokenizer(
                r,
                read_bpe::<S>(json_vocab(vocab_json@), rules_of(merges_text@), seq![]),
                "vocab.json"@,
            ),
    {
        let none: Vec<(String, u32)> = Vec::new();
        assert(named_ids(none@) == Seq::<(Seq<char>, u32)>::empty());
        BpeTokenizer::from_parsed_vocab(
            parse_vocab(vocab_json),
            "vocab.json",
            parse_merges(merges_text),
            none,
        )
    }
}

impl<S: Copy> BpeTokenizer<S> {
    /// Builds a tokenizer from a `tokenizer.json` that was read: a Unigram tokenizer where it
    /// holds a Unigram model, else a byte-level one, with the added tokens that are marked
    /// special.
    pub fn from_hf_json(
        parsed: Result<HfTokenizer<S>, serde_json::Error>,
        scale: ScoreScale<S>,
    ) -> (r: Result<Self, FlipError>)
        ensures
            match parsed {
                Err(e) => r matches Err(FlipError::Json { context, source }) && context@
                    == "tokenizer.json"@ && source == e,
                Ok(hf) => if hf.model.is_unigram() {
                    match hf.model.vocab.scored {
                        Ok(pieces) => r matches Ok(t) && t@ == unigram_model(
                            named_scores(pieces@),
                            hf.model.byte_fallback,
                            hf.model.unk_id,
                            scale,
                        ).with_specials(special_list(hf.added_tokens@)),
                        Err(e) => r matches Err(FlipError::Json { context, source }) && context@
                            == "tokenizer.json Unigram vocab"@ && source == e,
                    }
                } else {
                    gives_tokenizer(
                        r,
                        read_bpe::<S>(
                            json_vocab(hf.model.vocab.json@),
                            merge_list(hf.model.merges@),
                            special_list(hf.added_tokens@),
                        ),
                        "tokenizer.json BPE vocab"@,
                    )
                },
            },
    {
        let hf = match parsed {
            Ok(hf) => hf,
            Err(source) => {
                return Err(FlipError::Json { context: "tokenizer.json".to_string(), source });
            },
        };
        let specials = specials_of(&hf.added_tokens);
        let named_unigram = match &hf.model.model_type {
            Some(t) => crate::text::same_text(t.as_str(), "Unigram"),
            None => false,
        };
        if named_unigram || hf.model.vocab.is_array {
            match hf.model.vocab.scored {
                Ok(pieces) => Ok(
                    BpeTokenizer::from_unigram(
                        pieces,
                        hf.model.byte_fallback,
                        hf.model.unk_id,
                        scale,
                    ).with_special(specials),
                ),
                Err(source) => Err(
                    FlipError::Json {
                        context: "tokenizer.json Unigram vocab".to_string(),
                        source,
                    },
                ),
            }
        } else {
            BpeTokenizer::from_parsed_vocab(
                parse_vocab(hf.model.vocab.json.as_slice()),
                "tokenizer.json BPE vocab",
                merges_of(hf.model.merges),
                specials,
            )
        }
    }
}

} // verus!
