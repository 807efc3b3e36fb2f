//! The tokenizer: its tables, encoding and decoding.

use crate::error::FlipError;
use crate::text::{
    chars_of, concat3, debug_char, debug_text, decimal_text, string_of, text_of_bytes,
};
use crate::tokenizer::bpe::{merge_symbols, merged, ranked, text_pairs, texts, MergeTable};
use crate::tokenizer::byte_map::{
    byte_char, byte_to_unicode, char_byte, char_byte_inverts_byte_char, inverts_byte_char,
    is_byte_char, lookup_is_char_byte,
};
use crate::tokenizer::model::{
    byte_symbols, flushed, flushed_bytes, run_bytes, spaced, symbol_ids, unknown_id, PieceState,
    TokenizerModel,
};
use crate::tokenizer::pieces::{chunks, parse_byte_piece, pretokenize};
use crate::tokenizer::special::{
    seg_is, segs_are, split, split_ends, Seg, Segment, SpecialTokens,
};
use crate::tokenizer::unigram::{
    score_ops, ScoreScale, UnigramModel, UnigramState, SPM_SPACE,
};
use std::collections::HashMap;
use std::ops::Add;
use vstd::hash_map::StringHashMap;
use vstd::prelude::*;
use vstd::utf8::encode_utf8;

verus! {

/// The texts of a table of strings.
pub open spec fn table_texts(table: Map<u32, String>) -> Map<u32, Seq<char>> {
    Map::new(|id: u32| table.contains_key(id), |id: u32| table[id]@)
}

/// The texts of a list of strings with ids.
pub open spec fn named_ids(list: Seq<(String, u32)>) -> Seq<(Seq<char>, u32)> {
    Seq::new(list.len(), |i: int| (list[i].0@, list[i].1))
}

/// The texts of a list of strings with scores.
pub open spec fn named_scores<S>(list: Seq<(String, S)>) -> Seq<(Seq<char>, S)> {
    Seq::new(list.len(), |i: int| (list[i].0@, list[i].1))
}

/// `base` with every entry of `list` put in, in order.
pub open spec fn with_entries<V>(base: Map<Seq<char>, V>, list: Seq<(Seq<char>, V)>) -> Map<
    Seq<char>,
    V,
>
    decreases list.len(),
{
    if list.len() == 0 {
        base
    } else {
        with_entries(base, list.drop_last()).insert(list.last().0, list.last().1)
    }
}

/// `base` with the text of every entry of `list` put in under its id, in order.
pub open spec fn with_names(base: Map<u32, Seq<char>>, list: Seq<(Seq<char>, u32)>) -> Map<
    u32,
    Seq<char>,
>
    decreases list.len(),
{
    if list.len() == 0 {
        base
    } else {
        with_names(base, list.drop_last()).insert(list.last().1, list.last().0)
    }
}

/// The token of each id of a vocabulary given as a list: the last one listed, of those whose id
/// was not replaced by a later entry.
pub open spec fn tokens_of(vocab: Map<Seq<char>, u32>, list: Seq<(Seq<char>, u32)>) -> Map<
    u32,
    Seq<char>,
>
    decreases list.len(),
{
    if list.len() == 0 {
        Map::empty()
    } else if vocab[list.last().0] == list.last().1 {
        tokens_of(vocab, list.drop_last()).insert(list.last().1, list.last().0)
    } else {
        tokens_of(vocab, list.drop_last())
    }
}

/// The pieces of a list, each with its index as its id.
pub open spec fn numbered<S>(list: Seq<(Seq<char>, S)>) -> Seq<(Seq<char>, u32)> {
    Seq::new(list.len(), |i: int| (list[i].0, i as u32))
}

/// The longest text of a list, and one where they are shorter.
pub open spec fn longest_piece<S>(list: Seq<(Seq<char>, S)>) -> nat
    decreases list.len(),
{
    if list.len() == 0 {
        1
    } else if list.last().0.len() > longest_piece(list.drop_last()) {
        list.last().0.len()
    } else {
        longest_piece(list.drop_last())
    }
}

/// The tables of a byte-level tokenizer with a vocabulary and an ordered list of merge rules.
pub open spec fn bpe_model<S>(
    vocab: Seq<(Seq<char>, u32)>,
    rules: Seq<(Seq<char>, Seq<char>)>,
) -> TokenizerModel<S> {
    let ids = with_entries(Map::empty(), vocab);
    TokenizerModel {
        vocab: ids,
        tokens: tokens_of(ids, vocab),
        rules: ranked(rules),
        specials: Map::empty(),
        special_tokens: Map::empty(),
        unigram: None,
    }
}

/// The tables of the tokenizer whose tokens are the bytes.
pub open spec fn bytes_model<S>() -> TokenizerModel<S> {
    TokenizerModel {
        vocab: Map::new(
            |s: Seq<char>| s.len() == 1 && is_byte_char(s[0]),
            |s: Seq<char>| char_byte(s[0]) as u32,
        ),
        tokens: Map::new(|id: u32| id < 256, |id: u32| seq![byte_char(id as u8)]),
        rules: Map::empty(),
        specials: Map::empty(),
        special_tokens: Map::empty(),
        unigram: None,
    }
}

/// The tables of a Unigram tokenizer with scored pieces.
pub open spec fn unigram_model<S>(
    pieces: Seq<(Seq<char>, S)>,
    byte_fallback: bool,
    unk_id: Option<u32>,
    scale: ScoreScale<S>,
) -> TokenizerModel<S> {
    let ids = with_entries(Map::empty(), numbered(pieces));
    TokenizerModel {
        vocab: ids,
        tokens: with_names(Map::empty(), numbered(pieces)),
        rules: Map::empty(),
        specials: Map::empty(),
        special_tokens: Map::empty(),
        unigram: Some(
            UnigramModel {
                ids,
                scores: with_entries(Map::empty(), pieces),
                max_piece_len: longest_piece(pieces),
                byte_fallback,
                unk_id,
                scale,
            },
        ),
    }
}

impl<S> TokenizerModel<S> {
    /// The tables with more special tokens.
    pub open spec fn with_specials(self, list: Seq<(Seq<char>, u32)>) -> TokenizerModel<S> {
        TokenizerModel {
            specials: with_entries(self.specials, list),
            special_tokens: with_names(self.special_tokens, list),
            ..self
        }
    }
}

/// Whether `r` is the outcome `want`, a failure being a tokenizer error with that message.
pub open spec fn gives_ids(
    r: Result<Vec<u32>, FlipError>,
    want: Result<Seq<u32>, Seq<char>>,
) -> bool {
    match want {
        Ok(ids) => r matches Ok(v) && v@ == ids,
        Err(message) => r matches Err(e) && e.is_tokenizer(message),
    }
}

/// Whether `r` is the outcome `want`, a failure being a tokenizer error with that message.
pub open spec fn gives_text(
    r: Result<String, FlipError>,
    want: Result<Seq<char>, Seq<char>>,
) -> bool {
    match want {
        Ok(text) => r matches Ok(s) && s@ == text,
        Err(message) => r matches Err(e) && e.is_tokenizer(message),
    }
}

/// A byte-level BPE tokenizer, or a Unigram tokenizer with scores of type `S`.
#[verifier::reject_recursive_types(S)]
pub struct BpeTokenizer<S> {
    encoder: StringHashMap<u32>,
    decoder: HashMap<u32, String>,
    merges: MergeTable,
    byte_encoder: [char; 256],
    byte_decoder: HashMap<u32, u8>,
    special_encoder: SpecialTokens,
    special_decoder: HashMap<u32, String>,
    unigram: Option<UnigramState<S>>,
}

impl<S> View for BpeTokenizer<S> {
    type V = TokenizerModel<S>;

    closed spec fn view(&self) -> TokenizerModel<S> {
        TokenizerModel {
            vocab: self.encoder@,
            tokens: table_texts(self.decoder@),
            rules: self.merges@,
            specials: self.special_encoder@,
            special_tokens: table_texts(self.special_decoder@),
            unigram: match self.unigram {
                Some(u) => Some(u.model(self.encoder@)),
                None => None,
            },
        }
    }
}

/// A message made of three parts.
fn message(a: &str, b: &str, c: &str) -> (r: FlipError)
    ensures
        r.is_tokenizer(a@ + b@ + c@),
{
    FlipError::Tokenizer(concat3(a, b, c))
}

impl<S> BpeTokenizer<S> {
    #[verifier::type_invariant]
    spec fn wf(self) -> bool {
        &&& forall|b: u8| #[trigger] self.byte_encoder@[b as int] == byte_char(b)
        &&& inverts_byte_char(self.byte_decoder@)
    }

    /// Builds a byte-level tokenizer from a vocabulary and an ordered merge list, the rank of
    /// each rule its index. Where a string is listed more than once the last id counts.
    pub fn new(vocab: Vec<(String, u32)>, merges_list: Vec<(String, String)>) -> (r: Self)
        ensures
            r@ == bpe_model::<S>(named_ids(vocab@), text_pairs(merges_list@)),
    {
        let ghost list = named_ids(vocab@);
        let mut encoder: StringHashMap<u32> = StringHashMap::new();
        let mut i: usize = 0;
        assert(list.take(0) == Seq::<(Seq<char>, u32)>::empty());
        while i < vocab.len()
            invariant
                i <= vocab@.len(),
                list == named_ids(vocab@),
                encoder@ == with_entries(Map::<Seq<char>, u32>::empty(), list.take(i as int)),
            decreases vocab@.len() - i,
        {
            encoder.insert(vocab[i].0.clone(), vocab[i].1);
            i += 1;
            assert(list.take(i as int).drop_last() == list.take(i - 1));
        }
        assert(list.take(vocab@.len() as int) == list);
        let mut decoder: HashMap<u32, String> = HashMap::new();
        let mut i: usize = 0;
        assert(table_texts(decoder@) =~= Map::<u32, Seq<char>>::empty());
        while i < vocab.len()
            invariant
                i <= vocab@.len(),
                list == named_ids(vocab@),
                encoder@ == with_entries(Map::<Seq<char>, u32>::empty(), list),
                table_texts(decoder@) == tokens_of(encoder@, list.take(i as int)),
            decreases vocab@.len() - i,
        {
            let id = vocab[i].1;
            let ghost before = decoder@;
            proof {
                lemma_entries_hold(Map::<Seq<char>, u32>::empty(), list, i as int);
            }
            let current = match encoder.get(vocab[i].0.as_str()) {
                Some(held) => *held == id,
                None => false,
            };
            if current {
                decoder.insert(id, vocab[i].0.clone());
                assert(table_texts(decoder@) =~= table_texts(before).insert(id, list[i as int].0));
            }
            i += 1;
            assert(list.take(i as int).drop_last() == list.take(i - 1));
        }
        assert(list.take(vocab@.len() as int) == list);
        let (byte_encoder, byte_decoder) = byte_to_unicode();
        let r = BpeTokenizer {
            encoder,
            decoder,
            merges: MergeTable::of_list(merges_list),
            byte_encoder,
            byte_decoder,
            special_encoder: SpecialTokens::new(),
            special_decoder: HashMap::new(),
            unigram: None,
        };
        assert(r@.special_tokens =~= Map::<u32, Seq<char>>::empty());
        r
    }

    /// Registers special tokens, matched as whole units before anything else and decoded back
    /// verbatim.
    pub fn with_special(self, specials: Vec<(String, u32)>) -> (r: Self)
        ensures
            r@ == self@.with_specials(named_ids(specials@)),
    {
        proof {
            use_type_invariant(&self);
        }
        let ghost before = self;
        let ghost list = named_ids(specials@);
        let BpeTokenizer {
            encoder,
            decoder,
            merges,
            byte_encoder,
            byte_decoder,
            special_encoder,
            special_decoder,
            unigram,
        } = self;
        let mut special_encoder = special_encoder;
        let mut special_decoder = special_decoder;
        let mut i: usize = 0;
        assert(list.take(0) == Seq::<(Seq<char>, u32)>::empty());
        while i < specials.len()
            invariant
                i <= specials@.len(),
                list == named_ids(specials@),
                special_encoder@ == with_entries(before@.specials, list.take(i as int)),
                table_texts(special_decoder@) == with_names(
                    before@.special_tokens,
                    list.take(i as int),
                ),
            decreases specials@.len() - i,
        {
            let id = specials[i].1;
            let ghost held = special_decoder@;
            special_decoder.insert(id, specials[i].0.clone());
            assert(table_texts(special_decoder@) =~= table_texts(held).insert(
                id,
                list[i as int].0,
            ));
            special_encoder = special_encoder.insert(specials[i].0.as_str(), id);
            i += 1;
            assert(list.take(i as int).drop_last() == list.take(i - 1));
        }
        assert(list.take(specials@.len() as int) == list);
        BpeTokenizer {
            encoder,
            decoder,
            merges,
            byte_encoder,
            byte_decoder,
            special_encoder,
            special_decoder,
            unigram,
        }
    }

    /// A trivial byte tokenizer: 256 tokens, one for each byte, and no merges.
    pub fn bytes_only() -> (r: Self)
        ensures
            r@ == bytes_model::<S>(),
    {
        let (byte_encoder, byte_decoder) = byte_to_unicode();
        let mut encoder: StringHashMap<u32> = StringHashMap::new();
        let mut decoder: HashMap<u32, String> = HashMap::new();
        let mut i: usize = 0;
        while i < 256
            invariant
                i <= 256,
                forall|b: u8| #[trigger] byte_encoder@[b as int] == byte_char(b),
                forall|s: Seq<char>| #[trigger]
                    encoder@.contains_key(s) <==> s.len() == 1 && is_byte_char(s[0]) && char_byte(
                        s[0],
                    ) < i,
                forall|s: Seq<char>| #[trigger]
                    encoder@.contains_key(s) ==> encoder@[s] == char_byte(s[0]) as u32,
                forall|id: u32| #[trigger] decoder@.contains_key(id) <==> id < i,
                forall|id: u32| #[trigger]
                    decoder@.contains_key(id) ==> decoder@[id]@ == seq![byte_char(id as u8)],
            decreases 256 - i,
        {
            let b = i as u8;
            let ghost before = encoder@;
            let ghost held = decoder@;
            let mut s = String::new();
            assert(byte_encoder@[b as int] == byte_char(b));
            s.push(byte_encoder[i]);
            let ghost key = s@;
            assert(key == seq![byte_char(b)]);
            proof {
                char_byte_inverts_byte_char(b);
            }
            encoder.insert(s.clone(), i as u32);
            decoder.insert(i as u32, s);
            i += 1;
            proof {
                assert forall|t: Seq<char>| #[trigger] encoder@.contains_key(t) <==> (t.len() == 1
                    && is_byte_char(t[0]) && char_byte(t[0]) < i) by {
                    if t.len() == 1 && is_byte_char(t[0]) && char_byte(t[0]) == b {
                        assert(byte_char(char_byte(t[0])) == t[0]);
                        assert(t =~= key);
                    }
                    if t == key {
                        assert(t[0] == byte_char(b));
                    } else {
                        assert(encoder@.contains_key(t) == before.contains_key(t));
                    }
                }
                assert forall|id: u32| #[trigger] decoder@.contains_key(id) implies decoder@[id]@
                    == seq![byte_char(id as u8)] by {
                    if id != b as u32 {
                        assert(held.contains_key(id));
                    }
                }
            }
        }
        let r = BpeTokenizer {
            encoder,
            decoder,
            merges: MergeTable::new(),
            byte_encoder,
            byte_decoder,
            special_encoder: SpecialTokens::new(),
            special_decoder: HashMap::new(),
            unigram: None,
        };
        assert(r@.vocab =~= bytes_model::<S>().vocab);
        assert(r@.tokens =~= bytes_model::<S>().tokens);
        assert(r@.special_tokens =~= Map::<u32, Seq<char>>::empty());
        r
    }

    /// Whether `literal` is registered as a special token.
    pub fn has_special(&self, literal: &str) -> (r: bool)
        ensures
            r == self@.specials.contains_key(literal@),
    {
        self.special_encoder.contains(literal)
    }

    /// The number of tokens in the vocabulary.
    pub fn vocab_size(&self) -> (r: usize)
        ensures
            r == self@.vocab.len(),
    {
        self.encoder.len()
    }
}

proof fn lemma_entries_hold<V>(base: Map<Seq<char>, V>, list: Seq<(Seq<char>, V)>, i: int)
    requires
        0 <= i < list.len(),
    ensures
        with_entries(base, list).contains_key(list[i].0),
    decreases list.len(),
{
    if i < list.len() - 1 {
        lemma_entries_hold(base, list.drop_last(), i);
        assert(list.drop_last()[i] == list[i]);
    }
}

impl<S: Copy> BpeTokenizer<S> {
    /// Builds a Unigram tokenizer from scored pieces; the id of each is its index.
    /// `byte_fallback` spells characters without a piece by `<0xNN>` pieces; `unk_id` is the
    /// last resort.
    pub fn from_unigram(
        pieces: Vec<(String, S)>,
        byte_fallback: bool,
        unk_id: Option<u32>,
        scale: ScoreScale<S>,
    ) -> (r: Self)
        ensures
            r@ == unigram_model(named_scores(pieces@), byte_fallback, unk_id, scale),
    {
        let ghost list = named_scores(pieces@);
        let mut encoder: StringHashMap<u32> = StringHashMap::new();
        let mut decoder: HashMap<u32, String> = HashMap::new();
        let mut scores: StringHashMap<S> = StringHashMap::new();
        let mut max_piece_len: usize = 1;
        let mut i: usize = 0;
        assert(list.take(0) == Seq::<(Seq<char>, S)>::empty());
        assert(numbered(list).take(0) == Seq::<(Seq<char>, u32)>::empty());
        assert(table_texts(decoder@) =~= Map::<u32, Seq<char>>::empty());
        while i < pieces.len()
            invariant
                i <= pieces@.len(),
                list == named_scores(pieces@),
                encoder@ == with_entries(
                    Map::<Seq<char>, u32>::empty(),
                    numbered(list).take(i as int),
                ),
                table_texts(decoder@) == with_names(
                    Map::<u32, Seq<char>>::empty(),
                    numbered(list).take(i as int),
                ),
                scores@ == with_entries(Map::<Seq<char>, S>::empty(), list.take(i as int)),
                max_piece_len == longest_piece(list.take(i as int)),
            decreases pieces@.len() - i,
        {
            let id = i as u32;
            let piece = pieces[i].0.clone();
            let ghost text = piece@;
            let ghost held = decoder@;
            encoder.insert(piece.clone(), id);
            decoder.insert(id, piece.clone());
            assert(table_texts(decoder@) =~= table_texts(held).insert(id, text));
            let len = piece.as_str().unicode_len();
            if len > max_piece_len {
                max_piece_len = len;
            }
            scores.insert(piece, pieces[i].1);
            i += 1;
            assert(list.take(i as int).drop_last() == list.take(i - 1));
            assert(numbered(list).take(i as int).drop_last() == numbered(list).take(i - 1));
            assert(numbered(list).take(i as int).last() == (text, id));
        }
        assert(list.take(pieces@.len() as int) == list);
        assert(numbered(list).take(pieces@.len() as int) == numbered(list));
        let (byte_encoder, byte_decoder) = byte_to_unicode();
        let r = BpeTokenizer {
            encoder,
            decoder,
            merges: MergeTable::new(),
            byte_encoder,
            byte_decoder,
            special_encoder: SpecialTokens::new(),
            special_decoder: HashMap::new(),
            unigram: Some(
                UnigramState { scores, max_piece_len, byte_fallback, unk_id, scale },
            ),
        };
        assert(r@.special_tokens =~= Map::<u32, Seq<char>>::empty());
        r
    }
}

/// Whether `r` and the ids appended to `before` are the outcome `want`.
spec fn appends(
    r: Result<(), FlipError>,
    before: Seq<u32>,
    after: Seq<u32>,
    want: Result<Seq<u32>, Seq<char>>,
) -> bool {
    match want {
        Ok(ids) => r is Ok && after == before + ids,
        Err(message) => r matches Err(e) && e.is_tokenizer(message),
    }
}

proof fn lemma_symbol_failure_stays(vocab: Map<Seq<char>, u32>, symbols: Seq<Seq<char>>, i: int)
    requires
        0 <= i <= symbols.len(),
        symbol_ids(vocab, symbols.take(i)) is Err,
    ensures
        symbol_ids(vocab, symbols) == symbol_ids(vocab, symbols.take(i)),
    decreases symbols.len(),
{
    if i == symbols.len() {
        assert(symbols.take(i) == symbols);
    } else {
        assert(symbols.drop_last().take(i) == symbols.take(i));
        lemma_symbol_failure_stays(vocab, symbols.drop_last(), i);
    }
}

impl<S> TokenizerModel<S> {
    proof fn lemma_chunk_failure_stays(self, parts: Seq<Seq<char>>, i: int)
        requires
            0 <= i <= parts.len(),
            self.chunks_ids(parts.take(i)) is Err,
        ensures
            self.chunks_ids(parts) == self.chunks_ids(parts.take(i)),
        decreases parts.len(),
    {
        if i == parts.len() {
            assert(parts.take(i) == parts);
        } else {
            assert(parts.drop_last().take(i) == parts.take(i));
            self.lemma_chunk_failure_stays(parts.drop_last(), i);
        }
    }

    proof fn lemma_byte_failure_stays(self, ids: Seq<u32>, i: int)
        requires
            0 <= i <= ids.len(),
            self.byte_state(ids.take(i)) is Err,
        ensures
            self.byte_state(ids) is Err,
            self.byte_state(ids)->Err_0 == self.byte_state(ids.take(i))->Err_0,
        decreases ids.len(),
    {
        if i == ids.len() {
            assert(ids.take(i) == ids);
        } else {
            assert(ids.drop_last().take(i) == ids.take(i));
            self.lemma_byte_failure_stays(ids.drop_last(), i);
        }
    }

    proof fn lemma_piece_failure_stays(self, ids: Seq<u32>, i: int)
        requires
            0 <= i <= ids.len(),
            self.piece_state(ids.take(i)) is Err,
        ensures
            self.piece_state(ids) is Err,
            self.piece_state(ids)->Err_0 == self.piece_state(ids.take(i))->Err_0,
        decreases ids.len(),
    {
        if i == ids.len() {
            assert(ids.take(i) == ids);
        } else {
            assert(ids.drop_last().take(i) == ids.take(i));
            self.lemma_piece_failure_stays(ids.drop_last(), i);
        }
    }
}

impl<S: Add<Output = S> + PartialOrd> TokenizerModel<S> {
    proof fn lemma_segment_failure_stays(self, segments: Seq<Segment>, i: int)
        requires
            0 <= i <= segments.len(),
            self.segments_ids(segments.take(i)) is Err,
        ensures
            self.segments_ids(segments) == self.segments_ids(segments.take(i)),
        decreases segments.len(),
    {
        if i == segments.len() {
            assert(segments.take(i) == segments);
        } else {
            assert(segments.drop_last().take(i) == segments.take(i));
            self.lemma_segment_failure_stays(segments.drop_last(), i);
        }
    }
}

proof fn lemma_run_failure_stays(chars: Seq<char>, i: int)
    requires
        0 <= i <= chars.len(),
        run_bytes(chars.take(i)) is Err,
    ensures
        run_bytes(chars) is Err,
        run_bytes(chars)->Err_0 == run_bytes(chars.take(i))->Err_0,
    decreases chars.len(),
{
    if i == chars.len() {
        assert(chars.take(i) == chars);
    } else {
        assert(chars.drop_last().take(i) == chars.take(i));
        lemma_run_failure_stays(chars.drop_last(), i);
    }
}

impl<S> BpeTokenizer<S> {
    /// Applies the merge rules to the bytes of one chunk, giving its token strings.
    fn bpe(&self, chunk_bytes: &[u8]) -> (r: Vec<String>)
        ensures
            texts(r@) == merged(self@.rules, byte_symbols(chunk_bytes@)),
    {
        proof {
            use_type_invariant(self);
        }
        let mut symbols: Vec<String> = Vec::new();
        let mut i: usize = 0;
        while i < chunk_bytes.len()
            invariant
                i <= chunk_bytes@.len(),
                self.wf(),
                texts(symbols@) == byte_symbols(chunk_bytes@).take(i as int),
            decreases chunk_bytes@.len() - i,
        {
            let b = chunk_bytes[i];
            let mut s = String::new();
            assert(self.byte_encoder@[b as int] == byte_char(b));
            s.push(self.byte_encoder[b as usize]);
            let ghost before = texts(symbols@);
            let ghost one = s@;
            assert(one == seq![byte_char(b)]);
            symbols.push(s);
            assert(texts(symbols@) == before.push(one));
            i += 1;
            assert(byte_symbols(chunk_bytes@).take(i as int) == byte_symbols(chunk_bytes@).take(
                i - 1,
            ).push(one));
        }
        assert(byte_symbols(chunk_bytes@).take(chunk_bytes@.len() as int) == byte_symbols(
            chunk_bytes@,
        ));
        merge_symbols(&self.merges, symbols)
    }

    /// Appends the ids of one chunk.
    fn encode_chunk(&self, chunk: &str, ids: &mut Vec<u32>) -> (r: Result<(), FlipError>)
        ensures
            appends(r, old(ids)@, final(ids)@, self@.chunk_ids(chunk@)),
    {
        let symbols = self.bpe(chunk.as_bytes());
        let ghost list = texts(symbols@);
        let ghost start = ids@;
        let mut i: usize = 0;
        assert(start + Seq::<u32>::empty() == start);
        assert(list.take(0) == Seq::<Seq<char>>::empty());
        while i < symbols.len()
            invariant
                i <= symbols@.len(),
                list == texts(symbols@),
                list == merged(self@.rules, byte_symbols(encode_utf8(chunk@))),
                symbol_ids(self@.vocab, list.take(i as int)) is Ok,
                ids@ == start + symbol_ids(self@.vocab, list.take(i as int))->Ok_0,
            decreases symbols@.len() - i,
        {
            let symbol = &symbols[i];
            let ghost done = symbol_ids(self@.vocab, list.take(i as int))->Ok_0;
            assert(list.take(i + 1).drop_last() == list.take(i as int));
            assert(list.take(i + 1).last() == symbol@);
            match self.encoder.get(symbol.as_str()) {
                Some(id) => {
                    ids.push(*id);
                    assert((start + done).push(*id) == start + (done + seq![*id]));
                },
                None => {
                    proof {
                        lemma_symbol_failure_stays(self@.vocab, list, i + 1);
                    }
                    let quoted = debug_text(symbol.as_str());
                    return Err(message("token ", quoted.as_str(), " not in vocabulary"));
                },
            }
            i += 1;
        }
        assert(list.take(symbols@.len() as int) == list);
        Ok(())
    }

    /// Appends the ids of a text without special tokens, in byte-level mode.
    fn encode_chunks(&self, text: &str, ids: &mut Vec<u32>) -> (r: Result<(), FlipError>)
        ensures
            appends(r, old(ids)@, final(ids)@, self@.chunks_ids(chunks(text@))),
    {
        let parts = pretokenize(text);
        let ghost list = texts(parts@);
        let ghost start = ids@;
        let mut i: usize = 0;
        assert(start + Seq::<u32>::empty() == start);
        assert(list.take(0) == Seq::<Seq<char>>::empty());
        while i < parts.len()
            invariant
                i <= parts@.len(),
                list == texts(parts@),
                list == chunks(text@),
                self@.chunks_ids(list.take(i as int)) is Ok,
                ids@ == start + self@.chunks_ids(list.take(i as int))->Ok_0,
            decreases parts@.len() - i,
        {
            let ghost done = self@.chunks_ids(list.take(i as int))->Ok_0;
            assert(list.take(i + 1).drop_last() == list.take(i as int));
            assert(list.take(i + 1).last() == parts@[i as int]@);
            match self.encode_chunk(parts[i].as_str(), ids) {
                Ok(()) => {
                    let ghost more = self@.chunk_ids(parts@[i as int]@)->Ok_0;
                    assert((start + done) + more == start + (done + more));
                },
                Err(e) => {
                    proof {
                        self@.lemma_chunk_failure_stays(list, i + 1);
                    }
                    return Err(e);
                },
            }
            i += 1;
        }
        assert(list.take(parts@.len() as int) == list);
        Ok(())
    }

    /// Appends the text of a run of byte characters to `out`, and empties the run.
    fn flush_byte_run(&self, run: &mut String, out: &mut String) -> (r: Result<(), FlipError>)
        ensures
            match flushed(old(out)@, old(run)@) {
                Ok(text) => r is Ok && final(out)@ == text && final(run)@ == Seq::<char>::empty(),
                Err(message) => r matches Err(e) && e.is_tokenizer(message),
            },
    {
        proof {
            use_type_invariant(self);
        }
        if run.as_str().is_empty() {
            assert(run@ == Seq::<char>::empty());
            return Ok(());
        }
        let chars = chars_of(run.as_str());
        let mut bytes: Vec<u8> = Vec::new();
        let mut i: usize = 0;
        assert(chars@.take(0) == Seq::<char>::empty());
        while i < chars.len()
            invariant
                i <= chars@.len(),
                self.wf(),
                run@ == chars@,
                run@ == old(run)@,
                run@.len() > 0,
                run_bytes(chars@.take(i as int)) == Ok::<Seq<u8>, Seq<char>>(bytes@),
            decreases chars@.len() - i,
        {
            let ch = chars[i];
            proof {
                lookup_is_char_byte(self.byte_decoder@, ch);
            }
            assert(chars@.take(i + 1).drop_last() == chars@.take(i as int));
            assert(chars@.take(i + 1).last() == ch);
            let key = ch as u32;
            match self.byte_decoder.get(&key) {
                Some(b) => {
                    bytes.push(*b);
                },
                None => {
                    proof {
                        lemma_run_failure_stays(chars@, i + 1);
                    }
                    let quoted = debug_char(ch);
                    return Err(message("char ", quoted.as_str(), " is not a byte token"));
                },
            }
            i += 1;
        }
        assert(chars@.take(chars@.len() as int) == chars@);
        let text = text_of_bytes(bytes.as_slice());
        out.append(text.as_str());
        *run = String::new();
        Ok(())
    }

    /// Decodes ids in byte-level mode.
    fn decode_bytes(&self, ids: &[u32]) -> (r: Result<String, FlipError>)
        ensures
            gives_text(
                r,
                match self@.byte_state(ids@) {
                    Ok((done, run)) => flushed(done, run),
                    Err(e) => Err(e),
                },
            ),
    {
        let mut result = String::new();
        let mut run = String::new();
        let mut i: usize = 0;
        assert(ids@.take(0) == Seq::<u32>::empty());
        while i < ids.len()
            invariant
                i <= ids@.len(),
                self@.byte_state(ids@.take(i as int)) == Ok::<
                    (Seq<char>, Seq<char>),
                    Seq<char>,
                >((result@, run@)),
            decreases ids@.len() - i,
        {
            let id = ids[i];
            assert(ids@.take(i + 1).drop_last() == ids@.take(i as int));
            assert(ids@.take(i + 1).last() == id);
            match self.special_decoder.get(&id) {
                Some(special) => {
                    match self.flush_byte_run(&mut run, &mut result) {
                        Ok(()) => {
                            result.append(special.as_str());
                        },
                        Err(e) => {
                            proof {
                                self@.lemma_byte_failure_stays(ids@, i + 1);
                            }
                            return Err(e);
                        },
                    }
                },
                None => match self.decoder.get(&id) {
                    Some(token) => {
                        run.append(token.as_str());
                    },
                    None => {
                        proof {
                            self@.lemma_byte_failure_stays(ids@, i + 1);
                        }
                        let number = decimal_text(id as u64);
                        let e = message("unknown token id ", number.as_str(), "");
                        proof {
                            reveal_strlit("");
                            assert(unknown_id(id) + ""@ == unknown_id(id));
                        }
                        return Err(e);
                    },
                },
            }
            i += 1;
        }
        assert(ids@.take(ids@.len() as int) == ids@);
        match self.flush_byte_run(&mut run, &mut result) {
            Ok(()) => Ok(result),
            Err(e) => Err(e),
        }
    }

    /// Decodes ids in Unigram mode: the pieces one after the other, the bytes of byte pieces as
    /// UTF-8 with faults replaced, markers as spaces, and without the one space in front. The
    /// literals of special tokens are kept as they are.
    pub fn decode_unigram(&self, ids: &[u32]) -> (r: Result<String, FlipError>)
        ensures
            gives_text(
                r,
                match self@.piece_state(ids@) {
                    Ok(state) => Ok(state.finished()),
                    Err(e) => Err(e),
                },
            ),
    {
        let mut text = String::new();
        let mut byte_run: Vec<u8> = Vec::new();
        let mut literal_first = false;
        let mut i: usize = 0;
        assert(ids@.take(0) == Seq::<u32>::empty());
        while i < ids.len()
            invariant
                i <= ids@.len(),
                self@.piece_state(ids@.take(i as int)) == Ok::<PieceState, Seq<char>>(
                    PieceState { text: text@, run: byte_run@, literal_first },
                ),
            decreases ids@.len() - i,
        {
            let id = ids[i];
            let ghost state = PieceState { text: text@, run: byte_run@, literal_first };
            assert(ids@.take(i + 1).drop_last() == ids@.take(i as int));
            assert(ids@.take(i + 1).last() == id);
            match self.special_decoder.get(&id) {
                Some(special) => {
                    flush_pieces(&mut byte_run, &mut text);
                    let first = text.as_str().is_empty() && !special.as_str().is_empty();
                    literal_first = literal_first || first;
                    text.append(special.as_str());
                    assert((PieceState { text: text@, run: byte_run@, literal_first })
                        =~= state.with_literal(special@));
                },
                None => match self.decoder.get(&id) {
                    Some(piece) => match parse_byte_piece(piece.as_str()) {
                        Some(b) => byte_run.push(b),
                        None => {
                            flush_pieces(&mut byte_run, &mut text);
                            let part = spaced_text(piece.as_str());
                            text.append(part.as_str());
                        },
                    },
                    None => {
                        proof {
                            self@.lemma_piece_failure_stays(ids@, i + 1);
                        }
                        let number = decimal_text(id as u64);
                        let e = message("unknown token id ", number.as_str(), "");
                        proof {
                            reveal_strlit("");
                            assert(unknown_id(id) + ""@ == unknown_id(id));
                        }
                        return Err(e);
                    },
                },
            }
            i += 1;
        }
        assert(ids@.take(ids@.len() as int) == ids@);
        flush_pieces(&mut byte_run, &mut text);
        if literal_first {
            Ok(text)
        } else {
            Ok(without_prefix(text.as_str()))
        }
    }

    /// Decodes token ids back into text. Special tokens give their literal; runs of byte tokens
    /// are decoded as UTF-8, with faults replaced.
    pub fn decode(&self, ids: &[u32]) -> (r: Result<String, FlipError>)
        ensures
            gives_text(r, self@.decoded(ids@)),
            match self@.decoded(ids@) {
                Ok(text) => r matches Ok(s) && s@ == text,
                Err(m) => r matches Err(FlipError::Tokenizer(s)) && s@ == m,
            },
    {
        if self.unigram.is_some() {
            self.decode_unigram(ids)
        } else {
            self.decode_bytes(ids)
        }
    }
}

impl<S: Copy + Add<Output = S> + PartialOrd> BpeTokenizer<S> {
    /// Encodes text into token ids. Registered special tokens are matched as whole units, the
    /// longest first, and give their own id; the text between is merged, or segmented in Unigram
    /// mode.
    pub fn encode(&self, text: &str) -> (r: Result<Vec<u32>, FlipError>)
        requires
            !self@.specials.contains_key(Seq::<char>::empty()) || split_ends(
                self@.specials,
                text@,
            ),
            self@.unigram is Some ==> score_ops::<S>(),
        ensures
            gives_ids(r, self@.encoded(text@)),
            match self@.encoded(text@) {
                Ok(ids) => r matches Ok(v) && v@ == ids,
                Err(m) => r matches Err(FlipError::Tokenizer(s)) && s@ == m,
            },
    {
        let segs = self.special_encoder.split_special(text);
        let ghost list = split(self@.specials, text@);
        let mut ids: Vec<u32> = Vec::new();
        let mut i: usize = 0;
        assert(list.take(0) == Seq::<Segment>::empty());
        while i < segs.len()
            invariant
                i <= segs@.len(),
                self@.unigram is Some ==> score_ops::<S>(),
                list == split(self@.specials, text@),
                segs_are(self@.specials, segs@, list),
                self@.segments_ids(list.take(i as int)) == Ok::<Seq<u32>, Seq<char>>(ids@),
            decreases segs@.len() - i,
        {
            assert(list.take(i + 1).drop_last() == list.take(i as int));
            assert(list.take(i + 1).last() == list[i as int]);
            assert(seg_is(
                self@.specials,
                segs@[i as int],
                list[i as int],
            ));
            let ghost before = ids@;
            match &segs[i] {
                Seg::Special(id) => {
                    ids.push(*id);
                    assert(ids@ == before + seq![*id]);
                },
                Seg::Text(chunk) => match &self.unigram {
                    Some(u) => {
                        if !u.encode_unigram(&self.encoder, chunk.as_str(), &mut ids) {
                            proof {
                                self@.lemma_segment_failure_stays(list, i + 1);
                            }
                            return Err(
                                FlipError::Tokenizer(
                                    "unigram tokenizer could not segment input (no byte fallback or unk token)".to_string(),
                                ),
                            );
                        }
                    },
                    None => {
                        match self.encode_chunks(chunk.as_str(), &mut ids) {
                            Ok(()) => {},
                            Err(e) => {
                                proof {
                                    self@.lemma_segment_failure_stays(list, i + 1);
                                }
                                return Err(e);
                            },
                        }
                    },
                },
            }
            i += 1;
        }
        assert(list.take(segs@.len() as int) == list);
        Ok(ids)
    }
}

/// Appends the text of a run of bytes to `out`, and empties the run.
pub fn flush_bytes(byte_run: &mut Vec<u8>, out: &mut String)
    ensures
        final(out)@ == flushed_bytes(old(out)@, old(byte_run)@),
        final(byte_run)@ == Seq::<u8>::empty(),
{
    if byte_run.len() != 0 {
        let text = text_of_bytes(byte_run.as_slice());
        out.append(text.as_str());
        byte_run.clear();
    } else {
        assert(byte_run@ == Seq::<u8>::empty());
    }
}

/// Appends the text of a run of bytes to `out`, its space markers made spaces, and empties the
/// run.
fn flush_pieces(byte_run: &mut Vec<u8>, out: &mut String)
    ensures
        final(out)@ == old(out)@ + spaced(flushed_bytes(seq![], old(byte_run)@)),
        final(byte_run)@ == Seq::<u8>::empty(),
{
    let mut part = String::new();
    assert(part@ == Seq::<char>::empty());
    flush_bytes(byte_run, &mut part);
    let text = spaced_text(part.as_str());
    out.append(text.as_str());
}

/// Makes space markers spaces.
fn spaced_text(text: &str) -> (r: String)
    ensures
        r@ == spaced(text@),
{
    let chars = chars_of(text);
    let mut out: Vec<char> = Vec::new();
    let mut i: usize = 0;
    while i < chars.len()
        invariant
            i <= chars@.len(),
            chars@ == text@,
            out@ == spaced(text@).take(i as int),
        decreases chars@.len() - i,
    {
        let c = if chars[i] == SPM_SPACE {
            ' '
        } else {
            chars[i]
        };
        out.push(c);
        i += 1;
        assert(out@ == spaced(text@).take(i as int));
    }
    let r = string_of(&out, 0, out.len());
    assert(r@ == spaced(text@));
    r
}

/// Drops one space in front.
fn without_prefix(text: &str) -> (r: String)
    ensures
        r@ == (if text@.len() > 0 && text@[0] == ' ' {
            text@.skip(1)
        } else {
            text@
        }),
{
    let chars = chars_of(text);
    let from: usize = if chars.len() > 0 && chars[0] == ' ' {
        1
    } else {
        0
    };
    let r = string_of(&chars, from, chars.len());
    assert(from == 0 ==> r@ == text@);
    assert(from == 1 ==> r@ == text@.skip(1));
    r
}

} // verus!
