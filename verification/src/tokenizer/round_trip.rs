//! What decoding gives back of encoding, in byte-level mode, and of special tokens in any mode.

use crate::tokenizer::bpe::{
    is_best_pair, joined, joined_of_one, joined_of_sum, lemma_merge_pass_shortens, merge_pass, merged, merging_keeps_text,
    pair_at,
};
use crate::tokenizer::byte_map::{
    byte_char, byte_chars, char_byte, char_byte_inverts_byte_char,
};
use crate::tokenizer::codec::{
    bpe_model, bytes_model, numbered, tokens_of, unigram_model, with_entries, with_names,
};
use crate::tokenizer::model::{
    byte_symbols, flushed, run_bytes, spaced, symbol_ids, TokenizerModel,
};
use crate::tokenizer::pieces::{chunking_keeps_text, chunks};
use crate::tokenizer::special::{segment_texts, split, splitting_keeps_text, Segment};
use crate::tokenizer::unigram::ScoreScale;
use std::ops::Add;
use vstd::prelude::*;
use vstd::utf8::{
    decode_utf8, encode_utf8, encode_utf8_decode_utf8, encode_utf8_valid_utf8,
};

verus! {

impl<S> TokenizerModel<S> {
    /// Whether each token's id names that token, and no special token.
    pub open spec fn tokens_invert_vocab(self) -> bool {
        forall|s: Seq<char>| #[trigger]
            self.vocab.contains_key(s) ==> {
                &&& self.tokens.contains_key(self.vocab[s])
                &&& self.tokens[self.vocab[s]] == s
                &&& !self.special_tokens.contains_key(self.vocab[s])
            }
    }

    /// Whether each special token's id names that special token.
    pub open spec fn special_tokens_invert_specials(self) -> bool {
        forall|s: Seq<char>| #[trigger]
            self.specials.contains_key(s) ==> {
                &&& self.special_tokens.contains_key(self.specials[s])
                &&& self.special_tokens[self.specials[s]] == s
            }
    }

    /// Whether every byte has a token, and so has what every merge rule makes of two tokens.
    pub open spec fn vocab_is_complete(self) -> bool {
        &&& forall|b: u8| self.vocab.contains_key(seq![#[trigger] byte_char(b)])
        &&& forall|p: (Seq<char>, Seq<char>)| #[trigger]
            self.rules.contains_key(p) ==> self.vocab.contains_key(p.0 + p.1)
    }
}

/// Encoding a text in two parts gives its bytes in two parts.
pub proof fn encoding_of_sum(a: Seq<char>, b: Seq<char>)
    ensures
        encode_utf8(a + b) == encode_utf8(a) + encode_utf8(b),
    decreases a.len(),
{
    if a.len() == 0 {
        assert(a + b == b);
        assert(encode_utf8(a) + encode_utf8(b) == encode_utf8(b));
    } else {
        assert((a + b).drop_first() == a.drop_first() + b);
        encoding_of_sum(a.drop_first(), b);
        assert(encode_utf8(a + b) == encode_utf8(a) + encode_utf8(b));
    }
}

/// The characters that stand for bytes are read back as those bytes.
pub proof fn byte_chars_read_back(bytes: Seq<u8>)
    ensures
        run_bytes(byte_chars(bytes)) == Ok::<Seq<u8>, Seq<char>>(bytes),
    decreases bytes.len(),
{
    if bytes.len() > 0 {
        byte_chars_read_back(bytes.drop_last());
        assert(byte_chars(bytes).drop_last() == byte_chars(bytes.drop_last()));
        char_byte_inverts_byte_char(bytes.last());
        assert(bytes.drop_last().push(bytes.last()) == bytes);
    } else {
        assert(byte_chars(bytes) == Seq::<char>::empty());
        assert(bytes == Seq::<u8>::empty());
    }
}

proof fn lemma_joined_byte_symbols(bytes: Seq<u8>)
    ensures
        joined(byte_symbols(bytes)) == byte_chars(bytes),
    decreases bytes.len(),
{
    if bytes.len() > 0 {
        let head = bytes.drop_last();
        let one = seq![byte_char(bytes.last())];
        lemma_joined_byte_symbols(head);
        assert(byte_symbols(bytes) == byte_symbols(head) + seq![one]);
        joined_of_sum(byte_symbols(head), seq![one]);
        joined_of_one(one);
        assert(byte_chars(bytes) == byte_chars(head) + one);
    } else {
        assert(byte_chars(bytes) == Seq::<char>::empty());
    }
}

/// Flushing the run that stands for the bytes of a text appends the text.
proof fn lemma_flush(done: Seq<char>, pending: Seq<char>)
    ensures
        flushed(done, byte_chars(encode_utf8(pending))) == Ok::<Seq<char>, Seq<char>>(
            done + pending,
        ),
{
    let bytes = encode_utf8(pending);
    byte_chars_read_back(bytes);
    encode_utf8_valid_utf8(pending);
    encode_utf8_decode_utf8(pending);
    if bytes.len() == 0 {
        assert(bytes == Seq::<u8>::empty());
        assert(decode_utf8(bytes) == Seq::<char>::empty());
        assert(done + pending == done);
    }
}

impl<S> TokenizerModel<S> {
    proof fn lemma_symbols_decode(
        self,
        before: Seq<u32>,
        done: Seq<char>,
        run: Seq<char>,
        symbols: Seq<Seq<char>>,
        ids: Seq<u32>,
    )
        requires
            self.tokens_invert_vocab(),
            self.byte_state(before) == Ok::<(Seq<char>, Seq<char>), Seq<char>>((done, run)),
            symbol_ids(self.vocab, symbols) == Ok::<Seq<u32>, Seq<char>>(ids),
        ensures
            self.byte_state(before + ids) == Ok::<(Seq<char>, Seq<char>), Seq<char>>(
                (done, run + joined(symbols)),
            ),
        decreases symbols.len(),
    {
        if symbols.len() == 0 {
            assert(before + ids == before);
            assert(run + joined(symbols) == run);
        } else {
            let symbol = symbols.last();
            let head = symbol_ids(self.vocab, symbols.drop_last());
            assert(head is Ok);
            let first = head->Ok_0;
            assert(self.vocab.contains_key(symbol));
            let id = self.vocab[symbol];
            assert(ids == first + seq![id]);
            self.lemma_symbols_decode(before, done, run, symbols.drop_last(), first);
            assert((before + ids).drop_last() == before + first);
            assert((before + ids).last() == id);
            joined_of_sum(symbols.drop_last(), seq![symbol]);
            joined_of_one(symbol);
            assert(symbols.drop_last() + seq![symbol] == symbols);
            assert((run + joined(symbols.drop_last())) + symbol == run + joined(symbols));
        }
    }

    proof fn lemma_chunks_decode(
        self,
        before: Seq<u32>,
        done: Seq<char>,
        pending: Seq<char>,
        parts: Seq<Seq<char>>,
        ids: Seq<u32>,
    )
        requires
            self.tokens_invert_vocab(),
            self.byte_state(before) == Ok::<(Seq<char>, Seq<char>), Seq<char>>(
                (done, byte_chars(encode_utf8(pending))),
            ),
            self.chunks_ids(parts) == Ok::<Seq<u32>, Seq<char>>(ids),
        ensures
            self.byte_state(before + ids) == Ok::<(Seq<char>, Seq<char>), Seq<char>>(
                (done, byte_chars(encode_utf8(pending + joined(parts)))),
            ),
        decreases parts.len(),
    {
        if parts.len() == 0 {
            assert(before + ids == before);
            assert(pending + joined(parts) == pending);
        } else {
            let part = parts.last();
            let head = self.chunks_ids(parts.drop_last());
            assert(head is Ok);
            let first = head->Ok_0;
            let tail = self.chunk_ids(part);
            assert(tail is Ok);
            let rest = tail->Ok_0;
            assert(ids == first + rest);
            self.lemma_chunks_decode(before, done, pending, parts.drop_last(), first);
            let sofar = pending + joined(parts.drop_last());
            let symbols = byte_symbols(encode_utf8(part));
            merging_keeps_text(self.rules, symbols);
            lemma_joined_byte_symbols(encode_utf8(part));
            self.lemma_symbols_decode(
                before + first,
                done,
                byte_chars(encode_utf8(sofar)),
                merged(self.rules, symbols),
                rest,
            );
            assert(before + ids == (before + first) + rest);
            encoding_of_sum(sofar, part);
            assert(byte_chars(encode_utf8(sofar + part)) == byte_chars(encode_utf8(sofar))
                + byte_chars(encode_utf8(part)));
            joined_of_sum(parts.drop_last(), seq![part]);
            joined_of_one(part);
            assert(parts.drop_last() + seq![part] == parts);
            assert(sofar + part == pending + joined(parts));
        }
    }
}

impl<S: Add<Output = S> + PartialOrd> TokenizerModel<S> {
    /// After the ids of `segments`, what is decoded and what is pending make up their text.
    proof fn lemma_segments_decode(self, segments: Seq<Segment>, ids: Seq<u32>) -> (r: (
        Seq<char>,
        Seq<char>,
    ))
        requires
            self.unigram is None,
            self.tokens_invert_vocab(),
            self.special_tokens_invert_specials(),
            forall|i: int|
                0 <= i < segments.len() ==> (#[trigger] segments[i] matches Segment::Special(s)
                    ==> self.specials.contains_key(s)),
            self.segments_ids(segments) == Ok::<Seq<u32>, Seq<char>>(ids),
        ensures
            self.byte_state(ids) == Ok::<(Seq<char>, Seq<char>), Seq<char>>(
                (r.0, byte_chars(encode_utf8(r.1))),
            ),
            r.0 + r.1 == joined(segment_texts(segments)),
        decreases segments.len(),
    {
        if segments.len() == 0 {
            let none = Seq::<char>::empty();
            assert(byte_chars(encode_utf8(none)) == none);
            assert(segment_texts(segments) == Seq::<Seq<char>>::empty());
            (none, none)
        } else {
            let segment = segments.last();
            let init = segments.drop_last();
            let head = self.segments_ids(init);
            assert(head is Ok);
            let first = head->Ok_0;
            let rest = self.segment_ids(segment)->Ok_0;
            assert(ids == first + rest);
            assert forall|i: int| 0 <= i < init.len() implies (
            #[trigger] init[i] matches Segment::Special(s) ==> self.specials.contains_key(s)) by {
                assert(init[i] == segments[i]);
            }
            let (done, pending) = self.lemma_segments_decode(init, first);
            assert(segment_texts(segments) == segment_texts(init) + seq![segment.text()]);
            joined_of_sum(segment_texts(init), seq![segment.text()]);
            joined_of_one(segment.text());
            match segment {
                Segment::Special(literal) => {
                    assert(segments[segments.len() - 1] == segment);
                    assert(self.specials.contains_key(literal));
                    lemma_flush(done, pending);
                    assert(ids.drop_last() == first);
                    assert(ids.last() == self.specials[literal]);
                    let none = Seq::<char>::empty();
                    assert(byte_chars(encode_utf8(none)) == none);
                    assert((done + pending) + literal + none == joined(segment_texts(segments)));
                    (done + pending + literal, none)
                },
                Segment::Text(text) => {
                    self.lemma_chunks_decode(first, done, pending, chunks(text), rest);
                    chunking_keeps_text(text);
                    assert(done + (pending + text) == done + pending + text);
                    (done, pending + text)
                },
            }
        }
    }

    /// Decoding gives back what was encoded, whatever the vocabulary, the merge rules and the
    /// special tokens are, where each id names one token.
    pub proof fn byte_level_round_trip(self, text: Seq<char>)
        requires
            self.unigram is None,
            self.tokens_invert_vocab(),
            self.special_tokens_invert_specials(),
            self.encoded(text) is Ok,
        ensures
            self.decoded(self.encoded(text)->Ok_0) == Ok::<Seq<char>, Seq<char>>(text),
    {
        splitting_keeps_text(self.specials, text);
        let ids = self.encoded(text)->Ok_0;
        let (done, pending) = self.lemma_segments_decode(split(self.specials, text), ids);
        lemma_flush(done, pending);
    }
}

proof fn lemma_merge_pass_stays_in(
    vocab: Map<Seq<char>, u32>,
    symbols: Seq<Seq<char>>,
    a: Seq<char>,
    b: Seq<char>,
)
    requires
        forall|i: int| 0 <= i < symbols.len() ==> vocab.contains_key(#[trigger] symbols[i]),
        vocab.contains_key(a + b),
    ensures
        forall|i: int|
            0 <= i < merge_pass(symbols, a, b).len() ==> vocab.contains_key(
                #[trigger] merge_pass(symbols, a, b)[i],
            ),
    decreases symbols.len(),
{
    if symbols.len() == 0 {
    } else if symbols.len() >= 2 && symbols[0] == a && symbols[1] == b {
        let rest = merge_pass(symbols.skip(2), a, b);
        lemma_merge_pass_stays_in(vocab, symbols.skip(2), a, b);
        assert forall|i: int| 0 <= i < 1 + rest.len() implies vocab.contains_key(
            #[trigger] (seq![a + b] + rest)[i],
        ) by {
            if i > 0 {
                assert(vocab.contains_key(rest[i - 1]));
            }
        }
    } else {
        let rest = merge_pass(symbols.skip(1), a, b);
        lemma_merge_pass_stays_in(vocab, symbols.skip(1), a, b);
        assert forall|i: int| 0 <= i < 1 + rest.len() implies vocab.contains_key(
            #[trigger] (seq![symbols[0]] + rest)[i],
        ) by {
            if i > 0 {
                assert(vocab.contains_key(rest[i - 1]));
            }
        }
    }
}

proof fn lemma_merged_stays_in(
    vocab: Map<Seq<char>, u32>,
    rules: Map<(Seq<char>, Seq<char>), u32>,
    symbols: Seq<Seq<char>>,
)
    requires
        forall|i: int| 0 <= i < symbols.len() ==> vocab.contains_key(#[trigger] symbols[i]),
        forall|p: (Seq<char>, Seq<char>)| #[trigger]
            rules.contains_key(p) ==> vocab.contains_key(p.0 + p.1),
    ensures
        forall|i: int|
            0 <= i < merged(rules, symbols).len() ==> vocab.contains_key(
                #[trigger] merged(rules, symbols)[i],
            ),
    decreases symbols.len(),
{
    if exists|i: int| is_best_pair(rules, symbols, i) {
        let i = choose|i: int| is_best_pair(rules, symbols, i);
        assert(rules.contains_key(pair_at(symbols, i)));
        lemma_merge_pass_stays_in(vocab, symbols, symbols[i], symbols[i + 1]);
        lemma_merge_pass_shortens(symbols, symbols[i], symbols[i + 1], i);
        let pass = merge_pass(symbols, symbols[i], symbols[i + 1]);
        assert forall|k: int| 0 <= k < pass.len() implies vocab.contains_key(
            #[trigger] pass[k],
        ) by {}
        lemma_merged_stays_in(vocab, rules, pass);
        assert(merged(rules, symbols) == merged(rules, pass));
    }
}

proof fn lemma_symbols_have_ids(vocab: Map<Seq<char>, u32>, symbols: Seq<Seq<char>>)
    requires
        forall|i: int| 0 <= i < symbols.len() ==> vocab.contains_key(#[trigger] symbols[i]),
    ensures
        symbol_ids(vocab, symbols) == Ok::<Seq<u32>, Seq<char>>(
            Seq::new(symbols.len(), |i: int| vocab[symbols[i]]),
        ),
    decreases symbols.len(),
{
    let want = Seq::new(symbols.len(), |i: int| vocab[symbols[i]]);
    if symbols.len() > 0 {
        let init = symbols.drop_last();
        lemma_symbols_have_ids(vocab, init);
        assert(vocab.contains_key(symbols[symbols.len() - 1]));
        assert(Seq::new(init.len(), |i: int| vocab[init[i]]) + seq![vocab[symbols.last()]] == want);
    } else {
        assert(want == Seq::<u32>::empty());
    }
}

impl<S> TokenizerModel<S> {
    proof fn lemma_chunks_have_ids(self, parts: Seq<Seq<char>>)
        requires
            self.vocab_is_complete(),
        ensures
            self.chunks_ids(parts) is Ok,
        decreases parts.len(),
    {
        if parts.len() > 0 {
            self.lemma_chunks_have_ids(parts.drop_last());
            let bytes = encode_utf8(parts.last());
            let symbols = byte_symbols(bytes);
            assert forall|i: int| 0 <= i < symbols.len() implies self.vocab.contains_key(
                #[trigger] symbols[i],
            ) by {
                assert(symbols[i] == seq![byte_char(bytes[i])]);
            }
            lemma_merged_stays_in(self.vocab, self.rules, symbols);
            lemma_symbols_have_ids(self.vocab, merged(self.rules, symbols));
        }
    }

    /// Without merge rules, and with the bytes as ids, chunks encode to their bytes.
    proof fn lemma_chunks_are_bytes(self, parts: Seq<Seq<char>>)
        requires
            self.vocab == bytes_model::<S>().vocab,
            self.rules == bytes_model::<S>().rules,
        ensures
            self.chunks_ids(parts) == Ok::<Seq<u32>, Seq<char>>(
                byte_values(encode_utf8(joined(parts))),
            ),
        decreases parts.len(),
    {
        if parts.len() > 0 {
            let init = parts.drop_last();
            let part = parts.last();
            let bytes = encode_utf8(part);
            let symbols = byte_symbols(bytes);
            self.lemma_chunks_are_bytes(init);
            assert(!exists|i: int| is_best_pair(self.rules, symbols, i));
            assert forall|i: int| 0 <= i < symbols.len() implies self.vocab.contains_key(
                #[trigger] symbols[i],
            ) && self.vocab[symbols[i]] == bytes[i] as u32 by {
                char_byte_inverts_byte_char(bytes[i]);
                assert(symbols[i][0] == byte_char(bytes[i]));
            }
            lemma_symbols_have_ids(self.vocab, symbols);
            assert(Seq::new(symbols.len(), |i: int| self.vocab[symbols[i]]) == byte_values(bytes));
            joined_of_sum(init, seq![part]);
            joined_of_one(part);
            assert(init + seq![part] == parts);
            encoding_of_sum(joined(init), part);
            assert(byte_values(encode_utf8(joined(init)) + bytes) == byte_values(
                encode_utf8(joined(init)),
            ) + byte_values(bytes));
        } else {
            assert(byte_values(encode_utf8(joined(parts))) == Seq::<u32>::empty());
        }
    }
}

/// Bytes as ids.
pub open spec fn byte_values(bytes: Seq<u8>) -> Seq<u32> {
    Seq::new(bytes.len(), |i: int| bytes[i] as u32)
}

impl<S: Add<Output = S> + PartialOrd> TokenizerModel<S> {
    proof fn lemma_segments_have_ids(self, segments: Seq<Segment>)
        requires
            self.unigram is None,
            self.vocab_is_complete(),
        ensures
            self.segments_ids(segments) is Ok,
        decreases segments.len(),
    {
        if segments.len() > 0 {
            self.lemma_segments_have_ids(segments.drop_last());
            match segments.last() {
                Segment::Text(text) => self.lemma_chunks_have_ids(chunks(text)),
                Segment::Special(_) => {},
            }
        }
    }

    /// With a token for every byte and for every merge, every text encodes: there is no unknown
    /// token.
    pub proof fn complete_vocab_encodes_every_text(self, text: Seq<char>)
        requires
            self.unigram is None,
            self.vocab_is_complete(),
        ensures
            self.encoded(text) is Ok,
    {
        self.lemma_segments_have_ids(split(self.specials, text));
    }
}

/// The byte tokenizer encodes every text, to its bytes, and decodes it back.
pub proof fn bytes_only_ids_are_bytes<S: Add<Output = S> + PartialOrd>(text: Seq<char>)
    ensures
        bytes_model::<S>().encoded(text) == Ok::<Seq<u32>, Seq<char>>(
            byte_values(encode_utf8(text)),
        ),
        bytes_model::<S>().decoded(byte_values(encode_utf8(text))) == Ok::<Seq<char>, Seq<char>>(
            text,
        ),
{
    let m = bytes_model::<S>();
    assert(m.specials.dom() =~= Set::<Seq<char>>::empty());
    assert(split(m.specials, text) == seq![Segment::Text(text)]);
    let segments = split(m.specials, text);
    assert(segments.drop_last() == Seq::<Segment>::empty());
    assert(m.segments_ids(segments.drop_last()) == Ok::<Seq<u32>, Seq<char>>(seq![]));
    chunking_keeps_text(text);
    m.lemma_chunks_are_bytes(chunks(text));
    let ids = byte_values(encode_utf8(text));
    assert(Seq::<u32>::empty() + ids == ids);
    bytes_model_inverts::<S>();
    m.byte_level_round_trip(text);
}

/// The byte tokenizer has a token for every byte, and each id names one token.
pub proof fn bytes_model_inverts<S>()
    ensures
        bytes_model::<S>().tokens_invert_vocab(),
        bytes_model::<S>().vocab_is_complete(),
{
    let m = bytes_model::<S>();
    assert forall|s: Seq<char>| #[trigger] m.vocab.contains_key(s) implies {
        &&& m.tokens.contains_key(m.vocab[s])
        &&& m.tokens[m.vocab[s]] == s
    } by {
        assert(byte_char(char_byte(s[0])) == s[0]);
        assert(m.vocab[s] as u8 == char_byte(s[0]));
        assert(seq![byte_char(char_byte(s[0]))] == s);
    }
    assert forall|b: u8| m.vocab.contains_key(seq![#[trigger] byte_char(b)]) by {
        assert(seq![byte_char(b)][0] == byte_char(b));
    }
}

/// Whether no id stands beside two different texts.
pub open spec fn ids_are_distinct(list: Seq<(Seq<char>, u32)>) -> bool {
    forall|i: int, j: int|
        #![trigger list[i], list[j]]
        0 <= i < list.len() && 0 <= j < list.len() && list[i].1 == list[j].1 ==> list[i].0
            == list[j].0
}

/// An entry of a table comes from its base or from the list.
proof fn lemma_entry_is_listed(
    base: Map<Seq<char>, u32>,
    list: Seq<(Seq<char>, u32)>,
    s: Seq<char>,
) -> (i: int)
    requires
        with_entries(base, list).contains_key(s),
        !base.contains_key(s),
    ensures
        0 <= i < list.len(),
        list[i] == (s, with_entries(base, list)[s]),
    decreases list.len(),
{
    if list.last().0 == s {
        list.len() - 1
    } else {
        let i = lemma_entry_is_listed(base, list.drop_last(), s);
        assert(list.drop_last()[i] == list[i]);
        i
    }
}

/// The id of each listed entry names a text that is listed with that id.
proof fn lemma_name_is_listed(base: Map<u32, Seq<char>>, list: Seq<(Seq<char>, u32)>, i: int) -> (j:
    int)
    requires
        0 <= i < list.len(),
    ensures
        0 <= j < list.len(),
        with_names(base, list).contains_key(list[i].1),
        list[j] == (with_names(base, list)[list[i].1], list[i].1),
    decreases list.len(),
{
    if list.last().1 == list[i].1 {
        list.len() - 1
    } else {
        assert(list.drop_last()[i] == list[i]);
        let j = lemma_name_is_listed(base, list.drop_last(), i);
        assert(list.drop_last()[j] == list[j]);
        j
    }
}

proof fn lemma_token_is_listed(
    vocab: Map<Seq<char>, u32>,
    list: Seq<(Seq<char>, u32)>,
    i: int,
) -> (j: int)
    requires
        0 <= i < list.len(),
        vocab[list[i].0] == list[i].1,
    ensures
        0 <= j < list.len(),
        tokens_of(vocab, list).contains_key(list[i].1),
        list[j] == (tokens_of(vocab, list)[list[i].1], list[i].1),
    decreases list.len(),
{
    if list.last().1 == list[i].1 && vocab[list.last().0] == list.last().1 {
        list.len() - 1
    } else {
        assert(list.drop_last()[i] == list[i]);
        let j = lemma_token_is_listed(vocab, list.drop_last(), i);
        assert(list.drop_last()[j] == list[j]);
        j
    }
}

/// A byte-level tokenizer made of a vocabulary without a repeated id names each token by its id.
pub proof fn distinct_ids_name_tokens<S>(
    list: Seq<(Seq<char>, u32)>,
    rules: Seq<(Seq<char>, Seq<char>)>,
)
    requires
        ids_are_distinct(list),
    ensures
        bpe_model::<S>(list, rules).tokens_invert_vocab(),
{
    let m = bpe_model::<S>(list, rules);
    assert forall|s: Seq<char>| #[trigger] m.vocab.contains_key(s) implies {
        &&& m.tokens.contains_key(m.vocab[s])
        &&& m.tokens[m.vocab[s]] == s
    } by {
        let i = lemma_entry_is_listed(Map::empty(), list, s);
        let j = lemma_token_is_listed(m.vocab, list, i);
        assert(list[i].1 == list[j].1);
    }
}

/// A Unigram tokenizer names each piece by its id.
pub proof fn indices_name_pieces<S>(
    pieces: Seq<(Seq<char>, S)>,
    byte_fallback: bool,
    unk_id: Option<u32>,
    scale: ScoreScale<S>,
)
    requires
        pieces.len() <= 0x1_0000_0000,
    ensures
        unigram_model(pieces, byte_fallback, unk_id, scale).tokens_invert_vocab(),
{
    let m = unigram_model(pieces, byte_fallback, unk_id, scale);
    let list = numbered(pieces);
    assert forall|s: Seq<char>| #[trigger] m.vocab.contains_key(s) implies {
        &&& m.tokens.contains_key(m.vocab[s])
        &&& m.tokens[m.vocab[s]] == s
    } by {
        let i = lemma_entry_is_listed(Map::empty(), list, s);
        let j = lemma_name_is_listed(Map::empty(), list, i);
        assert(list[i].1 == i && list[j].1 == j);
    }
}

impl<S> TokenizerModel<S> {
    /// The id of a special token adds its literal, as it is, to what the ids before it decode to;
    /// by itself it decodes to the literal.
    pub proof fn specials_decode_verbatim(self, ids: Seq<u32>, id: u32)
        requires
            self.special_tokens.contains_key(id),
        ensures
            self.decoded(ids) matches Ok(text) ==> self.decoded(ids.push(id)) == Ok::<
                Seq<char>,
                Seq<char>,
            >(text + self.special_tokens[id]),
            self.decoded(seq![id]) == Ok::<Seq<char>, Seq<char>>(self.special_tokens[id]),
    {
        let literal = self.special_tokens[id];
        let none = Seq::<u32>::empty();
        assert(none.push(id) == seq![id]);
        assert(Seq::<char>::empty() + literal == literal);
        self.lemma_special_adds_literal(none, id);
        self.lemma_special_adds_literal(ids, id);
        assert(spaced(Seq::<char>::empty()) == Seq::<char>::empty());
        assert(self.decoded(none) == Ok::<Seq<char>, Seq<char>>(seq![]));
    }

    proof fn lemma_special_adds_literal(self, ids: Seq<u32>, id: u32)
        requires
            self.special_tokens.contains_key(id),
        ensures
            self.decoded(ids) matches Ok(text) ==> self.decoded(ids.push(id)) == Ok::<
                Seq<char>,
                Seq<char>,
            >(text + self.special_tokens[id]),
    {
        let literal = self.special_tokens[id];
        assert(ids.push(id).drop_last() == ids);
        if self.unigram is Some && self.piece_state(ids) is Ok {
            let state = self.piece_state(ids)->Ok_0;
            let after = state.with_literal(literal);
            let text = state.flushed();
            assert(spaced(Seq::<char>::empty()) == Seq::<char>::empty());
            assert(after.flushed() == text + literal);
            assert(text.len() > 0 ==> (text + literal).skip(1) == text.skip(1) + literal);
            assert(after.finished() == state.finished() + literal);
        }
    }

    /// Registering special tokens without a repeated id, none of them the id of a token, names
    /// each special token by its id, and leaves the tokens their ids.
    pub proof fn distinct_ids_name_specials(self, list: Seq<(Seq<char>, u32)>)
        requires
            self.tokens_invert_vocab(),
            self.specials == Map::<Seq<char>, u32>::empty(),
            self.special_tokens == Map::<u32, Seq<char>>::empty(),
            ids_are_distinct(list),
            forall|s: Seq<char>, i: int|
                #![trigger self.vocab[s], list[i]]
                self.vocab.contains_key(s) && 0 <= i < list.len() ==> self.vocab[s] != list[i].1,
        ensures
            self.with_specials(list).tokens_invert_vocab(),
            self.with_specials(list).special_tokens_invert_specials(),
    {
        let m = self.with_specials(list);
        assert forall|s: Seq<char>| #[trigger] m.vocab.contains_key(s) implies {
            &&& m.tokens.contains_key(m.vocab[s])
            &&& m.tokens[m.vocab[s]] == s
            &&& !m.special_tokens.contains_key(m.vocab[s])
        } by {
            assert(self.vocab.contains_key(s));
            lemma_unlisted_id(list, self.vocab[s]);
        }
        assert forall|s: Seq<char>| #[trigger] m.specials.contains_key(s) implies {
            &&& m.special_tokens.contains_key(m.specials[s])
            &&& m.special_tokens[m.specials[s]] == s
        } by {
            let i = lemma_entry_is_listed(Map::empty(), list, s);
            let j = lemma_name_is_listed(Map::empty(), list, i);
            assert(list[i].1 == list[j].1);
        }
    }
}

proof fn lemma_unlisted_id(list: Seq<(Seq<char>, u32)>, id: u32)
    requires
        forall|i: int| 0 <= i < list.len() ==> (#[trigger] list[i]).1 != id,
    ensures
        !with_names(Map::<u32, Seq<char>>::empty(), list).contains_key(id),
    decreases list.len(),
{
    if list.len() > 0 {
        assert(list[list.len() - 1].1 != id);
        assert forall|i: int| 0 <= i < list.len() - 1 implies (
        #[trigger] list.drop_last()[i]).1 != id by {
            assert(list[i].1 != id);
        }
        lemma_unlisted_id(list.drop_last(), id);
    }
}

/// The byte tokenizer with special tokens whose ids are no bytes encodes every text, and decodes
/// it back.
pub proof fn bytes_with_specials_round_trip<S: Add<Output = S> + PartialOrd>(
    list: Seq<(Seq<char>, u32)>,
    text: Seq<char>,
)
    requires
        ids_are_distinct(list),
        forall|i: int| 0 <= i < list.len() ==> (#[trigger] list[i]).1 >= 256,
    ensures
        bytes_model::<S>().with_specials(list).encoded(text) is Ok,
        bytes_model::<S>().with_specials(list).decoded(
            bytes_model::<S>().with_specials(list).encoded(text)->Ok_0,
        ) == Ok::<Seq<char>, Seq<char>>(text),
{
    let base = bytes_model::<S>();
    let m = base.with_specials(list);
    bytes_model_inverts::<S>();
    assert forall|s: Seq<char>, i: int|
        #![trigger base.vocab[s], list[i]]
        base.vocab.contains_key(s) && 0 <= i < list.len() implies base.vocab[s] != list[i].1 by {
        assert(base.vocab[s] < 256);
    }
    base.distinct_ids_name_specials(list);
    assert(m.vocab_is_complete());
    m.complete_vocab_encodes_every_text(text);
    m.byte_level_round_trip(text);
}

} // verus!
