//! What encoding and decoding do with the parts of a text and of a list of ids.

use crate::text::{decimal, lossy_utf8, quoted, quoted_char};
use crate::tokenizer::bpe::{joined, merged, ranked, text_pairs, texts};
use crate::tokenizer::byte_map::{byte_char, byte_chars, is_byte_char};
use crate::tokenizer::codec::{
    bpe_model, bytes_model, longest_piece, named_ids, named_scores, numbered, tokens_of,
    unigram_model, with_entries, with_names,
};
use crate::tokenizer::model::{
    byte_symbols, flushed_bytes, run_bytes, spaced, symbol_ids, PieceState,
    TokenizerModel,
};
use crate::tokenizer::pieces::{chunks, piece_byte};
use crate::tokenizer::special::{split, Segment};
use crate::tokenizer::unigram::ScoreScale;
use std::ops::Add;
use vstd::prelude::*;
use vstd::utf8::{decode_utf8, encode_utf8, valid_utf8};

verus! {

/// Looking symbols up gives the id of each, in order. It fails where one has none, and names the
/// first such symbol.
pub proof fn symbols_become_their_ids(vocab: Map<Seq<char>, u32>, symbols: Seq<Seq<char>>)
    ensures
        match symbol_ids(vocab, symbols) {
            Ok(ids) => {
                &&& ids.len() == symbols.len()
                &&& forall|i: int|
                    0 <= i < symbols.len() ==> vocab.contains_key(#[trigger] symbols[i]) && ids[i]
                        == vocab[symbols[i]]
            },
            Err(message) => exists|i: int|
                {
                    &&& 0 <= i < symbols.len()
                    &&& !vocab.contains_key(#[trigger] symbols[i])
                    &&& message == "token "@ + quoted(symbols[i]) + " not in vocabulary"@
                    &&& forall|j: int| 0 <= j < i ==> vocab.contains_key(#[trigger] symbols[j])
                },
        },
    decreases symbols.len(),
{
    if symbols.len() > 0 {
        let init = symbols.drop_last();
        symbols_become_their_ids(vocab, init);
        let last = symbols.len() - 1;
        assert(symbols[last] == symbols.last());
        match symbol_ids(vocab, init) {
            Ok(ids) => {
                assert forall|i: int| 0 <= i < last implies vocab.contains_key(
                    #[trigger] symbols[i],
                ) by {
                    assert(init[i] == symbols[i]);
                }
                if vocab.contains_key(symbols.last()) {
                    let all = symbol_ids(vocab, symbols)->Ok_0;
                    assert forall|i: int| 0 <= i < symbols.len() implies vocab.contains_key(
                        #[trigger] symbols[i],
                    ) && all[i] == vocab[symbols[i]] by {
                        if i < last {
                            assert(init[i] == symbols[i]);
                        }
                    }
                }
            },
            Err(message) => {
                let i = choose|i: int|
                    {
                        &&& 0 <= i < init.len()
                        &&& !vocab.contains_key(#[trigger] init[i])
                        &&& message == "token "@ + quoted(init[i]) + " not in vocabulary"@
                        &&& forall|j: int| 0 <= j < i ==> vocab.contains_key(#[trigger] init[j])
                    };
                assert(symbols[i] == init[i]);
                assert forall|j: int| 0 <= j < i implies vocab.contains_key(
                    #[trigger] symbols[j],
                ) by {
                    assert(init[j] == symbols[j]);
                }
            },
        }
    }
}

impl<S> TokenizerModel<S> {
    /// A chunk starts out as the characters of its UTF-8 bytes, one symbol each; they are merged,
    /// and the symbols that come out are looked up.
    pub proof fn chunks_start_as_bytes(self, chunk: Seq<char>, start: Seq<Seq<char>>)
        requires
            start.len() == encode_utf8(chunk).len(),
            forall|i: int|
                0 <= i < start.len() ==> #[trigger] start[i] == seq![
                    byte_char(encode_utf8(chunk)[i]),
                ],
        ensures
            match self.chunk_ids(chunk) {
                Ok(ids) => {
                    let symbols = merged(self.rules, start);
                    &&& ids.len() == symbols.len()
                    &&& forall|i: int|
                        0 <= i < symbols.len() ==> self.vocab.contains_key(#[trigger] symbols[i])
                            && ids[i] == self.vocab[symbols[i]]
                },
                Err(message) => {
                    let symbols = merged(self.rules, start);
                    exists|i: int|
                        {
                            &&& 0 <= i < symbols.len()
                            &&& !self.vocab.contains_key(#[trigger] symbols[i])
                            &&& message == "token "@ + quoted(symbols[i]) + " not in vocabulary"@
                            &&& forall|j: int|
                                0 <= j < i ==> self.vocab.contains_key(#[trigger] symbols[j])
                        }
                },
            },
    {
        assert(start =~= byte_symbols(encode_utf8(chunk)));
        symbols_become_their_ids(self.vocab, merged(self.rules, start));
    }

    /// Chunks are encoded one after the other; the first failure is the failure of all.
    pub proof fn chunks_encode_one_by_one(self, a: Seq<Seq<char>>, b: Seq<Seq<char>>)
        ensures
            self.chunks_ids(seq![]) == Ok::<Seq<u32>, Seq<char>>(seq![]),
            forall|chunk: Seq<char>| #[trigger]
                self.chunks_ids(seq![chunk]) == self.chunk_ids(chunk),
            match (self.chunks_ids(a), self.chunks_ids(b)) {
                (Ok(x), Ok(y)) => self.chunks_ids(a + b) == Ok::<Seq<u32>, Seq<char>>(x + y),
                (Err(e), _) => self.chunks_ids(a + b) == Err::<Seq<u32>, Seq<char>>(e),
                (Ok(_), Err(e)) => self.chunks_ids(a + b) == Err::<Seq<u32>, Seq<char>>(e),
            },
        decreases b.len(),
    {
        reveal_with_fuel(TokenizerModel::chunks_ids, 2);
        assert forall|chunk: Seq<char>| #[trigger]
            self.chunks_ids(seq![chunk]) == self.chunk_ids(chunk) by {
            assert(seq![chunk].drop_last() == Seq::<Seq<char>>::empty());
            if self.chunk_ids(chunk) is Ok {
                let ids = self.chunk_ids(chunk)->Ok_0;
                assert(Seq::<u32>::empty() + ids == ids);
            }
        }
        if b.len() == 0 {
            assert(a + b == a);
            if self.chunks_ids(a) is Ok {
                let x = self.chunks_ids(a)->Ok_0;
                assert(x + Seq::<u32>::empty() == x);
            }
        } else {
            assert((a + b).drop_last() == a + b.drop_last());
            assert((a + b).last() == b.last());
            self.chunks_encode_one_by_one(a, b.drop_last());
            if self.chunks_ids(a) is Ok && self.chunks_ids(b.drop_last()) is Ok && self.chunk_ids(
                b.last(),
            ) is Ok {
                let x = self.chunks_ids(a)->Ok_0;
                let y = self.chunks_ids(b.drop_last())->Ok_0;
                let z = self.chunk_ids(b.last())->Ok_0;
                assert((x + y) + z == x + (y + z));
            }
        }
    }
}

impl<S: Add<Output = S> + PartialOrd> TokenizerModel<S> {
    /// A text is encoded segment by segment: a special token gives its id and nothing else, and
    /// the text between is encoded by its chunks or, in Unigram mode, by its best segmentation.
    /// The first failure is the failure of all.
    pub proof fn segments_encode_one_by_one(self, a: Seq<Segment>, b: Seq<Segment>)
        ensures
            self.segments_ids(seq![]) == Ok::<Seq<u32>, Seq<char>>(seq![]),
            forall|literal: Seq<char>| #[trigger]
                self.segments_ids(seq![Segment::Special(literal)]) == Ok::<Seq<u32>, Seq<char>>(
                    seq![self.specials[literal]],
                ),
            forall|text: Seq<char>| #[trigger]
                self.segments_ids(seq![Segment::Text(text)]) == (match self.unigram {
                    None => self.chunks_ids(chunks(text)),
                    Some(u) => match u.segmented(text) {
                        Some(ids) => Ok::<Seq<u32>, Seq<char>>(ids),
                        None => Err(
                            "unigram tokenizer could not segment input (no byte fallback or unk token)"@,
                        ),
                    },
                }),
            match (self.segments_ids(a), self.segments_ids(b)) {
                (Ok(x), Ok(y)) => self.segments_ids(a + b) == Ok::<Seq<u32>, Seq<char>>(x + y),
                (Err(e), _) => self.segments_ids(a + b) == Err::<Seq<u32>, Seq<char>>(e),
                (Ok(_), Err(e)) => self.segments_ids(a + b) == Err::<Seq<u32>, Seq<char>>(e),
            },
        decreases b.len(),
    {
        reveal_with_fuel(TokenizerModel::segments_ids, 2);
        assert forall|literal: Seq<char>| #[trigger]
            self.segments_ids(seq![Segment::Special(literal)]) == Ok::<Seq<u32>, Seq<char>>(
                seq![self.specials[literal]],
            ) by {
            let one = seq![Segment::Special(literal)];
            assert(one.drop_last() == Seq::<Segment>::empty());
            assert(one.last() == Segment::Special(literal));
            let ids = seq![self.specials[literal]];
            assert(Seq::<u32>::empty() + ids == ids);
        }
        assert forall|text: Seq<char>| #[trigger]
            self.segments_ids(seq![Segment::Text(text)]) == self.segment_ids(
                Segment::Text(text),
            ) by {
            let one = seq![Segment::Text(text)];
            assert(one.drop_last() == Seq::<Segment>::empty());
            assert(one.last() == Segment::Text(text));
            if self.segment_ids(Segment::Text(text)) is Ok {
                let ids = self.segment_ids(Segment::Text(text))->Ok_0;
                assert(Seq::<u32>::empty() + ids == ids);
            }
        }
        if b.len() == 0 {
            assert(a + b == a);
            if self.segments_ids(a) is Ok {
                let x = self.segments_ids(a)->Ok_0;
                assert(x + Seq::<u32>::empty() == x);
            }
        } else {
            assert((a + b).drop_last() == a + b.drop_last());
            assert((a + b).last() == b.last());
            self.segments_encode_one_by_one(a, b.drop_last());
            if self.segments_ids(a) is Ok && self.segments_ids(b.drop_last()) is Ok
                && self.segment_ids(b.last()) is Ok {
                let x = self.segments_ids(a)->Ok_0;
                let y = self.segments_ids(b.drop_last())->Ok_0;
                let z = self.segment_ids(b.last())->Ok_0;
                assert((x + y) + z == x + (y + z));
            }
        }
    }

    /// Encoding a text is encoding the segments between and at its special tokens.
    pub proof fn texts_encode_by_segments(self, text: Seq<char>)
        ensures
            self.encoded(text) == self.segments_ids(split(self.specials, text)),
            self.specials.is_empty() ==> self.encoded(text) == (match self.unigram {
                None => self.chunks_ids(chunks(text)),
                Some(u) => match u.segmented(text) {
                    Some(ids) => Ok::<Seq<u32>, Seq<char>>(ids),
                    None => Err(
                        "unigram tokenizer could not segment input (no byte fallback or unk token)"@,
                    ),
                },
            }),
    {
        self.segments_encode_one_by_one(seq![], seq![]);
        if self.specials.is_empty() {
            assert(split(self.specials, text) == seq![Segment::Text(text)]);
        }
    }
}

/// A text is cut before every space that is not in front, and nowhere else.
pub proof fn chunks_are_cut_at_spaces(a: Seq<char>, b: Seq<char>)
    ensures
        chunks(seq![]) == Seq::<Seq<char>>::empty(),
        a.len() > 0 && (forall|i: int| 1 <= i < a.len() ==> a[i] != ' ') ==> chunks(a) == seq![a],
        b.len() > 0 && b[0] == ' ' ==> chunks(a + b) == chunks(a) + chunks(b),
{
    if a.len() > 0 && (forall|i: int| 1 <= i < a.len() ==> a[i] != ' ') {
        lemma_one_chunk(a);
    }
    if b.len() > 0 && b[0] == ' ' {
        lemma_two_chunks(a, b);
    }
}

proof fn lemma_one_chunk(a: Seq<char>)
    requires
        a.len() > 0,
        forall|i: int| 1 <= i < a.len() ==> a[i] != ' ',
    ensures
        chunks(a) == seq![a],
    decreases a.len(),
{
    let init = a.drop_last();
    if init.len() == 0 {
        reveal_with_fuel(chunks, 2);
        assert(a == seq![a.last()]);
        assert(chunks(a) =~= seq![a]);
    } else {
        lemma_one_chunk(init);
        assert(init.push(a.last()) == a);
        assert(chunks(a) =~= seq![a]);
    }
}

proof fn lemma_two_chunks(a: Seq<char>, b: Seq<char>)
    requires
        b.len() > 0,
        b[0] == ' ',
    ensures
        chunks(a + b) == chunks(a) + chunks(b),
        chunks(b).len() > 0,
    decreases b.len(),
{
    let init = b.drop_last();
    let c = b.last();
    assert((a + b).drop_last() == a + init);
    assert((a + b).last() == c);
    reveal_with_fuel(chunks, 2);
    if init.len() == 0 {
        assert(a + init == a);
        assert(chunks(a + b) =~= chunks(a) + chunks(b));
    } else {
        lemma_two_chunks(a, init);
        assert(init[0] == b[0]);
        assert(chunks(a + b) =~= chunks(a) + chunks(b));
    }
}

/// The entries of a list are put in one after the other, each in place of an earlier one with the
/// same text.
pub proof fn entries_are_put_in_order<V>(
    base: Map<Seq<char>, V>,
    a: Seq<(Seq<char>, V)>,
    b: Seq<(Seq<char>, V)>,
)
    ensures
        with_entries(base, seq![]) == base,
        forall|k: Seq<char>, v: V| #[trigger]
            with_entries(base, seq![(k, v)]) == base.insert(k, v),
        with_entries(base, a + b) == with_entries(with_entries(base, a), b),
    decreases b.len(),
{
    reveal_with_fuel(with_entries, 2);
    assert forall|k: Seq<char>, v: V| #[trigger]
        with_entries(base, seq![(k, v)]) == base.insert(k, v) by {
        assert(seq![(k, v)].drop_last() == Seq::<(Seq<char>, V)>::empty());
        assert(seq![(k, v)].last() == (k, v));
    }
    if b.len() == 0 {
        assert(a + b == a);
    } else {
        assert((a + b).drop_last() == a + b.drop_last());
        assert((a + b).last() == b.last());
        entries_are_put_in_order(base, a, b.drop_last());
    }
}

/// Where a text is listed more than once, its last listing counts.
pub proof fn last_listing_counts<V>(base: Map<Seq<char>, V>, list: Seq<(Seq<char>, V)>, i: int)
    requires
        0 <= i < list.len(),
        forall|j: int| i < j < list.len() ==> (#[trigger] list[j]).0 != list[i].0,
    ensures
        with_entries(base, list).contains_key(list[i].0),
        with_entries(base, list)[list[i].0] == list[i].1,
    decreases list.len(),
{
    let init = list.drop_last();
    if i < list.len() - 1 {
        assert(list[list.len() - 1].0 != list[i].0);
        assert forall|j: int| i < j < init.len() implies (#[trigger] init[j]).0 != init[i].0 by {
            assert(list[j].0 != list[i].0);
        }
        last_listing_counts(base, init, i);
    }
}

/// The names of a list are put in one after the other, each in place of an earlier one with the
/// same id.
pub proof fn names_are_put_in_order(
    base: Map<u32, Seq<char>>,
    a: Seq<(Seq<char>, u32)>,
    b: Seq<(Seq<char>, u32)>,
)
    ensures
        with_names(base, seq![]) == base,
        forall|name: Seq<char>, id: u32| #[trigger]
            with_names(base, seq![(name, id)]) == base.insert(id, name),
        with_names(base, a + b) == with_names(with_names(base, a), b),
    decreases b.len(),
{
    reveal_with_fuel(with_names, 2);
    assert forall|name: Seq<char>, id: u32| #[trigger]
        with_names(base, seq![(name, id)]) == base.insert(id, name) by {
        assert(seq![(name, id)].drop_last() == Seq::<(Seq<char>, u32)>::empty());
        assert(seq![(name, id)].last() == (name, id));
    }
    if b.len() == 0 {
        assert(a + b == a);
    } else {
        assert((a + b).drop_last() == a + b.drop_last());
        assert((a + b).last() == b.last());
        names_are_put_in_order(base, a, b.drop_last());
    }
}

/// A byte-level tokenizer has the vocabulary that is listed, ranks its merge rules by the order
/// in which they are listed, and has no special tokens yet.
pub proof fn bpe_tables_are_the_lists<S>(
    vocab: Seq<(Seq<char>, u32)>,
    rules: Seq<(Seq<char>, Seq<char>)>,
)
    ensures
        bpe_model::<S>(vocab, rules).vocab == with_entries(Map::empty(), vocab),
        bpe_model::<S>(vocab, rules).tokens == tokens_of(with_entries(Map::empty(), vocab), vocab),
        bpe_model::<S>(vocab, rules).rules == ranked(rules),
        bpe_model::<S>(vocab, rules).specials == Map::<Seq<char>, u32>::empty(),
        bpe_model::<S>(vocab, rules).special_tokens == Map::<u32, Seq<char>>::empty(),
        bpe_model::<S>(vocab, rules).unigram is None,
{
}

/// The byte tokenizer has one token for each byte, whose id is the byte.
pub proof fn byte_tables_are_bytes<S>()
    ensures
        forall|b: u8|
            #![trigger byte_char(b)]
            {
                let m = bytes_model::<S>();
                &&& m.vocab.contains_key(seq![byte_char(b)])
                &&& m.vocab[seq![byte_char(b)]] == b as u32
                &&& m.tokens.contains_key(b as u32)
                &&& m.tokens[b as u32] == seq![byte_char(b)]
            },
        forall|s: Seq<char>| #[trigger]
            bytes_model::<S>().vocab.contains_key(s) ==> exists|b: u8|
                s == seq![#[trigger] byte_char(b)],
        forall|id: u32| #[trigger] bytes_model::<S>().tokens.contains_key(id) ==> id < 256,
        bytes_model::<S>().rules == Map::<(Seq<char>, Seq<char>), u32>::empty(),
        bytes_model::<S>().specials == Map::<Seq<char>, u32>::empty(),
        bytes_model::<S>().special_tokens == Map::<u32, Seq<char>>::empty(),
        bytes_model::<S>().unigram is None,
{
    let m = bytes_model::<S>();
    assert forall|b: u8|
        #![trigger byte_char(b)]
        {
            &&& m.vocab.contains_key(seq![byte_char(b)])
            &&& m.vocab[seq![byte_char(b)]] == b as u32
            &&& m.tokens.contains_key(b as u32)
            &&& m.tokens[b as u32] == seq![byte_char(b)]
        } by {
        crate::tokenizer::byte_map::char_byte_inverts_byte_char(b);
        assert(seq![byte_char(b)][0] == byte_char(b));
    }
    assert forall|s: Seq<char>| #[trigger] m.vocab.contains_key(s) implies exists|b: u8|
        s == seq![#[trigger] byte_char(b)] by {
        let b = choose|b: u8| #[trigger] byte_char(b) == s[0];
        assert(s =~= seq![byte_char(b)]);
    }
}

/// A Unigram tokenizer has the pieces that are listed, each with its index as its id and with its
/// score; a piece of any listed length can be matched.
pub proof fn unigram_tables_are_the_list<S>(
    pieces: Seq<(Seq<char>, S)>,
    byte_fallback: bool,
    unk_id: Option<u32>,
    scale: ScoreScale<S>,
)
    ensures
        ({
            let m = unigram_model(pieces, byte_fallback, unk_id, scale);
            let list = Seq::new(pieces.len(), |i: int| (pieces[i].0, i as u32));
            &&& m.vocab == with_entries(Map::empty(), list)
            &&& m.tokens == with_names(Map::empty(), list)
            &&& m.specials == Map::<Seq<char>, u32>::empty()
            &&& m.special_tokens == Map::<u32, Seq<char>>::empty()
            &&& m.unigram matches Some(u) && {
                &&& u.ids == m.vocab
                &&& u.scores == with_entries(Map::empty(), pieces)
                &&& u.byte_fallback == byte_fallback
                &&& u.unk_id == unk_id
                &&& u.scale == scale
                &&& u.max_piece_len >= 1
                &&& forall|i: int|
                    0 <= i < pieces.len() ==> (#[trigger] pieces[i]).0.len() <= u.max_piece_len
                &&& u.max_piece_len > 1 ==> exists|i: int|
                    0 <= i < pieces.len() && (#[trigger] pieces[i]).0.len() == u.max_piece_len
            }
        }),
{
    let list = Seq::new(pieces.len(), |i: int| (pieces[i].0, i as u32));
    assert(numbered(pieces) =~= list);
    lemma_longest_piece(pieces);
}

proof fn lemma_longest_piece<S>(pieces: Seq<(Seq<char>, S)>)
    ensures
        longest_piece(pieces) >= 1,
        forall|i: int|
            0 <= i < pieces.len() ==> (#[trigger] pieces[i]).0.len() <= longest_piece(pieces),
        longest_piece(pieces) > 1 ==> exists|i: int|
            0 <= i < pieces.len() && (#[trigger] pieces[i]).0.len() == longest_piece(pieces),
    decreases pieces.len(),
{
    if pieces.len() > 0 {
        let init = pieces.drop_last();
        lemma_longest_piece(init);
        let last = pieces.len() - 1;
        assert(pieces[last] == pieces.last());
        assert forall|i: int| 0 <= i < pieces.len() implies (#[trigger] pieces[i]).0.len()
            <= longest_piece(pieces) by {
            if i < last {
                assert(init[i] == pieces[i]);
            }
        }
        if longest_piece(pieces) > 1 && longest_piece(pieces) == longest_piece(init) {
            let i = choose|i: int|
                0 <= i < init.len() && (#[trigger] init[i]).0.len() == longest_piece(init);
            assert(pieces[i] == init[i]);
        }
    }
}

impl<S> TokenizerModel<S> {
    /// Registering special tokens adds them under their literals and under their ids, and changes
    /// nothing else.
    pub proof fn specials_are_added(self, list: Seq<(Seq<char>, u32)>)
        ensures
            self.with_specials(list).specials == with_entries(self.specials, list),
            self.with_specials(list).special_tokens == with_names(self.special_tokens, list),
            self.with_specials(list).vocab == self.vocab,
            self.with_specials(list).tokens == self.tokens,
            self.with_specials(list).rules == self.rules,
            self.with_specials(list).unigram == self.unigram,
    {
    }
}

/// The bytes that characters stand for: each character is that of its byte. Where some character
/// stands for no byte, the first such is named.
pub proof fn byte_runs_are_read(chars: Seq<char>)
    ensures
        match run_bytes(chars) {
            Ok(bytes) => {
                &&& bytes.len() == chars.len()
                &&& forall|i: int| 0 <= i < chars.len() ==> byte_char(bytes[i]) == #[trigger] chars[i]
            },
            Err(message) => exists|i: int|
                {
                    &&& 0 <= i < chars.len()
                    &&& !is_byte_char(#[trigger] chars[i])
                    &&& message == "char "@ + quoted_char(chars[i]) + " is not a byte token"@
                    &&& forall|j: int| 0 <= j < i ==> is_byte_char(#[trigger] chars[j])
                },
        },
    decreases chars.len(),
{
    if chars.len() > 0 {
        let init = chars.drop_last();
        let last = chars.len() - 1;
        byte_runs_are_read(init);
        assert(chars[last] == chars.last());
        match run_bytes(init) {
            Ok(bytes) => {
                assert forall|i: int| 0 <= i < last implies is_byte_char(#[trigger] chars[i]) by {
                    assert(init[i] == chars[i]);
                    assert(byte_char(bytes[i]) == chars[i]);
                }
                if is_byte_char(chars.last()) {
                    let all = run_bytes(chars)->Ok_0;
                    assert forall|i: int| 0 <= i < chars.len() implies byte_char(all[i])
                        == #[trigger] chars[i] by {
                        if i < last {
                            assert(init[i] == chars[i]);
                            assert(all[i] == bytes[i]);
                        } else {
                            let b = choose|b: u8| #[trigger] byte_char(b) == chars.last();
                            assert(byte_char(b) == chars.last());
                        }
                    }
                }
            },
            Err(message) => {
                let i = choose|i: int|
                    {
                        &&& 0 <= i < init.len()
                        &&& !is_byte_char(#[trigger] init[i])
                        &&& message == "char "@ + quoted_char(init[i]) + " is not a byte token"@
                        &&& forall|j: int| 0 <= j < i ==> is_byte_char(#[trigger] init[j])
                    };
                assert(chars[i] == init[i]);
                assert forall|j: int| 0 <= j < i implies is_byte_char(#[trigger] chars[j]) by {
                    assert(init[j] == chars[j]);
                }
            },
        }
    }
}

/// Bytes that are UTF-8 are read as the text that they encode.
pub proof fn valid_bytes_are_read(bytes: Seq<u8>)
    requires
        valid_utf8(bytes),
    ensures
        lossy_utf8(bytes) == decode_utf8(bytes),
{
}

impl<S> TokenizerModel<S> {
    /// The tokens of ids that name tokens and no special ones.
    spec fn token_texts(self, ids: Seq<u32>) -> Seq<Seq<char>> {
        Seq::new(ids.len(), |i: int| self.tokens[ids[i]])
    }

    proof fn lemma_plain_state(self, ids: Seq<u32>)
        requires
            forall|i: int|
                0 <= i < ids.len() ==> self.tokens.contains_key(#[trigger] ids[i])
                    && !self.special_tokens.contains_key(ids[i]),
        ensures
            self.byte_state(ids) == Ok::<(Seq<char>, Seq<char>), Seq<char>>(
                (seq![], joined(self.token_texts(ids))),
            ),
        decreases ids.len(),
    {
        if ids.len() == 0 {
            assert(self.token_texts(ids) == Seq::<Seq<char>>::empty());
        } else {
            let init = ids.drop_last();
            assert forall|i: int| 0 <= i < init.len() implies self.tokens.contains_key(
                #[trigger] init[i],
            ) && !self.special_tokens.contains_key(init[i]) by {
                assert(ids[i] == init[i]);
            }
            self.lemma_plain_state(init);
            assert(ids[ids.len() - 1] == ids.last());
            let last = self.tokens[ids.last()];
            assert(self.token_texts(ids) == self.token_texts(init) + seq![last]);
            crate::tokenizer::bpe::joined_of_sum(self.token_texts(init), seq![last]);
            crate::tokenizer::bpe::joined_of_one(last);
        }
    }

    /// In byte-level mode, tokens that together spell the characters of `bytes` decode to the
    /// text of `bytes`, however the bytes are shared out over the tokens.
    pub proof fn tokens_decode_as_bytes(self, ids: Seq<u32>, parts: Seq<Seq<char>>, bytes: Seq<u8>)
        requires
            self.unigram is None,
            parts.len() == ids.len(),
            forall|i: int|
                0 <= i < ids.len() ==> self.tokens.contains_key(#[trigger] ids[i])
                    && !self.special_tokens.contains_key(ids[i]) && parts[i]
                    == self.tokens[ids[i]],
            joined(parts).len() == bytes.len(),
            forall|i: int| 0 <= i < bytes.len() ==> #[trigger] joined(parts)[i] == byte_char(bytes[i]),
        ensures
            valid_utf8(bytes) ==> self.decoded(ids) == Ok::<Seq<char>, Seq<char>>(
                decode_utf8(bytes),
            ),
            self.decoded(ids) is Ok,
    {
        self.lemma_plain_state(ids);
        assert(self.token_texts(ids) =~= parts);
        let run = joined(parts);
        assert(run =~= byte_chars(bytes));
        crate::tokenizer::round_trip::byte_chars_read_back(bytes);
        if run.len() == 0 {
            assert(bytes =~= Seq::<u8>::empty());
            vstd::utf8::encode_utf8_decode_utf8(Seq::<char>::empty());
            assert(encode_utf8(Seq::<char>::empty()) =~= bytes);
        } else {
            assert(Seq::<char>::empty() + lossy_utf8(bytes) == lossy_utf8(bytes));
        }
    }

    /// In byte-level mode an id that names nothing is reported, and stops decoding.
    pub proof fn unknown_ids_are_reported(self, ids: Seq<u32>, id: u32, more: Seq<u32>)
        requires
            self.unigram is None,
            self.byte_state(ids) is Ok,
            !self.tokens.contains_key(id),
            !self.special_tokens.contains_key(id),
        ensures
            self.decoded(ids + seq![id] + more) == Err::<Seq<char>, Seq<char>>(
                "unknown token id "@ + decimal(id as nat),
            ),
    {
        self.lemma_state_is_unknown(ids, id, more);
    }

    proof fn lemma_state_is_unknown(self, ids: Seq<u32>, id: u32, more: Seq<u32>)
        requires
            self.byte_state(ids) is Ok,
            !self.tokens.contains_key(id),
            !self.special_tokens.contains_key(id),
        ensures
            self.byte_state(ids + seq![id] + more) == Err::<(Seq<char>, Seq<char>), Seq<char>>(
                "unknown token id "@ + decimal(id as nat),
            ),
        decreases more.len(),
    {
        let all = ids + seq![id] + more;
        if more.len() == 0 {
            assert(all.drop_last() == ids);
            assert(all.last() == id);
        } else {
            self.lemma_state_is_unknown(ids, id, more.drop_last());
            assert(all.drop_last() == ids + seq![id] + more.drop_last());
        }
    }

    /// In byte-level mode a special token cuts: what is before it and what is after it decode by
    /// themselves.
    pub proof fn specials_cut_byte_runs(self, a: Seq<u32>, id: u32, b: Seq<u32>)
        requires
            self.unigram is None,
            self.special_tokens.contains_key(id),
            self.decoded(a) is Ok,
            self.decoded(b) is Ok,
        ensures
            self.decoded(a + seq![id] + b) == Ok::<Seq<char>, Seq<char>>(
                self.decoded(a)->Ok_0 + self.special_tokens[id] + self.decoded(b)->Ok_0,
            ),
    {
        let front = self.decoded(a)->Ok_0 + self.special_tokens[id];
        self.lemma_state_after(a, id, b);
        let (done, run) = self.byte_state(b)->Ok_0;
        if run.len() > 0 {
            let bytes = run_bytes(run)->Ok_0;
            assert(front + (done + lossy_utf8(bytes)) == (front + done) + lossy_utf8(bytes));
        }
    }

    proof fn lemma_state_after(self, a: Seq<u32>, id: u32, b: Seq<u32>)
        requires
            self.unigram is None,
            self.special_tokens.contains_key(id),
            self.decoded(a) is Ok,
            self.byte_state(b) is Ok,
        ensures
            self.byte_state(a + seq![id] + b) == Ok::<(Seq<char>, Seq<char>), Seq<char>>(
                (
                    self.decoded(a)->Ok_0 + self.special_tokens[id] + self.byte_state(b)->Ok_0.0,
                    self.byte_state(b)->Ok_0.1,
                ),
            ),
        decreases b.len(),
    {
        let all = a + seq![id] + b;
        let front = self.decoded(a)->Ok_0 + self.special_tokens[id];
        if b.len() == 0 {
            assert(all.drop_last() == a);
            assert(all.last() == id);
            assert(front + Seq::<char>::empty() == front);
        } else {
            let init = b.drop_last();
            assert(all.drop_last() == a + seq![id] + init);
            assert(all.last() == b.last());
            self.lemma_state_after(a, id, init);
            let (done, run) = self.byte_state(init)->Ok_0;
            if self.special_tokens.contains_key(b.last()) {
                if run.len() > 0 {
                    let bytes = run_bytes(run)->Ok_0;
                    assert(front + (done + lossy_utf8(bytes)) == (front + done) + lossy_utf8(
                        bytes,
                    ));
                    let text = done + lossy_utf8(bytes);
                    let literal = self.special_tokens[b.last()];
                    assert((front + text) + literal == front + (text + literal));
                } else {
                    let literal = self.special_tokens[b.last()];
                    assert((front + done) + literal == front + (done + literal));
                }
            }
        }
    }
}

/// Markers become spaces, and every other character is kept.
pub proof fn markers_become_spaces(text: Seq<char>)
    ensures
        spaced(text).len() == text.len(),
        forall|i: int|
            0 <= i < text.len() ==> #[trigger] spaced(text)[i] == (if text[i] == '\u{2581}' {
                ' '
            } else {
                text[i]
            }),
{
}

impl<S> TokenizerModel<S> {
    /// What the parts of a list of ids add in Unigram mode. An ordinary piece adds its text, with
    /// markers as spaces, behind what was there; a byte piece adds its byte to the run of bytes
    /// before it; a special token adds its literal. At the end one space in front is dropped,
    /// unless a special token put it there.
    pub proof fn pieces_decode_one_by_one(self, ids: Seq<u32>, id: u32)
        requires
            self.unigram is Some,
        ensures
            self.decoded(seq![]) == Ok::<Seq<char>, Seq<char>>(seq![]),
            match self.piece_state(ids) {
                Err(e) => {
                    &&& self.decoded(ids) == Err::<Seq<char>, Seq<char>>(e)
                    &&& self.decoded(ids.push(id)) == Err::<Seq<char>, Seq<char>>(e)
                },
                Ok(state) => {
                    let before = state.text + spaced(flushed_bytes(seq![], state.run));
                    &&& self.decoded(ids) == Ok::<Seq<char>, Seq<char>>(
                        if !state.literal_first && before.len() > 0 && before[0] == ' ' {
                            before.skip(1)
                        } else {
                            before
                        },
                    )
                    &&& if self.special_tokens.contains_key(id) {
                        let literal = self.special_tokens[id];
                        self.piece_state(ids.push(id)) == Ok::<PieceState, Seq<char>>(
                            PieceState {
                                text: before + literal,
                                run: seq![],
                                literal_first: state.literal_first || (before.len() == 0
                                    && literal.len() > 0),
                            },
                        )
                    } else if self.tokens.contains_key(id) {
                        match piece_byte(self.tokens[id]) {
                            Some(b) => self.piece_state(ids.push(id)) == Ok::<
                                PieceState,
                                Seq<char>,
                            >(
                                PieceState {
                                    text: state.text,
                                    run: state.run.push(b),
                                    literal_first: state.literal_first,
                                },
                            ),
                            None => self.piece_state(ids.push(id)) == Ok::<PieceState, Seq<char>>(
                                PieceState {
                                    text: before + spaced(self.tokens[id]),
                                    run: seq![],
                                    literal_first: state.literal_first,
                                },
                            ),
                        }
                    } else {
                        self.decoded(ids.push(id)) == Err::<Seq<char>, Seq<char>>(
                            "unknown token id "@ + decimal(id as nat),
                        )
                    }
                },
            },
    {
        assert(ids.push(id).drop_last() == ids);
        assert(spaced(Seq::<char>::empty()) == Seq::<char>::empty());
        let none = Seq::<char>::empty();
        assert(none + none == none);
    }
}

/// A run of bytes is read as one text: what UTF-8 bytes encode is put behind what was there.
pub proof fn byte_pieces_are_read(done: Seq<char>, run: Seq<u8>)
    ensures
        run.len() == 0 ==> flushed_bytes(done, run) == done,
        run.len() > 0 && valid_utf8(run) ==> flushed_bytes(done, run) == done + decode_utf8(run),
{
}

/// Lists of strings are read in order, as they are.
pub proof fn lists_are_read_in_order<S>(
    names: Seq<String>,
    pairs: Seq<(String, String)>,
    ids: Seq<(String, u32)>,
    scores: Seq<(String, S)>,
)
    ensures
        texts(names).len() == names.len(),
        forall|i: int| 0 <= i < names.len() ==> #[trigger] texts(names)[i] == names[i]@,
        text_pairs(pairs).len() == pairs.len(),
        forall|i: int|
            0 <= i < pairs.len() ==> #[trigger] text_pairs(pairs)[i] == (pairs[i].0@, pairs[i].1@),
        named_ids(ids).len() == ids.len(),
        forall|i: int| 0 <= i < ids.len() ==> #[trigger] named_ids(ids)[i] == (ids[i].0@, ids[i].1),
        named_scores(scores).len() == scores.len(),
        forall|i: int|
            0 <= i < scores.len() ==> #[trigger] named_scores(scores)[i] == (
                scores[i].0@,
                scores[i].1,
            ),
{
}

/// The token of an id is the last one that is listed with it, of those that have it: a token that
/// is listed again later, with another id, has that one. An id without such a token has none.
pub proof fn last_token_of_an_id_counts(
    vocab: Map<Seq<char>, u32>,
    list: Seq<(Seq<char>, u32)>,
    id: u32,
)
    ensures
        tokens_of(vocab, list).contains_key(id) <==> exists|i: int|
            0 <= i < list.len() && (#[trigger] list[i]).1 == id && vocab[list[i].0] == id,
        tokens_of(vocab, list).contains_key(id) ==> exists|i: int|
            {
                &&& 0 <= i < list.len()
                &&& #[trigger] list[i] == (tokens_of(vocab, list)[id], id)
                &&& vocab[list[i].0] == id
                &&& forall|k: int|
                    i < k < list.len() && (#[trigger] list[k]).1 == id ==> vocab[list[k].0] != id
            },
    decreases list.len(),
{
    if list.len() > 0 {
        let init = list.drop_last();
        let n = init.len() as int;
        last_token_of_an_id_counts(vocab, init, id);
        assert forall|i: int| 0 <= i < n implies #[trigger] list[i] == init[i] by {}
        assert(list[n] == list.last());
        let own = list[n].1 == id && vocab[list[n].0] == id;
        if tokens_of(vocab, init).contains_key(id) {
            let i = choose|i: int|
                {
                    &&& 0 <= i < init.len()
                    &&& #[trigger] init[i] == (tokens_of(vocab, init)[id], id)
                    &&& vocab[init[i].0] == id
                    &&& forall|k: int|
                        i < k < init.len() && (#[trigger] init[k]).1 == id ==> vocab[init[k].0]
                            != id
                };
            assert(list[i] == init[i]);
            if !own {
                assert forall|k: int| i < k < list.len() && (#[trigger] list[k]).1 == id implies
                    vocab[list[k].0] != id by {
                    if k < n {
                        assert(init[k] == list[k]);
                    }
                }
                assert(list[i] == (tokens_of(vocab, list)[id], id));
            }
        }
        if exists|i: int| 0 <= i < list.len() && (#[trigger] list[i]).1 == id && vocab[list[i].0]
            == id {
            let i = choose|i: int|
                0 <= i < list.len() && (#[trigger] list[i]).1 == id && vocab[list[i].0] == id;
            if i < n {
                assert(init[i] == list[i]);
            }
        }
        if own {
            assert(list[n] == (tokens_of(vocab, list)[id], id));
        }
    }
}

} // verus!
