//! What a tokenizer says of texts and ids: encoding and decoding as functions.

use crate::text::{decimal, lossy_utf8, quoted, quoted_char};
use crate::tokenizer::bpe::merged;
use crate::tokenizer::byte_map::{byte_char, char_byte, is_byte_char};
use crate::tokenizer::pieces::{chunks, piece_byte};
use crate::tokenizer::special::{split, Segment};
use crate::tokenizer::unigram::{UnigramModel, SPM_SPACE};
use std::ops::Add;
use vstd::prelude::*;
use vstd::utf8::encode_utf8;

verus! {

/// The tables of a tokenizer.
pub struct TokenizerModel<S> {
    /// The id of each token string.
    pub vocab: Map<Seq<char>, u32>,
    /// The token string of each id.
    pub tokens: Map<u32, Seq<char>>,
    /// The rank of each merge rule.
    pub rules: Map<(Seq<char>, Seq<char>), u32>,
    /// The id of each special token.
    pub specials: Map<Seq<char>, u32>,
    /// The special token of each id.
    pub special_tokens: Map<u32, Seq<char>>,
    /// The pieces of the Unigram mode, where the tokenizer is in it.
    pub unigram: Option<UnigramModel<S>>,
}

/// The ids `a` followed by the ids `b`, or the first of the two failures.
pub open spec fn followed_by(
    a: Result<Seq<u32>, Seq<char>>,
    b: Result<Seq<u32>, Seq<char>>,
) -> Result<Seq<u32>, Seq<char>> {
    match (a, b) {
        (Ok(x), Ok(y)) => Ok(x + y),
        (Ok(_), Err(e)) => Err(e),
        (Err(e), _) => Err(e),
    }
}

/// The symbols that a text starts out with: the character of each of its bytes.
pub open spec fn byte_symbols(bytes: Seq<u8>) -> Seq<Seq<char>> {
    Seq::new(bytes.len(), |i: int| seq![byte_char(bytes[i])])
}

/// The message for a symbol without an id.
pub open spec fn missing_token(symbol: Seq<char>) -> Seq<char> {
    "token "@ + quoted(symbol) + " not in vocabulary"@
}

/// The message for a text without a segmentation.
pub open spec fn no_segmentation() -> Seq<char> {
    "unigram tokenizer could not segment input (no byte fallback or unk token)"@
}

/// The message for an id without a token.
pub open spec fn unknown_id(id: u32) -> Seq<char> {
    "unknown token id "@ + decimal(id as nat)
}

/// The message for a character that stands for no byte.
pub open spec fn not_a_byte(c: char) -> Seq<char> {
    "char "@ + quoted_char(c) + " is not a byte token"@
}

/// The bytes that `chars` stand for, or the message for the first that stands for none.
pub open spec fn run_bytes(chars: Seq<char>) -> Result<Seq<u8>, Seq<char>>
    decreases chars.len(),
{
    if chars.len() == 0 {
        Ok(seq![])
    } else {
        match run_bytes(chars.drop_last()) {
            Ok(bytes) => if is_byte_char(chars.last()) {
                Ok(bytes.push(char_byte(chars.last())))
            } else {
                Err(not_a_byte(chars.last()))
            },
            Err(e) => Err(e),
        }
    }
}

/// `done` with the text of a run of byte characters behind it.
pub open spec fn flushed(done: Seq<char>, run: Seq<char>) -> Result<Seq<char>, Seq<char>> {
    if run.len() == 0 {
        Ok(done)
    } else {
        match run_bytes(run) {
            Ok(bytes) => Ok(done + lossy_utf8(bytes)),
            Err(e) => Err(e),
        }
    }
}

/// `done` with the text of a run of bytes behind it.
pub open spec fn flushed_bytes(done: Seq<char>, run: Seq<u8>) -> Seq<char> {
    if run.len() == 0 {
        done
    } else {
        done + lossy_utf8(run)
    }
}

/// `text` with its space markers made spaces.
pub open spec fn spaced(text: Seq<char>) -> Seq<char> {
    Seq::new(
        text.len(),
        |i: int|
            if text[i] == SPM_SPACE {
                ' '
            } else {
                text[i]
            },
    )
}

/// What is decoded in Unigram mode: the text so far, the run of bytes still open, and whether the
/// text starts with the literal of a special token.
#[verifier::ext_equal]
pub struct PieceState {
    pub text: Seq<char>,
    pub run: Seq<u8>,
    pub literal_first: bool,
}

impl PieceState {
    /// The text with that of the open run behind it.
    pub open spec fn flushed(self) -> Seq<char> {
        self.text + spaced(flushed_bytes(seq![], self.run))
    }

    /// After a special token, whose literal is kept as it is.
    pub open spec fn with_literal(self, literal: Seq<char>) -> PieceState {
        PieceState {
            text: self.flushed() + literal,
            run: seq![],
            literal_first: self.literal_first || (self.flushed().len() == 0 && literal.len() > 0),
        }
    }

    /// After a piece: a byte piece adds to the run, any other piece to the text.
    pub open spec fn with_piece(self, piece: Seq<char>) -> PieceState {
        match piece_byte(piece) {
            Some(b) => PieceState { run: self.run.push(b), ..self },
            None => PieceState { text: self.flushed() + spaced(piece), run: seq![], ..self },
        }
    }

    /// The whole text. A space that pieces put in front is dropped.
    pub open spec fn finished(self) -> Seq<char> {
        let text = self.flushed();
        if !self.literal_first && text.len() > 0 && text[0] == ' ' {
            text.skip(1)
        } else {
            text
        }
    }
}

/// The ids of `symbols`.
pub open spec fn symbol_ids(vocab: Map<Seq<char>, u32>, symbols: Seq<Seq<char>>) -> Result<
    Seq<u32>,
    Seq<char>,
>
    decreases symbols.len(),
{
    if symbols.len() == 0 {
        Ok(seq![])
    } else {
        let symbol = symbols.last();
        followed_by(
            symbol_ids(vocab, symbols.drop_last()),
            if vocab.contains_key(symbol) {
                Ok(seq![vocab[symbol]])
            } else {
                Err(missing_token(symbol))
            },
        )
    }
}

impl<S> TokenizerModel<S> {
    /// The ids of one chunk of text: its bytes' symbols are merged, then looked up.
    pub open spec fn chunk_ids(self, chunk: Seq<char>) -> Result<Seq<u32>, Seq<char>> {
        symbol_ids(self.vocab, merged(self.rules, byte_symbols(encode_utf8(chunk))))
    }

    /// The ids of several chunks of text.
    pub open spec fn chunks_ids(self, parts: Seq<Seq<char>>) -> Result<Seq<u32>, Seq<char>>
        decreases parts.len(),
    {
        if parts.len() == 0 {
            Ok(seq![])
        } else {
            followed_by(self.chunks_ids(parts.drop_last()), self.chunk_ids(parts.last()))
        }
    }

    /// The text decoded so far and the run of byte characters still open, after `ids`.
    pub open spec fn byte_state(self, ids: Seq<u32>) -> Result<(Seq<char>, Seq<char>), Seq<char>>
        decreases ids.len(),
    {
        if ids.len() == 0 {
            Ok((seq![], seq![]))
        } else {
            let id = ids.last();
            match self.byte_state(ids.drop_last()) {
                Err(e) => Err(e),
                Ok((done, run)) => if self.special_tokens.contains_key(id) {
                    match flushed(done, run) {
                        Ok(text) => Ok((text + self.special_tokens[id], seq![])),
                        Err(e) => Err(e),
                    }
                } else if self.tokens.contains_key(id) {
                    Ok((done, run + self.tokens[id]))
                } else {
                    Err(unknown_id(id))
                },
            }
        }
    }

    /// What is decoded in Unigram mode after `ids`.
    pub open spec fn piece_state(self, ids: Seq<u32>) -> Result<PieceState, Seq<char>>
        decreases ids.len(),
    {
        if ids.len() == 0 {
            Ok(PieceState { text: seq![], run: seq![], literal_first: false })
        } else {
            let id = ids.last();
            match self.piece_state(ids.drop_last()) {
                Err(e) => Err(e),
                Ok(state) => if self.special_tokens.contains_key(id) {
                    Ok(state.with_literal(self.special_tokens[id]))
                } else if self.tokens.contains_key(id) {
                    Ok(state.with_piece(self.tokens[id]))
                } else {
                    Err(unknown_id(id))
                },
            }
        }
    }

    /// The text of `ids`, or the message for the first fault.
    pub open spec fn decoded(self, ids: Seq<u32>) -> Result<Seq<char>, Seq<char>> {
        if self.unigram is Some {
            match self.piece_state(ids) {
                Ok(state) => Ok(state.finished()),
                Err(e) => Err(e),
            }
        } else {
            match self.byte_state(ids) {
                Ok((done, run)) => flushed(done, run),
                Err(e) => Err(e),
            }
        }
    }
}

impl<S: Add<Output = S> + PartialOrd> TokenizerModel<S> {
    /// The ids of one segment of text.
    pub open spec fn segment_ids(self, segment: Segment) -> Result<Seq<u32>, Seq<char>> {
        match segment {
            Segment::Special(literal) => Ok(seq![self.specials[literal]]),
            Segment::Text(text) => match self.unigram {
                Some(unigram) => match unigram.segmented(text) {
                    Some(ids) => Ok(ids),
                    None => Err(no_segmentation()),
                },
                None => self.chunks_ids(chunks(text)),
            },
        }
    }

    /// The ids of several segments of text.
    pub open spec fn segments_ids(self, segments: Seq<Segment>) -> Result<Seq<u32>, Seq<char>>
        decreases segments.len(),
    {
        if segments.len() == 0 {
            Ok(seq![])
        } else {
            followed_by(self.segments_ids(segments.drop_last()), self.segment_ids(segments.last()))
        }
    }

    /// The ids of `text`, or the message for the first fault.
    pub open spec fn encoded(self, text: Seq<char>) -> Result<Seq<u32>, Seq<char>> {
        self.segments_ids(split(self.specials, text))
    }
}

} // verus!
