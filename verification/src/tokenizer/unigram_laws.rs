//! What decoding gives back of encoding, and which segmentation is chosen, in Unigram mode.

use crate::tokenizer::codec::unigram_model;
use crate::tokenizer::model::{flushed_bytes, spaced, PieceState, TokenizerModel};
use crate::tokenizer::pieces::{byte_piece, byte_piece_reads_back, piece_byte};
use crate::tokenizer::round_trip::{encoding_of_sum, indices_name_pieces};
use crate::tokenizer::special::{split, split_after, text_segment, Segment};
use crate::tokenizer::unigram::{
    normalized, trace, Cell, ScoreScale, UnigramModel, SPM_SPACE,
};
use std::ops::Add;
use vstd::prelude::*;
use vstd::std_specs::cmp::{PartialEqSpec, PartialOrdIs, PartialOrdSpec};
use vstd::std_specs::ops::AddSpec;
use vstd::utf8::{decode_utf8, encode_utf8, encode_utf8_decode_utf8, encode_utf8_valid_utf8};

verus! {

impl<S: Add<Output = S> + PartialOrd> UnigramModel<S> {
    /// Whether `ids` spell `norm[start..end]`: by one piece, or by the byte pieces of one
    /// character.
    pub open spec fn spells(self, norm: Seq<char>, start: int, end: int, ids: Seq<u32>) -> bool {
        let piece = norm.subrange(start, end);
        ||| self.has(piece) && ids == seq![self.ids[piece]]
        ||| {
            &&& start == end - 1
            &&& self.byte_fallback
            &&& self.has_bytes(encode_utf8(piece))
            &&& ids == self.byte_ids(encode_utf8(piece))
        }
    }

    /// Whether every step of the segmentation that the cells record for the prefix of length `n`
    /// is spelled, none of them by the unknown token.
    pub open spec fn spelled(self, norm: Seq<char>, cells: Seq<Cell<S>>, n: int) -> bool
        decreases n,
    {
        n <= 0 || {
            &&& 0 <= cells[n].start < n
            &&& self.spells(norm, cells[n].start, n, cells[n].ids)
            &&& self.spelled(norm, cells, cells[n].start)
        }
    }

    /// Whether the segmentation of `text` does without the unknown token.
    pub open spec fn does_without_unknown(self, text: Seq<char>) -> bool {
        let norm = normalized(text);
        self.spelled(norm, self.cells(norm, norm.len()), norm.len() as int)
    }

    /// A cell of a table is the last cell of a shorter table.
    proof fn lemma_cells_extend(self, norm: Seq<char>, n: nat, i: nat)
        requires
            i <= n,
        ensures
            self.cells(norm, n).len() == n + 1,
            self.cells(norm, n).take(i as int + 1) == self.cells(norm, i),
        decreases n,
    {
        self.lemma_cells_len(norm, n);
        if i < n {
            self.lemma_cells_extend(norm, (n - 1) as nat, i);
            let shorter = self.cells(norm, (n - 1) as nat);
            assert(self.cells(norm, n).take(i as int + 1) == shorter.take(i as int + 1));
        } else {
            assert(self.cells(norm, n).take(i as int + 1) == self.cells(norm, n));
        }
    }

    /// Whether a cell is the end of a segmentation whose last step is one piece.
    spec fn ends_in_piece(
        self,
        norm: Seq<char>,
        cells: Seq<Cell<S>>,
        end: int,
        cell: Cell<S>,
    ) -> bool {
        let piece = norm.subrange(cell.start, end);
        &&& 0 <= cell.start < end
        &&& self.reached(cells[cell.start])
        &&& self.has(piece)
        &&& end - cell.start <= self.max_piece_len
        &&& cell.score == cells[cell.start].score.add_spec(self.scores[piece])
        &&& cell.ids == seq![self.ids[piece]]
        &&& cell.gaps == cells[cell.start].gaps
    }

    /// Whether a cell is the end of a segmentation whose last step covers one character without
    /// a piece.
    spec fn ends_in_fallback(
        self,
        norm: Seq<char>,
        cells: Seq<Cell<S>>,
        end: int,
        cell: Cell<S>,
    ) -> bool {
        &&& cell.start == end - 1
        &&& cell.gaps == cells[end - 1].gaps + 1
        &&& self.reached(cells[end - 1])
        &&& self.char_fallback(norm[end - 1]) matches Some((ids, score)) && {
            &&& cell.ids == ids
            &&& cell.score == cells[end - 1].score.add_spec(self.scale.penalty).add_spec(score)
        }
    }

    proof fn lemma_piece_steps_kind(
        self,
        norm: Seq<char>,
        cells: Seq<Cell<S>>,
        end: int,
        lo: int,
        j: int,
    )
        requires
            0 <= lo,
            end - lo <= self.max_piece_len,
            j <= end,
        ensures
            ({
                let cell = self.piece_steps(norm, cells, end, lo, j);
                cell == self.out_of_reach() || self.ends_in_piece(norm, cells, end, cell)
            }),
        decreases j - lo,
    {
        if j > lo {
            self.lemma_piece_steps_kind(norm, cells, end, lo, j - 1);
        }
    }

    /// A reached cell ends in a piece or in a character that is covered without one.
    proof fn lemma_reached_cell_kind(self, norm: Seq<char>, n: nat, end: int)
        requires
            1 <= end <= n,
            self.scale.floor.eq_spec(&self.scale.floor),
            self.reached(self.cells(norm, n)[end]),
        ensures
            ({
                let cells = self.cells(norm, n);
                ||| self.ends_in_piece(norm, cells, end, cells[end])
                ||| self.ends_in_fallback(norm, cells, end, cells[end])
            }),
    {
        let cells = self.cells(norm, n);
        let shorter = self.cells(norm, (end - 1) as nat);
        self.lemma_cells_extend(norm, n, end as nat);
        self.lemma_cells_extend(norm, n, (end - 1) as nat);
        assert(cells[end] == cells.take(end + 1)[end]);
        assert(cells[end] == self.next_cell(norm, shorter, end));
        assert forall|i: int| 0 <= i < end implies #[trigger] cells[i] == shorter[i] by {
            assert(cells.take(end)[i] == shorter[i]);
        }
        self.lemma_piece_steps_kind(norm, shorter, end, self.first_start(end), end);
    }

    /// A segmentation that succeeds in a model without an unknown token does without it.
    pub proof fn without_unknown_token(self, text: Seq<char>)
        requires
            self.scale.floor.eq_spec(&self.scale.floor),
            text.len() > 0,
            self.segmented(text) is Some,
            self.unk_id is None,
        ensures
            self.does_without_unknown(text),
    {
        let norm = normalized(text);
        self.lemma_cells_len(norm, norm.len());
        assert(self.cells(norm, norm.len()).last() == self.cells(norm, norm.len())[norm.len()
            as int]);
        self.lemma_spelled(norm, norm.len(), norm.len() as int);
    }

    /// A segmentation whose ids do not hold the unknown token does without it.
    pub proof fn without_unknown_id(self, text: Seq<char>, unk: u32)
        requires
            self.scale.floor.eq_spec(&self.scale.floor),
            text.len() > 0,
            self.segmented(text) is Some,
            self.unk_id == Some(unk),
            !self.segmented(text)->Some_0.contains(unk),
        ensures
            self.does_without_unknown(text),
    {
        let norm = normalized(text);
        self.lemma_cells_len(norm, norm.len());
        assert(self.cells(norm, norm.len()).last() == self.cells(norm, norm.len())[norm.len()
            as int]);
        self.lemma_spelled(norm, norm.len(), norm.len() as int);
    }

    proof fn lemma_spelled(self, norm: Seq<char>, n: nat, end: int)
        requires
            0 <= end <= n,
            n == norm.len(),
            self.scale.floor.eq_spec(&self.scale.floor),
            end > 0 ==> self.reached(self.cells(norm, n)[end]),
            self.unk_id matches Some(unk) ==> !trace(self.cells(norm, n), end).contains(unk),
        ensures
            self.spelled(norm, self.cells(norm, n), end),
        decreases end,
    {
        if end > 0 {
            let cells = self.cells(norm, n);
            let cell = cells[end];
            self.lemma_reached_cell_kind(norm, n, end);
            let before = trace(cells, cell.start);
            assert(trace(cells, end) == before + cell.ids);
            if self.unk_id is Some {
                let unk = self.unk_id->Some_0;
                let all = before + cell.ids;
                assert forall|i: int| 0 <= i < before.len() implies before[i] != unk by {
                    assert(all[i] == before[i]);
                    assert(all.contains(all[i]));
                }
                assert forall|i: int| 0 <= i < cell.ids.len() implies cell.ids[i] != unk by {
                    assert(all[before.len() + i] == cell.ids[i]);
                    assert(all.contains(all[before.len() + i]));
                }
            }
            self.lemma_spelled(norm, n, cell.start);
            if !self.ends_in_piece(norm, cells, end, cell) {
                assert(norm.subrange(end - 1, end) == seq![norm[end - 1]]);
                if self.unk_id is Some {
                    let unk = self.unk_id->Some_0;
                    assert(seq![unk][0] == unk);
                }
            }
        }
    }
}

/// Whether some stretch of `text` reads as a byte piece.
pub open spec fn holds_byte_piece(text: Seq<char>) -> bool {
    exists|i: int, j: int|
        0 <= i <= j <= text.len() && piece_byte(#[trigger] text.subrange(i, j)) is Some
}

proof fn lemma_normalized_holds_no_byte_piece(text: Seq<char>, i: int, j: int)
    requires
        !holds_byte_piece(text),
        0 <= i <= j <= normalized(text).len(),
    ensures
        piece_byte(normalized(text).subrange(i, j)) is None,
{
    let norm = normalized(text);
    let piece = norm.subrange(i, j);
    if piece_byte(piece) is Some {
        assert(piece.len() == 6);
        assert forall|k: int| 0 <= k < 6 implies piece[k] != SPM_SPACE by {}
        assert(piece[0] != SPM_SPACE);
        assert(i > 0);
        assert forall|k: int| 0 <= k < 6 implies text[i - 1 + k] == #[trigger] piece[k] by {
            assert(norm[i + k] == piece[k]);
        }
        assert(text.subrange(i - 1, j - 1) == piece);
    }
}

/// The text of the bytes of a pending text is the pending text.
proof fn lemma_flush_bytes(pending: Seq<char>)
    ensures
        flushed_bytes(seq![], encode_utf8(pending)) == pending,
{
    encode_utf8_valid_utf8(pending);
    encode_utf8_decode_utf8(pending);
    let none = Seq::<char>::empty();
    if encode_utf8(pending).len() == 0 {
        assert(decode_utf8(encode_utf8(pending)) == none);
    }
    assert(none + pending == pending);
}

/// What is decoded while `done` is written and `pending` is not, no special token being among
/// the ids.
spec fn halfway(done: Seq<char>, pending: Seq<char>) -> PieceState {
    PieceState { text: spaced(done), run: encode_utf8(pending), literal_first: false }
}

proof fn lemma_halfway_flushed(done: Seq<char>, pending: Seq<char>)
    ensures
        halfway(done, pending).flushed() == spaced(done + pending),
{
    lemma_flush_bytes(pending);
    assert(spaced(done) + spaced(pending) == spaced(done + pending));
}

proof fn lemma_spaced_normalized(text: Seq<char>)
    requires
        forall|i: int| 0 <= i < text.len() ==> text[i] != SPM_SPACE,
    ensures
        spaced(normalized(text)).len() > 0,
        spaced(normalized(text))[0] == ' ',
        spaced(normalized(text)).skip(1) == text,
{
    let norm = normalized(text);
    assert(norm[0] == SPM_SPACE);
    assert(spaced(norm).skip(1) == text);
}

/// A text without a special token is one segment, or none where it is empty.
proof fn lemma_one_segment(specials: Map<Seq<char>, u32>, pending: Seq<char>, text: Seq<char>)
    requires
        forall|i: int|
            0 <= i < split_after(specials, pending, text).len() ==> #[trigger] split_after(
                specials,
                pending,
                text,
            )[i] is Text,
    ensures
        split_after(specials, pending, text) == text_segment(pending + text),
    decreases text.len(),
{
    if text.len() == 0 {
        assert(pending + text == pending);
    } else {
        match crate::tokenizer::special::longest(specials, text) {
            Some(n) if 0 < n <= text.len() => {
                let at = text_segment(pending).len() as int;
                assert(split_after(specials, pending, text)[at] == Segment::Special(
                    text.take(n as int),
                ));
            },
            _ => {
                lemma_one_segment(specials, pending.push(text[0]), text.skip(1));
                assert(pending.push(text[0]) + text.skip(1) == pending + text);
            },
        }
    }
}

impl<S: Add<Output = S> + PartialOrd> TokenizerModel<S> {
    proof fn lemma_byte_ids_decode(
        self,
        before: Seq<u32>,
        state: PieceState,
        bytes: Seq<u8>,
    )
        requires
            self.unigram is Some,
            self.unigram->Some_0.ids == self.vocab,
            self.tokens_invert_vocab(),
            self.piece_state(before) == Ok::<PieceState, Seq<char>>(state),
            self.unigram->Some_0.has_bytes(bytes),
        ensures
            self.piece_state(before + self.unigram->Some_0.byte_ids(bytes)) == Ok::<
                PieceState,
                Seq<char>,
            >(PieceState { run: state.run + bytes, ..state }),
        decreases bytes.len(),
    {
        let u = self.unigram->Some_0;
        let ids = u.byte_ids(bytes);
        if bytes.len() == 0 {
            assert(before + ids == before);
            assert(state.run + bytes == state.run);
        } else {
            let init = bytes.drop_last();
            let b = bytes.last();
            assert(bytes[bytes.len() - 1] == b);
            assert(u.has(byte_piece(b)));
            assert forall|i: int| 0 <= i < init.len() implies u.has(
                byte_piece(#[trigger] init[i]),
            ) by {
                assert(u.has(byte_piece(bytes[i])));
            }
            self.lemma_byte_ids_decode(before, state, init);
            assert((before + ids).drop_last() == before + u.byte_ids(init));
            assert((before + ids).last() == self.vocab[byte_piece(b)]);
            byte_piece_reads_back(b);
            assert((state.run + init).push(b) == state.run + bytes);
        }
    }

    /// After the ids of a prefix, what is decoded and what is pending make up the prefix.
    proof fn lemma_trace_decodes(self, text: Seq<char>, end: int) -> (r: (Seq<char>, Seq<char>))
        requires
            self.unigram is Some,
            self.unigram->Some_0.ids == self.vocab,
            self.tokens_invert_vocab(),
            !holds_byte_piece(text),
            0 <= end <= normalized(text).len(),
            ({
                let norm = normalized(text);
                let u = self.unigram->Some_0;
                u.spelled(norm, u.cells(norm, norm.len()), end)
            }),
        ensures
            ({
                let norm = normalized(text);
                let cells = self.unigram->Some_0.cells(norm, norm.len());
                &&& self.piece_state(trace(cells, end)) == Ok::<PieceState, Seq<char>>(
                    halfway(r.0, r.1),
                )
                &&& r.0 + r.1 == norm.take(end)
            }),
        decreases end,
    {
        let norm = normalized(text);
        let u = self.unigram->Some_0;
        let cells = u.cells(norm, norm.len());
        let none = Seq::<char>::empty();
        if end == 0 {
            assert(norm.take(0) == none + none);
            encode_utf8_decode_utf8(none);
            assert(halfway(none, none) =~= (PieceState {
                text: seq![],
                run: seq![],
                literal_first: false,
            }));
            (none, none)
        } else {
            let cell = cells[end];
            let piece = norm.subrange(cell.start, end);
            let before = trace(cells, cell.start);
            let (done, pending) = self.lemma_trace_decodes(text, cell.start);
            assert(norm.take(end) == norm.take(cell.start) + piece);
            assert(trace(cells, end) == before + cell.ids);
            if u.has(piece) && cell.ids == seq![u.ids[piece]] {
                assert((before + cell.ids).drop_last() == before);
                assert((before + cell.ids).last() == self.vocab[piece]);
                assert(self.vocab.contains_key(piece));
                lemma_normalized_holds_no_byte_piece(text, cell.start, end);
                lemma_halfway_flushed(done, pending);
                let all = done + pending + piece;
                assert(all + none == norm.take(end));
                assert(halfway(done, pending).with_piece(piece) =~= halfway(all, none)) by {
                    assert(spaced(done + pending) + spaced(piece) == spaced(all));
                }
                (all, none)
            } else {
                self.lemma_byte_ids_decode(before, halfway(done, pending), encode_utf8(piece));
                encoding_of_sum(pending, piece);
                assert(done + (pending + piece) == norm.take(end));
                (done, pending + piece)
            }
        }
    }

    /// Decoding gives back what was encoded in Unigram mode, for a text that holds no special
    /// token, no space marker and nothing that reads as a byte piece, and whose segmentation
    /// does without the unknown token.
    pub proof fn unigram_round_trip(self, text: Seq<char>)
        requires
            self.unigram is Some,
            self.unigram->Some_0.ids == self.vocab,
            self.tokens_invert_vocab(),
            self.encoded(text) is Ok,
            forall|i: int|
                0 <= i < split(self.specials, text).len() ==> #[trigger] split(
                    self.specials,
                    text,
                )[i] is Text,
            forall|i: int| 0 <= i < text.len() ==> text[i] != SPM_SPACE,
            !holds_byte_piece(text),
            text.len() > 0 ==> self.unigram->Some_0.does_without_unknown(text),
        ensures
            self.decoded(self.encoded(text)->Ok_0) == Ok::<Seq<char>, Seq<char>>(text),
    {
        let u = self.unigram->Some_0;
        let norm = normalized(text);
        let segments = split(self.specials, text);
        let none = Seq::<char>::empty();
        if !self.specials.is_empty() {
            lemma_one_segment(self.specials, none, text);
            assert(none + text == text);
        }
        reveal_with_fuel(TokenizerModel::segments_ids, 2);
        if segments.len() > 0 {
            assert(segments.last() == Segment::Text(text));
            assert(segments.drop_last() == Seq::<Segment>::empty());
            let ids = self.encoded(text)->Ok_0;
            assert(Seq::<u32>::empty() + u.segmented(text)->Some_0 == u.segmented(text)->Some_0);
            assert(ids == u.segmented(text)->Some_0);
        }
        if text.len() == 0 {
            assert(self.encoded(text)->Ok_0 == Seq::<u32>::empty());
            assert(spaced(none) == none);
            assert(none + none == text);
        } else {
            let (done, pending) = self.lemma_trace_decodes(text, norm.len() as int);
            lemma_halfway_flushed(done, pending);
            assert(norm.take(norm.len() as int) == norm);
            lemma_spaced_normalized(text);
        }
    }
}

/// A Unigram tokenizer without an unknown token and without special tokens decodes what it
/// encodes to the text again, for a text that holds no space marker and nothing that reads as a
/// byte piece; spaces of the text in front are kept.
pub proof fn unigram_model_round_trip<S: Add<Output = S> + PartialOrd>(
    pieces: Seq<(Seq<char>, S)>,
    byte_fallback: bool,
    scale: ScoreScale<S>,
    text: Seq<char>,
)
    requires
        pieces.len() <= 0x1_0000_0000,
        scale.floor.eq_spec(&scale.floor),
        unigram_model(pieces, byte_fallback, None, scale).encoded(text) is Ok,
        forall|i: int| 0 <= i < text.len() ==> text[i] != SPM_SPACE,
        !holds_byte_piece(text),
    ensures
        unigram_model(pieces, byte_fallback, None, scale).decoded(
            unigram_model(pieces, byte_fallback, None, scale).encoded(text)->Ok_0,
        ) == Ok::<Seq<char>, Seq<char>>(text),
{
    let m = unigram_model(pieces, byte_fallback, None, scale);
    let u = m.unigram->Some_0;
    indices_name_pieces(pieces, byte_fallback, None, scale);
    assert(split(m.specials, text) == seq![Segment::Text(text)]);
    if text.len() > 0 {
        reveal_with_fuel(TokenizerModel::segments_ids, 2);
        assert(seq![Segment::Text(text)].drop_last() == Seq::<Segment>::empty());
        u.without_unknown_token(text);
    }
    m.unigram_round_trip(text);
}

/// A way to cut a text into pieces, and characters covered without one: the ids it gives, how
/// many characters it covers without a piece, and its score.
pub struct Segmentation<S> {
    pub ids: Seq<u32>,
    pub gaps: nat,
    pub score: S,
}

/// Whether `a` is better than `b`: fewer characters without a piece, or as many and a greater
/// score.
pub open spec fn outranks<S: PartialOrd>(a: Segmentation<S>, b: Segmentation<S>) -> bool {
    a.gaps < b.gaps || (a.gaps == b.gaps && exceeds(a.score, b.score))
}

impl<S: Add<Output = S> + PartialOrd> UnigramModel<S> {
    /// Whether `norm[..end]` can be cut in this way.
    pub open spec fn achieves(self, norm: Seq<char>, end: int, way: Segmentation<S>) -> bool
        decreases end,
    {
        if end <= 0 {
            way == (Segmentation { ids: seq![], gaps: 0, score: self.scale.zero })
        } else {
            exists|start: int, before: Segmentation<S>|
                0 <= start < end && self.achieves(norm, start, before) && #[trigger] self.extends(
                    norm,
                    start,
                    end,
                    before,
                    way,
                )
        }
    }

    /// Whether one step from `start` to `end` makes `after` of `before`: a piece, which adds its
    /// id and its score, or a character covered without one.
    pub open spec fn extends(
        self,
        norm: Seq<char>,
        start: int,
        end: int,
        before: Segmentation<S>,
        after: Segmentation<S>,
    ) -> bool {
        let piece = norm.subrange(start, end);
        ||| {
            &&& end - start <= self.max_piece_len
            &&& self.has(piece)
            &&& after == (Segmentation {
                ids: before.ids + seq![self.ids[piece]],
                gaps: before.gaps,
                score: before.score.add_spec(self.scores[piece]),
            })
        }
        ||| {
            &&& start == end - 1
            &&& self.char_fallback(norm[end - 1]) matches Some((ids, score)) && after == (
            Segmentation {
                ids: before.ids + ids,
                gaps: before.gaps + 1,
                score: before.score.add_spec(self.scale.penalty).add_spec(score),
            })
        }
    }

    /// The segmentation that is chosen for `text`.
    pub open spec fn chosen(self, text: Seq<char>) -> Segmentation<S> {
        let norm = normalized(text);
        self.recorded(norm, norm.len(), norm.len() as int)
    }

    /// The segmentation of `norm[..end]` that the cells up to length `n` record.
    pub open spec fn recorded(self, norm: Seq<char>, n: nat, end: int) -> Segmentation<S> {
        let cells = self.cells(norm, n);
        Segmentation { ids: trace(cells, end), gaps: cells[end].gaps, score: cells[end].score }
    }

    /// Whether `x` is added to a score by some step of a segmentation.
    pub open spec fn is_step(self, x: S) -> bool {
        ||| x == self.scale.penalty
        ||| exists|piece: Seq<char>| #[trigger] self.has(piece) && x == self.scores[piece]
        ||| exists|c: char|
            (#[trigger] self.char_fallback(c)) is Some && x == self.char_fallback(c)->Some_0.1
    }

    /// Whether comparing scores means something: on the `proper` scores, among which the sums
    /// are, "not greater" is a preorder that adding a step keeps; what equals the floor stays
    /// there and exceeds nothing, what does not exceeds the floor, and whether a step leads from
    /// there to the floor depends on the step alone.
    pub open spec fn adds_up(self, proper: spec_fn(S) -> bool) -> bool {
        &&& proper(self.scale.zero)
        &&& proper(self.scale.floor)
        &&& forall|a: S, x: S|
            proper(a) && self.is_step(x) ==> proper(#[trigger] a.add_spec(x))
        &&& forall|a: S, b: S|
            proper(a) && proper(b) && #[trigger] exceeds(a, b) ==> !exceeds(b, a)
        &&& forall|a: S, b: S, c: S|
            #![trigger exceeds(a, b), exceeds(b, c)]
            proper(a) && proper(b) && proper(c) && !exceeds(a, b) && !exceeds(b, c) ==> !exceeds(
                a,
                c,
            )
        &&& forall|a: S, b: S, x: S|
            #![trigger a.add_spec(x), b.add_spec(x)]
            proper(a) && proper(b) && self.is_step(x) && !exceeds(a, b) ==> !exceeds(
                a.add_spec(x),
                b.add_spec(x),
            )
        &&& forall|a: S, x: S|
            proper(a) && self.is_step(x) && a.eq_spec(&self.scale.floor) ==> (
            #[trigger] a.add_spec(x)).eq_spec(&self.scale.floor)
        &&& forall|a: S, b: S|
            proper(a) && proper(b) && a.eq_spec(&self.scale.floor) ==> !#[trigger] exceeds(a, b)
        &&& forall|a: S|
            proper(a) && !a.eq_spec(&self.scale.floor) ==> #[trigger] exceeds(a, self.scale.floor)
        &&& forall|a: S, b: S, x: S|
            #![trigger a.add_spec(x), b.add_spec(x)]
            {
                &&& proper(a)
                &&& proper(b)
                &&& self.is_step(x)
                &&& !a.eq_spec(&self.scale.floor)
                &&& !b.eq_spec(&self.scale.floor)
                &&& !a.add_spec(x).eq_spec(&self.scale.floor)
            } ==> !b.add_spec(x).eq_spec(&self.scale.floor)
    }

    /// Whether a reached cell is at least as good as a segmentation with so many gaps and this
    /// score.
    spec fn holds_against(self, cell: Cell<S>, gaps: nat, score: S) -> bool {
        &&& self.reached(cell)
        &&& cell.gaps < gaps || (cell.gaps == gaps && !exceeds(score, cell.score))
    }

    /// What `cur` holds against, the better of `cur` and `new` holds against too, and it holds
    /// against `new`.
    proof fn lemma_better_holds(
        self,
        new: Cell<S>,
        cur: Cell<S>,
        gaps: nat,
        score: S,
        proper: spec_fn(S) -> bool,
    )
        requires
            self.adds_up(proper),
            proper(new.score),
            proper(cur.score),
            proper(score),
        ensures
            ({
                let kept = if self.preferred(new, cur) {
                    new
                } else {
                    cur
                };
                &&& self.holds_against(cur, gaps, score) ==> self.holds_against(kept, gaps, score)
                &&& !new.score.eq_spec(&self.scale.floor) ==> self.holds_against(
                    kept,
                    new.gaps,
                    new.score,
                )
            }),
    {
        let floor = self.scale.floor;
        assert(!exceeds(new.score, new.score));
        assert(exceeds(new.score, cur.score) ==> !exceeds(cur.score, new.score));
        assert(exceeds(new.score, floor) ==> !new.score.eq_spec(&floor));
        assert(!new.score.eq_spec(&floor) ==> exceeds(new.score, floor));
        assert(!exceeds(score, cur.score) && !exceeds(cur.score, new.score) ==> !exceeds(
            score,
            new.score,
        ));
    }

    proof fn lemma_piece_step_scores(
        self,
        norm: Seq<char>,
        cells: Seq<Cell<S>>,
        end: int,
        lo: int,
        j: int,
        proper: spec_fn(S) -> bool,
    )
        requires
            self.adds_up(proper),
            0 <= lo,
            j <= end,
            forall|i: int| 0 <= i < end ==> proper((#[trigger] cells[i]).score),
        ensures
            proper(self.piece_steps(norm, cells, end, lo, j).score),
        decreases j - lo,
    {
        if j > lo {
            self.lemma_piece_step_scores(norm, cells, end, lo, j - 1, proper);
            let piece = norm.subrange(j - 1, end);
            assert(proper(cells[j - 1].score));
            if self.has(piece) {
                assert(self.is_step(self.scores[piece]));
            }
        }
    }

    /// The best of the steps by a piece holds against each of them.
    proof fn lemma_piece_steps_hold(
        self,
        norm: Seq<char>,
        cells: Seq<Cell<S>>,
        end: int,
        lo: int,
        j: int,
        start: int,
        proper: spec_fn(S) -> bool,
    )
        requires
            self.adds_up(proper),
            0 <= lo <= start < j <= end,
            forall|i: int| 0 <= i < end ==> proper((#[trigger] cells[i]).score),
            self.reached(cells[start]),
            self.has(norm.subrange(start, end)),
            !cells[start].score.add_spec(self.scores[norm.subrange(start, end)]).eq_spec(
                &self.scale.floor,
            ),
        ensures
            self.holds_against(
                self.piece_steps(norm, cells, end, lo, j),
                cells[start].gaps,
                cells[start].score.add_spec(self.scores[norm.subrange(start, end)]),
            ),
        decreases j - lo,
    {
        let gaps = cells[start].gaps;
        let x = self.scores[norm.subrange(start, end)];
        assert(proper(cells[start].score));
        assert(self.is_step(x));
        let score = cells[start].score.add_spec(x);
        assert(proper(score));
        self.lemma_piece_step_scores(norm, cells, end, lo, j - 1, proper);
        let cur = self.piece_steps(norm, cells, end, lo, j - 1);
        if start < j - 1 {
            self.lemma_piece_steps_hold(norm, cells, end, lo, j - 1, start, proper);
        }
        let piece = norm.subrange(j - 1, end);
        if self.reached(cells[j - 1]) && self.has(piece) {
            assert(proper(cells[j - 1].score));
            assert(self.is_step(self.scores[piece]));
            let new = Cell {
                score: cells[j - 1].score.add_spec(self.scores[piece]),
                start: j - 1,
                ids: seq![self.ids[piece]],
                gaps: cells[j - 1].gaps,
            };
            assert(proper(new.score));
            self.lemma_better_holds(new, cur, gaps, score, proper);
        }
    }

    /// The next cell holds against every step to it from a reached cell.
    proof fn lemma_next_cell_holds(
        self,
        norm: Seq<char>,
        cells: Seq<Cell<S>>,
        end: int,
        start: int,
        after: Segmentation<S>,
        proper: spec_fn(S) -> bool,
    )
        requires
            self.adds_up(proper),
            0 <= start < end,
            forall|i: int| 0 <= i < end ==> proper((#[trigger] cells[i]).score),
            self.reached(cells[start]),
            self.extends(
                norm,
                start,
                end,
                Segmentation {
                    ids: seq![],
                    gaps: cells[start].gaps,
                    score: cells[start].score,
                },
                after,
            ),
            !after.score.eq_spec(&self.scale.floor),
        ensures
            self.holds_against(self.next_cell(norm, cells, end), after.gaps, after.score),
    {
        let lo = self.first_start(end);
        self.lemma_piece_step_scores(norm, cells, end, lo, end, proper);
        let cur = self.piece_steps(norm, cells, end, lo, end);
        let last = cells[end - 1].score;
        assert(proper(last) && proper(cells[start].score));
        assert(self.is_step(self.scale.penalty));
        let piece = norm.subrange(start, end);
        let by_piece = end - start <= self.max_piece_len && self.has(piece) && after.gaps
            == cells[start].gaps && after.score == cells[start].score.add_spec(self.scores[piece]);
        if by_piece {
            assert(self.is_step(self.scores[piece]));
            self.lemma_piece_steps_hold(norm, cells, end, lo, end, start, proper);
        }
        let fallback = self.char_fallback(norm[end - 1]);
        if fallback is Some {
            assert(self.is_step(fallback->Some_0.1));
            assert(proper(last.add_spec(self.scale.penalty)));
            let new = Cell {
                score: last.add_spec(self.scale.penalty).add_spec(fallback->Some_0.1),
                start: end - 1,
                ids: fallback->Some_0.0,
                gaps: cells[end - 1].gaps + 1,
            };
            assert(proper(new.score));
            assert(proper(after.score));
            if self.reached(cells[end - 1]) {
                self.lemma_better_holds(new, cur, after.gaps, after.score, proper);
            }
        }
    }

    proof fn lemma_cells_are_proper(
        self,
        norm: Seq<char>,
        n: nat,
        proper: spec_fn(S) -> bool,
    )
        requires
            self.adds_up(proper),
        ensures
            self.cells(norm, n).len() == n + 1,
            forall|i: int| 0 <= i <= n ==> proper((#[trigger] self.cells(norm, n)[i]).score),
        decreases n,
    {
        self.lemma_cells_len(norm, n);
        if n > 0 {
            let end = n as int;
            let shorter = self.cells(norm, (n - 1) as nat);
            self.lemma_cells_are_proper(norm, (n - 1) as nat, proper);
            self.lemma_piece_step_scores(norm, shorter, end, self.first_start(end), end, proper);
            assert(self.is_step(self.scale.penalty));
            let last = shorter[end - 1].score;
            assert(proper(last));
            assert(proper(last.add_spec(self.scale.penalty)));
            let fallback = self.char_fallback(norm[end - 1]);
            if fallback is Some {
                assert(self.is_step(fallback->Some_0.1));
            }
        }
    }

    proof fn lemma_not_beaten(
        self,
        norm: Seq<char>,
        n: nat,
        end: int,
        way: Segmentation<S>,
        proper: spec_fn(S) -> bool,
    )
        requires
            self.adds_up(proper),
            0 <= end <= n,
            self.achieves(norm, end, way),
        ensures
            proper(way.score),
            !way.score.eq_spec(&self.scale.floor) ==> self.holds_against(
                self.cells(norm, n)[end],
                way.gaps,
                way.score,
            ),
        decreases end,
    {
        let cells = self.cells(norm, n);
        let floor = self.scale.floor;
        self.lemma_cells_extend(norm, n, end as nat);
        assert(cells[end] == cells.take(end + 1)[end]);
        self.lemma_cells_are_proper(norm, n, proper);
        if end == 0 {
            assert(!exceeds(way.score, way.score));
        } else {
            let shorter = self.cells(norm, (end - 1) as nat);
            self.lemma_cells_extend(norm, n, (end - 1) as nat);
            self.lemma_cells_are_proper(norm, (end - 1) as nat, proper);
            assert(cells[end] == self.next_cell(norm, shorter, end));
            let (start, before) = choose|start: int, before: Segmentation<S>|
                0 <= start < end && self.achieves(norm, start, before) && #[trigger] self.extends(
                    norm,
                    start,
                    end,
                    before,
                    way,
                );
            self.lemma_not_beaten(norm, n, start, before, proper);
            assert(cells[start] == shorter[start]) by {
                assert(cells.take(end)[start] == shorter[start]);
            }
            let from = shorter[start];
            assert(proper(from.score));
            assert(self.is_step(self.scale.penalty));
            let piece = norm.subrange(start, end);
            let by_piece = end - start <= self.max_piece_len && self.has(piece) && way.gaps
                == before.gaps && way.score == before.score.add_spec(self.scores[piece]);
            if by_piece {
                let x = self.scores[piece];
                assert(self.is_step(x));
                assert(proper(before.score.add_spec(x)));
                let next = Segmentation {
                    ids: Seq::<u32>::empty() + seq![self.ids[piece]],
                    gaps: from.gaps,
                    score: from.score.add_spec(x),
                };
                assert(proper(next.score));
                if !way.score.eq_spec(&floor) {
                    assert(!before.score.eq_spec(&floor));
                    assert(!next.score.eq_spec(&floor));
                    self.lemma_next_cell_holds(norm, shorter, end, start, next, proper);
                    self.lemma_holds_transitively(cells[end], next, way, proper);
                }
            } else {
                let (ids, f) = self.char_fallback(norm[end - 1])->Some_0;
                let p = self.scale.penalty;
                assert(self.is_step(f));
                assert(proper(before.score.add_spec(p)) && proper(from.score.add_spec(p)));
                assert(proper(before.score.add_spec(p).add_spec(f)));
                let next = Segmentation {
                    ids: Seq::<u32>::empty() + ids,
                    gaps: from.gaps + 1,
                    score: from.score.add_spec(p).add_spec(f),
                };
                assert(proper(next.score));
                if !way.score.eq_spec(&floor) {
                    assert(!before.score.add_spec(p).eq_spec(&floor));
                    assert(!before.score.eq_spec(&floor));
                    assert(!from.score.add_spec(p).eq_spec(&floor));
                    assert(!next.score.eq_spec(&floor));
                    self.lemma_next_cell_holds(norm, shorter, end, start, next, proper);
                    self.lemma_holds_transitively(cells[end], next, way, proper);
                }
            }
        }
    }

    proof fn lemma_holds_transitively(
        self,
        cell: Cell<S>,
        next: Segmentation<S>,
        way: Segmentation<S>,
        proper: spec_fn(S) -> bool,
    )
        requires
            self.adds_up(proper),
            proper(cell.score),
            proper(next.score),
            proper(way.score),
            self.holds_against(cell, next.gaps, next.score),
            next.gaps < way.gaps || (next.gaps == way.gaps && !exceeds(way.score, next.score)),
        ensures
            self.holds_against(cell, way.gaps, way.score),
    {
        assert(!exceeds(way.score, next.score) && !exceeds(next.score, cell.score) ==> !exceeds(
            way.score,
            cell.score,
        ));
    }

    proof fn lemma_achieved(self, norm: Seq<char>, n: nat, end: int)
        requires
            0 <= end <= n,
            self.scale.floor.eq_spec(&self.scale.floor),
            end > 0 ==> self.reached(self.cells(norm, n)[end]),
        ensures
            self.achieves(norm, end, self.recorded(norm, n, end)),
        decreases end,
    {
        let cells = self.cells(norm, n);
        if end == 0 {
            self.lemma_cells_extend(norm, n, 0);
            assert(cells[0] == cells.take(1)[0]);
        } else {
            let cell = cells[end];
            self.lemma_reached_cell_kind(norm, n, end);
            self.lemma_achieved(norm, n, cell.start);
            assert(self.extends(
                norm,
                cell.start,
                end,
                self.recorded(norm, n, cell.start),
                self.recorded(norm, n, end),
            ));
        }
    }

    /// The segmentation that is chosen is the best: the ids are those of a way to cut the text
    /// into pieces and characters covered without one, whose scores add up to the score recorded
    /// for the whole text, and no way with a score above the floor outranks it.
    pub proof fn segmentation_is_best(
        self,
        text: Seq<char>,
        other: Segmentation<S>,
        proper: spec_fn(S) -> bool,
    )
        requires
            self.adds_up(proper),
            self.scale.floor.eq_spec(&self.scale.floor),
            text.len() > 0,
        ensures
            ({
                let norm = normalized(text);
                &&& self.segmented(text) matches Some(ids) ==> {
                    &&& ids == self.chosen(text).ids
                    &&& self.achieves(norm, norm.len() as int, self.chosen(text))
                }
                &&& self.achieves(norm, norm.len() as int, other) && !other.score.eq_spec(
                    &self.scale.floor,
                ) ==> self.segmented(text) is Some && !outranks(other, self.chosen(text))
            }),
    {
        let norm = normalized(text);
        let cells = self.cells(norm, norm.len());
        self.lemma_cells_len(norm, norm.len());
        assert(cells.last() == cells[norm.len() as int]);
        if self.segmented(text) is Some {
            self.lemma_achieved(norm, norm.len(), norm.len() as int);
        }
        if self.achieves(norm, norm.len() as int, other) {
            self.lemma_not_beaten(norm, norm.len(), norm.len() as int, other, proper);
        }
    }

    /// A text that pieces alone can cover is covered by pieces alone: neither byte pieces nor
    /// the unknown token stand in for any of its characters.
    pub proof fn pieces_come_first(
        self,
        text: Seq<char>,
        other: Segmentation<S>,
        proper: spec_fn(S) -> bool,
    )
        requires
            self.adds_up(proper),
            self.scale.floor.eq_spec(&self.scale.floor),
            text.len() > 0,
            self.achieves(normalized(text), normalized(text).len() as int, other),
            !other.score.eq_spec(&self.scale.floor),
            other.gaps == 0,
        ensures
            self.segmented(text) is Some,
            self.chosen(text).gaps == 0,
    {
        self.segmentation_is_best(text, other, proper);
    }
}

impl<S: Add<Output = S> + PartialOrd> UnigramModel<S> {
    /// Whether the scores of segmentations stay off the floor: on the `proper` scores, none of
    /// which equals it and all of which exceed it, steps lead to proper scores.
    pub open spec fn stays_off_floor(self, proper: spec_fn(S) -> bool) -> bool {
        &&& proper(self.scale.zero)
        &&& forall|a: S, x: S|
            proper(a) && self.is_step(x) ==> proper(#[trigger] a.add_spec(x))
        &&& forall|a: S|
            proper(a) ==> !a.eq_spec(&self.scale.floor) && #[trigger] exceeds(a, self.scale.floor)
    }

    /// A cell that is reached has a proper score.
    proof fn lemma_reached_is_proper(
        self,
        norm: Seq<char>,
        n: nat,
        i: int,
        proper: spec_fn(S) -> bool,
    )
        requires
            self.stays_off_floor(proper),
            self.scale.floor.eq_spec(&self.scale.floor),
            0 <= i <= n,
        ensures
            self.reached(self.cells(norm, n)[i]) ==> proper(self.cells(norm, n)[i].score),
        decreases i,
    {
        let cells = self.cells(norm, n);
        if i == 0 {
            self.lemma_cells_extend(norm, n, 0);
            assert(cells[0] == cells.take(1)[0]);
        } else if self.reached(cells[i]) {
            self.lemma_reached_cell_kind(norm, n, i);
            let start = cells[i].start;
            self.lemma_reached_is_proper(norm, n, start, proper);
            assert(self.is_step(self.scale.penalty));
            let piece = norm.subrange(start, i);
            if self.ends_in_piece(norm, cells, i, cells[i]) {
                assert(self.is_step(self.scores[piece]));
            } else {
                let f = self.char_fallback(norm[i - 1])->Some_0.1;
                assert(self.is_step(f));
                assert(proper(cells[start].score.add_spec(self.scale.penalty)));
            }
        }
    }

    proof fn lemma_all_reached(
        self,
        norm: Seq<char>,
        n: nat,
        i: int,
        proper: spec_fn(S) -> bool,
    )
        requires
            self.stays_off_floor(proper),
            self.scale.floor.eq_spec(&self.scale.floor),
            forall|c: char| (#[trigger] self.char_fallback(c)) is Some,
            0 <= i <= n,
        ensures
            self.reached(self.cells(norm, n)[i]),
        decreases i,
    {
        let cells = self.cells(norm, n);
        self.lemma_cells_extend(norm, n, i as nat);
        assert(cells[i] == cells.take(i + 1)[i]);
        assert(exceeds(self.scale.zero, self.scale.floor));
        if i > 0 {
            let shorter = self.cells(norm, (i - 1) as nat);
            self.lemma_cells_extend(norm, n, (i - 1) as nat);
            assert(cells[i] == self.next_cell(norm, shorter, i));
            assert(cells[i - 1] == cells.take(i)[i - 1]);
            self.lemma_all_reached(norm, n, i - 1, proper);
            self.lemma_reached_is_proper(norm, n, i - 1, proper);
            let last = shorter[i - 1].score;
            assert(self.is_step(self.scale.penalty));
            let fallback = self.char_fallback(norm[i - 1]);
            assert(fallback is Some);
            assert(self.is_step(fallback->Some_0.1));
            assert(proper(last.add_spec(self.scale.penalty)));
            let next = last.add_spec(self.scale.penalty).add_spec(fallback->Some_0.1);
            assert(proper(next));
            assert(exceeds(next, self.scale.floor));
        }
    }

    /// Where every character can be covered without a piece, every text has a segmentation.
    pub proof fn fallback_covers_every_text(self, text: Seq<char>, proper: spec_fn(S) -> bool)
        requires
            self.stays_off_floor(proper),
            self.scale.floor.eq_spec(&self.scale.floor),
            forall|c: char| (#[trigger] self.char_fallback(c)) is Some,
        ensures
            self.segmented(text) is Some,
    {
        let norm = normalized(text);
        self.lemma_all_reached(norm, norm.len(), norm.len() as int, proper);
        self.lemma_cells_len(norm, norm.len());
        let cells = self.cells(norm, norm.len());
        assert(cells.last() == cells[norm.len() as int]);
    }

    /// Whether every character that the cells cover without a piece, in the segmentation that
    /// they record for the prefix of length `n`, has no piece of its own.
    pub open spec fn gaps_are_unmatched(self, norm: Seq<char>, cells: Seq<Cell<S>>, n: int) -> bool
        decreases n,
    {
        n <= 0 || {
            &&& 0 <= cells[n].start < n
            &&& cells[n].gaps > cells[cells[n].start].gaps ==> !self.has(seq![norm[n - 1]])
            &&& self.gaps_are_unmatched(norm, cells, cells[n].start)
        }
    }

    proof fn lemma_gaps_are_unmatched(
        self,
        norm: Seq<char>,
        n: nat,
        end: int,
        proper: spec_fn(S) -> bool,
    )
        requires
            self.stays_off_floor(proper),
            self.scale.floor.eq_spec(&self.scale.floor),
            self.max_piece_len >= 1,
            0 <= end <= n,
            n == norm.len(),
            end > 0 ==> self.reached(self.cells(norm, n)[end]),
        ensures
            self.gaps_are_unmatched(norm, self.cells(norm, n), end),
        decreases end,
    {
        if end > 0 {
            let cells = self.cells(norm, n);
            let cell = cells[end];
            self.lemma_reached_cell_kind(norm, n, end);
            self.lemma_gaps_are_unmatched(norm, n, cell.start, proper);
            let own = norm.subrange(end - 1, end);
            assert(own == seq![norm[end - 1]]);
            if !self.ends_in_piece(norm, cells, end, cell) && self.has(own) {
                let shorter = self.cells(norm, (end - 1) as nat);
                self.lemma_cells_extend(norm, n, end as nat);
                self.lemma_cells_extend(norm, n, (end - 1) as nat);
                assert(cell == cells.take(end + 1)[end]);
                assert(cell == self.next_cell(norm, shorter, end));
                assert(cells[end - 1] == cells.take(end)[end - 1]);
                self.lemma_reached_is_proper(norm, n, end - 1, proper);
                let lo = self.first_start(end);
                let cur = self.piece_steps(norm, shorter, end, lo, end);
                let score = shorter[end - 1].score.add_spec(self.scores[own]);
                assert(self.is_step(self.scores[own]));
                assert(proper(score));
                assert(exceeds(score, self.scale.floor));
                self.lemma_piece_steps_kind(norm, shorter, end, lo, end - 1);
                assert(self.reached(cur) && cur.gaps <= shorter[end - 1].gaps);
                assert(cell == cur);
            }
        }
    }

    /// A character is covered without a piece only where it has no piece of its own, whatever
    /// the scores are.
    pub proof fn unknown_means_unmatched(self, text: Seq<char>, proper: spec_fn(S) -> bool)
        requires
            self.stays_off_floor(proper),
            self.scale.floor.eq_spec(&self.scale.floor),
            self.max_piece_len >= 1,
            text.len() > 0,
            self.segmented(text) is Some,
        ensures
            ({
                let norm = normalized(text);
                self.gaps_are_unmatched(norm, self.cells(norm, norm.len()), norm.len() as int)
            }),
    {
        let norm = normalized(text);
        self.lemma_cells_len(norm, norm.len());
        let cells = self.cells(norm, norm.len());
        assert(cells.last() == cells[norm.len() as int]);
        self.lemma_gaps_are_unmatched(norm, norm.len(), norm.len() as int, proper);
    }
}

/// Whether score `a` is greater than score `b`.
pub open spec fn exceeds<S: PartialOrd>(a: S, b: S) -> bool {
    a.is_gt(&b)
}

} // verus!
