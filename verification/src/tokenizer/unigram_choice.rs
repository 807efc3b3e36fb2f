//! Which segmentation is taken where several are as good.

use crate::tokenizer::pieces::byte_piece;
use crate::tokenizer::score::WholeScore;
use crate::tokenizer::unigram::{normalized, trace, Cell, UnigramModel};
use std::ops::Add;
use vstd::prelude::*;
use vstd::std_specs::ops::AddSpec;
use vstd::utf8::encode_utf8;

verus! {

/// A text is segmented with a marker in front and one in place of each space; every other
/// character stays.
pub proof fn spaces_become_markers(text: Seq<char>)
    ensures
        normalized(text).len() == text.len() + 1,
        normalized(text)[0] == '\u{2581}',
        forall|i: int|
            0 <= i < text.len() ==> #[trigger] normalized(text)[i + 1] == (if text[i] == ' ' {
                '\u{2581}'
            } else {
                text[i]
            }),
{
}

impl<S: Add<Output = S> + PartialOrd> UnigramModel<S> {
    /// A piece is in the vocabulary where it has an id and a score.
    pub proof fn pieces_have_ids_and_scores(self, piece: Seq<char>)
        ensures
            self.has(piece) <==> self.ids.contains_key(piece) && self.scores.contains_key(piece),
    {
    }

    /// A character without a piece is spelled by the pieces of its bytes, one id for each, where
    /// that is wanted and they are all there; else it is the unknown token, where there is one;
    /// else it is not covered. The score of byte pieces is the sum of theirs, that of the unknown
    /// token nothing.
    pub proof fn characters_fall_back_to_bytes(self, c: char, bytes: Seq<u8>, b: u8)
        requires
            bytes == encode_utf8(seq![c]),
        ensures
            ({
                let all = forall|i: int|
                    0 <= i < bytes.len() ==> self.has(byte_piece(#[trigger] bytes[i]));
                &&& self.byte_fallback && all ==> {
                    &&& self.char_fallback(c) matches Some((ids, score))
                    &&& ids.len() == bytes.len()
                    &&& forall|i: int|
                        0 <= i < bytes.len() ==> #[trigger] ids[i]
                            == self.ids[byte_piece(bytes[i])]
                    &&& score == self.byte_score(bytes)
                }
                &&& !(self.byte_fallback && all) ==> match self.unk_id {
                    Some(id) => self.char_fallback(c) == Some((seq![id], self.scale.zero)),
                    None => self.char_fallback(c) is None,
                }
            }),
            self.byte_score(seq![]) == self.scale.zero,
            self.byte_score(bytes.push(b)) == self.byte_score(bytes).add_spec(
                self.scores[byte_piece(b)],
            ),
    {
        assert(bytes.push(b).drop_last() == bytes);
    }

    /// The empty text has no ids, whatever the vocabulary.
    pub proof fn empty_text_has_no_ids(self)
        ensures
            self.segmented(seq![]) == Some(Seq::<u32>::empty()),
    {
    }

    /// A text has ids just where the best way to cover it all has a score above the lowest, and
    /// then they are those of its steps, from the first to the last.
    pub proof fn ids_are_those_of_the_steps(self, text: Seq<char>)
        requires
            text.len() > 0,
        ensures
            ({
                let norm = normalized(text);
                let cells = self.cells(norm, norm.len());
                &&& self.segmented(text) is Some <==> self.reached(cells.last())
                &&& self.segmented(text) matches Some(ids) ==> ids == trace(
                    cells,
                    norm.len() as int,
                )
                &&& forall|n: int|
                    0 < n && 0 <= cells[n].start < n ==> #[trigger] trace(cells, n) == trace(
                        cells,
                        cells[n].start,
                    ) + cells[n].ids
                &&& trace(cells, 0) == Seq::<u32>::empty()
            }),
    {
    }
}

impl<S: Add<Output = S> + PartialOrd> UnigramModel<S> {
    /// The best ways to cover the prefixes of a text are found one by one, from the empty one on,
    /// each from those of all the shorter prefixes; a longer text does not change them.
    pub proof fn prefixes_are_covered_one_by_one(self, norm: Seq<char>, n: nat, k: int)
        requires
            0 <= k <= n,
        ensures
            self.cells(norm, n).len() == n + 1,
            self.cells(norm, n)[0] == (Cell {
                score: self.scale.zero,
                start: 0,
                ids: seq![],
                gaps: 0,
            }),
            k > 0 ==> self.cells(norm, n)[k] == self.next_cell(
                norm,
                self.cells(norm, n).take(k),
                k,
            ),
        decreases n,
    {
        self.lemma_cells_len(norm, n);
        if n > 0 {
            let shorter = self.cells(norm, (n - 1) as nat);
            self.lemma_cells_len(norm, (n - 1) as nat);
            if k < n {
                self.prefixes_are_covered_one_by_one(norm, (n - 1) as nat, k);
                assert(self.cells(norm, n).take(k) == shorter.take(k));
            } else {
                self.prefixes_are_covered_one_by_one(norm, (n - 1) as nat, 0);
                assert(self.cells(norm, n).take(k) == shorter);
            }
        }
    }

    /// Where a character can not be covered without a piece, the best piece that ends there is
    /// taken.
    pub proof fn pieces_alone_without_fallback(
        self,
        norm: Seq<char>,
        cells: Seq<Cell<S>>,
        end: int,
    )
        requires
            self.char_fallback(norm[end - 1]) is None,
        ensures
            self.next_cell(norm, cells, end) == self.piece_steps(
                norm,
                cells,
                end,
                if end <= self.max_piece_len {
                    0
                } else {
                    end - self.max_piece_len
                },
                end,
            ),
    {
    }
}

/// Of the pieces that may end a prefix the one is taken that leaves the fewest characters without
/// a piece, of these the one with the highest score in all, and of these the one that starts
/// first. Whether any is taken is whether there is one.
pub proof fn first_of_the_best_pieces_is_taken(
    model: UnigramModel<WholeScore>,
    norm: Seq<char>,
    cells: Seq<Cell<WholeScore>>,
    end: int,
    lo: int,
    j: int,
    i: int,
)
    requires
        model.scale.floor == WholeScore::Lowest,
        0 <= lo <= j <= end,
    ensures
        ({
            let best = model.piece_steps(norm, cells, end, lo, j);
            let piece = norm.subrange(best.start, end);
            &&& best.score is Units ==> {
                &&& lo <= best.start < j
                &&& model.has(piece)
                &&& cells[best.start].score is Units
                &&& best.score == cells[best.start].score.plus(model.scores[piece])
                &&& best.ids == seq![model.ids[piece]]
                &&& best.gaps == cells[best.start].gaps
            }
            &&& {
                let other = cells[i].score.plus(model.scores[norm.subrange(i, end)]);
                &&& lo <= i < j
                &&& model.has(norm.subrange(i, end))
                &&& other is Units
            } ==> {
                let other = cells[i].score.plus(model.scores[norm.subrange(i, end)]);
                &&& best.score is Units
                &&& best.gaps <= cells[i].gaps
                &&& best.gaps == cells[i].gaps ==> best.score->Units_0 >= other->Units_0
                &&& best.gaps == cells[i].gaps && best.score == other ==> best.start <= i
            }
        }),
    decreases j - lo,
{
    if j > lo {
        first_of_the_best_pieces_is_taken(model, norm, cells, end, lo, j - 1, i);
        let before = model.piece_steps(norm, cells, end, lo, j - 1);
        let best = model.piece_steps(norm, cells, end, lo, j);
        assert(best == model.piece_step(norm, cells, end, j - 1, before));
    }
}

/// A character is covered without a piece where that leaves fewer characters without a piece than
/// the best piece that ends there does, or as many with a higher score, or where there is no such
/// piece; it then counts as one more, and the penalty is added to the score.
pub proof fn fallback_must_be_better(
    model: UnigramModel<WholeScore>,
    norm: Seq<char>,
    cells: Seq<Cell<WholeScore>>,
    end: int,
    ids: Seq<u32>,
    score: WholeScore,
)
    requires
        model.scale.floor == WholeScore::Lowest,
        0 < end <= norm.len(),
        model.char_fallback(norm[end - 1]) == Some((ids, score)),
    ensures
        ({
            let lo = if end <= model.max_piece_len {
                0
            } else {
                end - model.max_piece_len
            };
            let piece = model.piece_steps(norm, cells, end, lo, end);
            let other = cells[end - 1].score.plus(model.scale.penalty).plus(score);
            let gaps = cells[end - 1].gaps + 1;
            let better = {
                ||| !(piece.score is Units)
                ||| gaps < piece.gaps
                ||| gaps == piece.gaps && other->Units_0 > piece.score->Units_0
            };
            let taken = model.next_cell(norm, cells, end);
            if other is Units && better {
                taken == (Cell { score: other, start: end - 1, ids, gaps })
            } else {
                taken == piece
            }
        }),
{
}

} // verus!
