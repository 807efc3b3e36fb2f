//! Unigram segmentation: the best-scored way to cut a text into vocabulary pieces. A character
//! is covered without a piece only where pieces cannot cover the text otherwise.
//!
//! Scores are any type with `+`, `==` and `<`; a tokenizer uses 32-bit floats.

use crate::text::{chars_of, string_of};
use crate::tokenizer::pieces::{byte_piece, byte_piece_text};
use std::ops::Add;
use vstd::hash_map::StringHashMap;
use vstd::prelude::*;
use vstd::std_specs::cmp::{PartialEqSpec, PartialOrdIs, PartialOrdSpec};
use vstd::std_specs::ops::AddSpec;
use vstd::utf8::encode_utf8;

verus! {

/// The character that stands for a space inside pieces (U+2581).
pub const SPM_SPACE: char = '\u{2581}';

/// The fixed scores that segmentation works with.
pub struct ScoreScale<S> {
    /// The score of the empty text (0.0).
    pub zero: S,
    /// The score of a text that has no segmentation (negative infinity).
    pub floor: S,
    /// What is added to the score where a character is covered without a piece (-10.0).
    pub penalty: S,
}

/// Whether `+`, `==` and `<` on scores are functions of their operands that never fail.
pub open spec fn score_ops<S: Add<Output = S> + PartialOrd>() -> bool {
    &&& S::obeys_add_spec()
    &&& S::obeys_eq_spec()
    &&& S::obeys_partial_cmp_spec()
    &&& forall|a: S, b: S| #[trigger] a.add_req(b)
}

/// What segmentation knows of a vocabulary: the id and the score of each piece, and the knobs.
pub struct UnigramModel<S> {
    pub ids: Map<Seq<char>, u32>,
    pub scores: Map<Seq<char>, S>,
    pub max_piece_len: nat,
    pub byte_fallback: bool,
    pub unk_id: Option<u32>,
    pub scale: ScoreScale<S>,
}

/// The best segmentation of a prefix: its score, where its last step starts, the ids of that
/// step, and how many characters it covers without a piece.
#[verifier::ext_equal]
pub struct Cell<S> {
    pub score: S,
    pub start: int,
    pub ids: Seq<u32>,
    pub gaps: nat,
}

/// `text` with its spaces replaced by the marker, and one marker in front.
pub open spec fn normalized(text: Seq<char>) -> Seq<char> {
    seq![SPM_SPACE] + Seq::new(
        text.len(),
        |i: int|
            if text[i] == ' ' {
                SPM_SPACE
            } else {
                text[i]
            },
    )
}

impl<S: Add<Output = S> + PartialOrd> UnigramModel<S> {
    /// Whether `piece` is in the vocabulary.
    pub open spec fn has(self, piece: Seq<char>) -> bool {
        self.scores.contains_key(piece) && self.ids.contains_key(piece)
    }

    /// Whether each of `bytes` has a piece.
    pub open spec fn has_bytes(self, bytes: Seq<u8>) -> bool {
        forall|i: int| 0 <= i < bytes.len() ==> self.has(byte_piece(#[trigger] bytes[i]))
    }

    /// The ids of the pieces of `bytes`.
    pub open spec fn byte_ids(self, bytes: Seq<u8>) -> Seq<u32> {
        Seq::new(bytes.len(), |i: int| self.ids[byte_piece(bytes[i])])
    }

    /// The summed score of the pieces of `bytes`.
    pub open spec fn byte_score(self, bytes: Seq<u8>) -> S
        decreases bytes.len(),
    {
        if bytes.len() == 0 {
            self.scale.zero
        } else {
            self.byte_score(bytes.drop_last()).add_spec(self.scores[byte_piece(bytes.last())])
        }
    }

    /// The ids that cover a character without a piece, and their score: its byte pieces where
    /// they are wanted and all there, else the unknown token.
    pub open spec fn char_fallback(self, c: char) -> Option<(Seq<u32>, S)> {
        let bytes = encode_utf8(seq![c]);
        if self.byte_fallback && self.has_bytes(bytes) {
            Some((self.byte_ids(bytes), self.byte_score(bytes)))
        } else {
            match self.unk_id {
                Some(id) => Some((seq![id], self.scale.zero)),
                None => None,
            }
        }
    }

    /// A prefix that has no segmentation.
    pub open spec fn out_of_reach(self) -> Cell<S> {
        Cell { score: self.scale.floor, start: 0, ids: seq![], gaps: 0 }
    }

    /// Whether a prefix has a segmentation.
    pub open spec fn reached(self, cell: Cell<S>) -> bool {
        !cell.score.eq_spec(&self.scale.floor)
    }

    /// Whether `new` is preferred to `cur`: it has a score above the floor, and `cur` has none,
    /// or more characters without a piece, or as many of them and a lesser score.
    pub open spec fn preferred(self, new: Cell<S>, cur: Cell<S>) -> bool {
        &&& new.score.is_gt(&self.scale.floor)
        &&& {
            ||| !self.reached(cur)
            ||| new.gaps < cur.gaps
            ||| new.gaps == cur.gaps && new.score.is_gt(&cur.score)
        }
    }

    /// The better of `cur` and a segmentation that ends in the piece `norm[j..end]`, the earlier
    /// one where neither is better.
    pub open spec fn piece_step(
        self,
        norm: Seq<char>,
        cells: Seq<Cell<S>>,
        end: int,
        j: int,
        cur: Cell<S>,
    ) -> Cell<S> {
        let piece = norm.subrange(j, end);
        if self.reached(cells[j]) && self.has(piece) {
            let new = Cell {
                score: cells[j].score.add_spec(self.scores[piece]),
                start: j,
                ids: seq![self.ids[piece]],
                gaps: cells[j].gaps,
            };
            if self.preferred(new, cur) {
                new
            } else {
                cur
            }
        } else {
            cur
        }
    }

    /// The best segmentation of `norm[..end]` whose last piece starts in `lo..j`.
    pub open spec fn piece_steps(
        self,
        norm: Seq<char>,
        cells: Seq<Cell<S>>,
        end: int,
        lo: int,
        j: int,
    ) -> Cell<S>
        decreases j - lo,
    {
        if j <= lo {
            self.out_of_reach()
        } else {
            self.piece_step(norm, cells, end, j - 1, self.piece_steps(norm, cells, end, lo, j - 1))
        }
    }

    /// The better of `cur` and a segmentation whose last character is covered without a piece,
    /// by byte pieces or by the unknown token.
    pub open spec fn fallback_step(
        self,
        norm: Seq<char>,
        cells: Seq<Cell<S>>,
        end: int,
        cur: Cell<S>,
    ) -> Cell<S> {
        match self.char_fallback(norm[end - 1]) {
            Some((ids, score)) if self.reached(cells[end - 1]) => {
                let new = Cell {
                    score: cells[end - 1].score.add_spec(self.scale.penalty).add_spec(score),
                    start: end - 1,
                    ids,
                    gaps: cells[end - 1].gaps + 1,
                };
                if self.preferred(new, cur) {
                    new
                } else {
                    cur
                }
            },
            _ => cur,
        }
    }

    /// Where the pieces that may end at `end` start.
    pub open spec fn first_start(self, end: int) -> int {
        if end <= self.max_piece_len {
            0
        } else {
            end - self.max_piece_len
        }
    }

    /// The best segmentation of `norm[..end]`, given those of the shorter prefixes.
    pub open spec fn next_cell(self, norm: Seq<char>, cells: Seq<Cell<S>>, end: int) -> Cell<S> {
        self.fallback_step(
            norm,
            cells,
            end,
            self.piece_steps(norm, cells, end, self.first_start(end), end),
        )
    }

    /// The best segmentations of the prefixes of `norm` up to length `n`.
    pub open spec fn cells(self, norm: Seq<char>, n: nat) -> Seq<Cell<S>>
        decreases n,
    {
        if n == 0 {
            seq![Cell { score: self.scale.zero, start: 0, ids: seq![], gaps: 0 }]
        } else {
            let shorter = self.cells(norm, (n - 1) as nat);
            shorter.push(self.next_cell(norm, shorter, n as int))
        }
    }

    /// The ids of `text`: none for the empty text, else those of the best segmentation, where
    /// there is one.
    pub open spec fn segmented(self, text: Seq<char>) -> Option<Seq<u32>> {
        let norm = normalized(text);
        let cells = self.cells(norm, norm.len());
        if text.len() == 0 {
            Some(seq![])
        } else if self.reached(cells.last()) {
            Some(trace(cells, norm.len() as int))
        } else {
            None
        }
    }

    pub(crate) proof fn lemma_cells_len(self, norm: Seq<char>, n: nat)
        ensures
            self.cells(norm, n).len() == n + 1,
        decreases n,
    {
        if n > 0 {
            self.lemma_cells_len(norm, (n - 1) as nat);
        }
    }
}

/// The ids of the segmentation that the cells record for the prefix of length `n`.
pub open spec fn trace<S>(cells: Seq<Cell<S>>, n: int) -> Seq<u32>
    decreases n,
{
    if n <= 0 {
        seq![]
    } else if 0 <= cells[n].start < n {
        trace(cells, cells[n].start) + cells[n].ids
    } else {
        cells[n].ids
    }
}

/// Scored pieces and the knobs of their segmentation.
#[verifier::reject_recursive_types(S)]
pub struct UnigramState<S> {
    /// The score of each piece.
    pub scores: StringHashMap<S>,
    /// The longest piece, in characters.
    pub max_piece_len: usize,
    /// Whether a character without a piece is spelled by byte pieces.
    pub byte_fallback: bool,
    /// The id of the unknown token.
    pub unk_id: Option<u32>,
    /// The fixed scores.
    pub scale: ScoreScale<S>,
}

/// A cell as it is computed.
struct Best<S> {
    score: S,
    start: usize,
    ids: Vec<u32>,
    gaps: usize,
}

impl<S> View for Best<S> {
    type V = Cell<S>;

    closed spec fn view(&self) -> Cell<S> {
        Cell {
            score: self.score,
            start: self.start as int,
            ids: self.ids@,
            gaps: self.gaps as nat,
        }
    }
}

/// Whether computed cells record `cells`.
spec fn records<S>(best: Seq<Best<S>>, cells: Seq<Cell<S>>) -> bool {
    &&& best.len() == cells.len()
    &&& forall|i: int| 0 <= i < cells.len() ==> (#[trigger] best[i])@ == cells[i]
}

impl<S> UnigramState<S> {
    /// What the state says, with the vocabulary `ids`.
    pub open spec fn model(self, ids: Map<Seq<char>, u32>) -> UnigramModel<S> {
        UnigramModel {
            ids,
            scores: self.scores@,
            max_piece_len: self.max_piece_len as nat,
            byte_fallback: self.byte_fallback,
            unk_id: self.unk_id,
            scale: self.scale,
        }
    }
}

impl<S: Copy + Add<Output = S> + PartialOrd> UnigramState<S> {
    /// The ids that cover `ch` without a piece, and their score.
    pub fn unigram_char_fallback(&self, ids: &StringHashMap<u32>, ch: char) -> (r: Option<
        (Vec<u32>, S),
    >)
        requires
            score_ops::<S>(),
        ensures
            self.model(ids@).char_fallback(ch) == (match r {
                Some((v, s)) => Some((v@, s)),
                None => None,
            }),
    {
        let ghost m = self.model(ids@);
        if self.byte_fallback {
            let mut text = String::new();
            text.push(ch);
            assert(text@ == seq![ch]);
            let bytes = text.as_str().as_bytes();
            let mut out: Vec<u32> = Vec::new();
            let mut score = self.scale.zero;
            let mut ok = true;
            let mut i: usize = 0;
            while i < bytes.len() && ok
                invariant
                    score_ops::<S>(),
                    m == self.model(ids@),
                    i <= bytes@.len(),
                    ok ==> {
                        &&& m.has_bytes(bytes@.take(i as int))
                        &&& out@ == m.byte_ids(bytes@.take(i as int))
                        &&& score == m.byte_score(bytes@.take(i as int))
                    },
                    !ok ==> !m.has_bytes(bytes@),
                decreases bytes@.len() - i + if ok {
                    1int
                } else {
                    0int
                },
            {
                let b = bytes[i];
                let piece = byte_piece_text(b);
                let ghost head = bytes@.take(i + 1);
                assert(head.drop_last() == bytes@.take(i as int));
                assert(head.last() == b);
                match (ids.get(piece.as_str()), self.scores.get(piece.as_str())) {
                    (Some(id), Some(s)) => {
                        out.push(*id);
                        score = score + *s;
                        i += 1;
                        assert forall|k: int| 0 <= k < head.len() implies m.has(
                            byte_piece(#[trigger] head[k]),
                        ) by {
                            if k < i - 1 {
                                assert(head[k] == bytes@.take(i - 1)[k]);
                            }
                        }
                        assert(out@ =~= m.byte_ids(head));
                    },
                    _ => {
                        ok = false;
                        assert(!m.has(byte_piece(bytes@[i as int])));
                    },
                }
            }
            if ok {
                assert(bytes@.take(bytes@.len() as int) == bytes@);
                return Some((out, score));
            }
        }
        match self.unk_id {
            Some(id) => {
                let mut one: Vec<u32> = Vec::new();
                one.push(id);
                assert(one@ == seq![id]);
                Some((one, self.scale.zero))
            },
            None => None,
        }
    }

    /// Segments `text`, appending its ids to `out`; reports whether there was a segmentation.
    pub fn encode_unigram(&self, ids: &StringHashMap<u32>, text: &str, out: &mut Vec<u32>) -> (r:
        bool)
        requires
            score_ops::<S>(),
        ensures
            match self.model(ids@).segmented(text@) {
                Some(found) => r && final(out)@ == old(out)@ + found,
                None => !r && final(out)@ == old(out)@,
            },
    {
        if text.is_empty() {
            assert(out@ + Seq::<u32>::empty() == out@);
            return true;
        }
        let ghost m = self.model(ids@);
        let norm = normalize(text);
        let n = norm.len();
        let mut best: Vec<Best<S>> = Vec::new();
        best.push(Best { score: self.scale.zero, start: 0, ids: Vec::new(), gaps: 0 });
        assert(best@[0]@ =~= m.cells(norm@, 0)[0]);
        let mut i: usize = 0;
        while i < n
            invariant
                score_ops::<S>(),
                m == self.model(ids@),
                n == norm@.len(),
                i <= n,
                records(best@, m.cells(norm@, i as nat)),
            decreases n - i,
        {
            let next = self.best_at(ids, &norm, &best, i);
            best.push(next);
            i += 1;
            proof {
                m.lemma_cells_len(norm@, i as nat);
            }
        }
        let ghost cells = m.cells(norm@, n as nat);
        proof {
            m.lemma_cells_len(norm@, n as nat);
            assert(best@[n as int]@ == cells[n as int]);
        }
        if best[n].score == self.scale.floor {
            return false;
        }
        let mut reversed: Vec<u32> = Vec::new();
        let mut at: usize = n;
        assert(trace(cells, at as int) + reversed@.reverse() == trace(cells, n as int));
        while at > 0
            invariant
                cells == m.cells(norm@, n as nat),
                cells.len() == n + 1,
                n == norm@.len(),
                at <= n,
                records(best@, cells),
                trace(cells, at as int) + reversed@.reverse() == trace(cells, n as int),
            decreases at,
        {
            let start = best[at].start;
            assert(best@[at as int]@ == cells[at as int]);
            proof {
                m.lemma_start_is_earlier(norm@, n as nat, at as int);
            }
            let step = &best[at].ids;
            let ghost before = reversed@;
            let mut k: usize = step.len();
            while k > 0
                invariant
                    k <= step@.len(),
                    reversed@.reverse() == step@.skip(k as int) + before.reverse(),
                decreases k,
            {
                k -= 1;
                let ghost held = reversed@;
                reversed.push(step[k]);
                assert(reversed@.reverse() == seq![step@[k as int]] + held.reverse());
                assert(step@.skip(k as int) == seq![step@[k as int]] + step@.skip(k + 1));
            }
            assert(step@.skip(0) == step@);
            assert(trace(cells, start as int) + (step@ + before.reverse()) == (trace(
                cells,
                start as int,
            ) + step@) + before.reverse());
            at = start;
        }
        assert(reversed@.reverse() == trace(cells, n as int));
        let ghost found = reversed@.reverse();
        let ghost start_out = out@;
        let mut k: usize = reversed.len();
        while k > 0
            invariant
                k <= reversed@.len(),
                found == reversed@.reverse(),
                out@ == start_out + found.take(reversed@.len() - k),
            decreases k,
        {
            k -= 1;
            out.push(reversed[k]);
            assert(found.take(reversed@.len() - k) == found.take(reversed@.len() - k - 1).push(
                reversed@[k as int],
            ));
        }
        assert(found.take(reversed@.len() as int) == found);
        true
    }

    /// Whether a segmentation with this score and so many gaps is preferred to `cur`.
    fn prefers(&self, score: S, gaps: usize, cur: &Best<S>) -> (r: bool)
        requires
            score_ops::<S>(),
        ensures
            forall|ids: Map<Seq<char>, u32>, new: Cell<S>|
                new.score == score && new.gaps == gaps ==> r == #[trigger] self.model(
                    ids,
                ).preferred(new, cur@),
    {
        score > self.scale.floor && (cur.score == self.scale.floor || gaps < cur.gaps || (gaps
            == cur.gaps && score > cur.score))
    }

    /// The best segmentation of `norm[..i + 1]`, given those of the shorter prefixes.
    fn best_at(
        &self,
        ids: &StringHashMap<u32>,
        norm: &Vec<char>,
        best: &Vec<Best<S>>,
        i: usize,
    ) -> (r: Best<S>)
        requires
            score_ops::<S>(),
            i < norm@.len(),
            records(best@, self.model(ids@).cells(norm@, i as nat)),
        ensures
            r@ == self.model(ids@).next_cell(
                norm@,
                self.model(ids@).cells(norm@, i as nat),
                i + 1,
            ),
    {
        let ghost m = self.model(ids@);
        let ghost cells = m.cells(norm@, i as nat);
        proof {
            m.lemma_cells_len(norm@, i as nat);
        }
        let n = norm.len();
        assert(i < n);
        let end: usize = i + 1;
        let lo: usize = if end <= self.max_piece_len {
            0
        } else {
            end - self.max_piece_len
        };
        let mut cur: Best<S> = Best {
            score: self.scale.floor,
            start: 0,
            ids: Vec::new(),
            gaps: 0,
        };
        let mut j: usize = lo;
        assert(cur@ =~= m.out_of_reach());
        while j < end
            invariant
                score_ops::<S>(),
                m == self.model(ids@),
                cells == m.cells(norm@, i as nat),
                cells.len() == i + 1,
                records(best@, cells),
                end == i + 1,
                end <= norm@.len(),
                lo == m.first_start(end as int),
                lo <= j <= end,
                cur@ == m.piece_steps(norm@, cells, end as int, lo as int, j as int),
            decreases end - j,
        {
            assert(best@[j as int]@ == cells[j as int]);
            if best[j].score == self.scale.floor {
                j += 1;
                continue;
            }
            let piece = string_of(norm, j, end);
            match (self.scores.get(piece.as_str()), ids.get(piece.as_str())) {
                (Some(s), Some(id)) => {
                    let score = best[j].score + *s;
                    let gaps = best[j].gaps;
                    let ghost new = Cell {
                        score,
                        start: j as int,
                        ids: seq![m.ids[piece@]],
                        gaps: gaps as nat,
                    };
                    let ghost wins = m.preferred(new, cur@);
                    if self.prefers(score, gaps, &cur) {
                        assert(wins);
                        let mut one: Vec<u32> = Vec::new();
                        one.push(*id);
                        assert(one@ == new.ids);
                        cur = Best { score, start: j, ids: one, gaps };
                    }
                },
                _ => {},
            }
            j += 1;
        }
        assert(best@[i as int]@ == cells[i as int]);
        if best[i].score != self.scale.floor {
            match self.unigram_char_fallback(ids, norm[i]) {
                Some((fallback, extra)) => {
                    proof {
                        m.lemma_gaps_are_characters(norm@, i as nat, i as int);
                    }
                    let score = best[i].score + self.scale.penalty + extra;
                    let gaps = best[i].gaps + 1;
                    let ghost new = Cell {
                        score,
                        start: i as int,
                        ids: fallback@,
                        gaps: gaps as nat,
                    };
                    let ghost wins = m.preferred(new, cur@);
                    if self.prefers(score, gaps, &cur) {
                        assert(wins);
                        cur = Best { score, start: i, ids: fallback, gaps };
                    }
                },
                None => {},
            }
        }
        cur
    }
}

impl<S: Add<Output = S> + PartialOrd> UnigramModel<S> {
    proof fn lemma_piece_steps_start(
        self,
        norm: Seq<char>,
        cells: Seq<Cell<S>>,
        end: int,
        lo: int,
        j: int,
    )
        requires
            0 <= lo,
            j <= end,
            0 < end,
        ensures
            0 <= self.piece_steps(norm, cells, end, lo, j).start < end,
        decreases j - lo,
    {
        if j > lo {
            self.lemma_piece_steps_start(norm, cells, end, lo, j - 1);
        }
    }

    /// The last piece of every recorded segmentation starts before it ends.
    proof fn lemma_start_is_earlier(self, norm: Seq<char>, n: nat, i: int)
        requires
            0 < i <= n,
        ensures
            0 <= self.cells(norm, n)[i].start < i,
        decreases n,
    {
        let shorter = self.cells(norm, (n - 1) as nat);
        self.lemma_cells_len(norm, (n - 1) as nat);
        if i < n {
            self.lemma_start_is_earlier(norm, (n - 1) as nat, i);
        } else {
            self.lemma_piece_steps_start(norm, shorter, n as int, self.first_start(n as int), n as int);
        }
    }
}

impl<S: Add<Output = S> + PartialOrd> UnigramModel<S> {
    proof fn lemma_piece_steps_gaps(
        self,
        norm: Seq<char>,
        cells: Seq<Cell<S>>,
        end: int,
        lo: int,
        j: int,
    )
        requires
            0 <= lo,
            j <= end,
            forall|i: int| 0 <= i < end ==> (#[trigger] cells[i]).gaps <= i,
        ensures
            self.piece_steps(norm, cells, end, lo, j).gaps <= (if end > 0 {
                end - 1
            } else {
                0
            }),
        decreases j - lo,
    {
        if j > lo {
            self.lemma_piece_steps_gaps(norm, cells, end, lo, j - 1);
        }
    }

    /// No more characters are covered without a piece than there are.
    proof fn lemma_gaps_are_characters(self, norm: Seq<char>, n: nat, i: int)
        requires
            0 <= i <= n,
        ensures
            self.cells(norm, n)[i].gaps <= i,
        decreases n,
    {
        self.lemma_cells_len(norm, n);
        if n > 0 {
            let shorter = self.cells(norm, (n - 1) as nat);
            self.lemma_cells_len(norm, (n - 1) as nat);
            if i < n {
                self.lemma_gaps_are_characters(norm, (n - 1) as nat, i);
            } else {
                assert forall|k: int| 0 <= k < n implies (#[trigger] shorter[k]).gaps <= k by {
                    self.lemma_gaps_are_characters(norm, (n - 1) as nat, k);
                }
                self.lemma_piece_steps_gaps(norm, shorter, i, self.first_start(i), i);
                assert(shorter[i - 1].gaps <= i - 1);
            }
        }
    }
}

/// Replaces the spaces of `text` by the marker and puts one marker in front.
fn normalize(text: &str) -> (r: Vec<char>)
    ensures
        r@ == normalized(text@),
{
    let chars = chars_of(text);
    let mut out: Vec<char> = Vec::new();
    out.push(SPM_SPACE);
    let mut i: usize = 0;
    assert(out@ == normalized(text@).take(1));
    while i < chars.len()
        invariant
            chars@ == text@,
            i <= chars@.len(),
            out@ == normalized(text@).take(i + 1),
        decreases chars@.len() - i,
    {
        let c = if chars[i] == ' ' {
            SPM_SPACE
        } else {
            chars[i]
        };
        out.push(c);
        i += 1;
        assert(normalized(text@).take(i + 1) == normalized(text@).take(i as int).push(c));
    }
    assert(normalized(text@).take(text@.len() as int + 1) == normalized(text@));
    out
}

} // verus!
