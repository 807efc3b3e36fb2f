//! Whole-number scores, for which segmentation is exact.

use crate::tokenizer::pieces::byte_piece;
use crate::tokenizer::unigram::{normalized, score_ops, ScoreScale, UnigramModel};
use crate::tokenizer::unigram_laws::{outranks, Segmentation};
use std::cmp::Ordering;
use std::ops::Add;
use vstd::prelude::*;
use vstd::std_specs::cmp::{PartialEqSpec, PartialEqSpecImpl, PartialOrdIs, PartialOrdSpecImpl};
use vstd::std_specs::ops::AddSpecImpl;
use vstd::utf8::encode_utf8;

verus! {

/// A score in whole units, or the score of what has no segmentation, which is below all others.
/// A sum that does not fit is the nearest score that does.
#[derive(Debug, Clone, Copy)]
pub enum WholeScore {
    Lowest,
    Units(i64),
}

/// The nearest number to `x` in the range of scores.
pub open spec fn clamped(x: int) -> i64 {
    if x < i64::MIN {
        i64::MIN
    } else if x > i64::MAX {
        i64::MAX
    } else {
        x as i64
    }
}

impl WholeScore {
    /// The sum of two scores.
    pub open spec fn plus(self, other: WholeScore) -> WholeScore {
        match (self, other) {
            (WholeScore::Units(a), WholeScore::Units(b)) => WholeScore::Units(clamped(a + b)),
            _ => WholeScore::Lowest,
        }
    }

    /// The scale of whole scores, with the given penalty.
    pub fn scale(penalty: i64) -> (r: ScoreScale<WholeScore>)
        ensures
            r.zero == WholeScore::Units(0),
            r.floor == WholeScore::Lowest,
            r.penalty == WholeScore::Units(penalty),
    {
        ScoreScale {
            zero: WholeScore::Units(0),
            floor: WholeScore::Lowest,
            penalty: WholeScore::Units(penalty),
        }
    }
}

impl Add for WholeScore {
    type Output = WholeScore;

    fn add(self, other: WholeScore) -> (r: WholeScore) {
        match (self, other) {
            (WholeScore::Units(a), WholeScore::Units(b)) => match a.checked_add(b) {
                Some(sum) => WholeScore::Units(sum),
                None => if b > 0 {
                    WholeScore::Units(i64::MAX)
                } else {
                    WholeScore::Units(i64::MIN)
                },
            },
            _ => WholeScore::Lowest,
        }
    }
}

impl AddSpecImpl for WholeScore {
    open spec fn obeys_add_spec() -> bool {
        true
    }

    open spec fn add_req(self, other: WholeScore) -> bool {
        true
    }

    open spec fn add_spec(self, other: WholeScore) -> WholeScore {
        self.plus(other)
    }
}

impl PartialEq for WholeScore {
    fn eq(&self, other: &WholeScore) -> (r: bool) {
        match (self, other) {
            (WholeScore::Lowest, WholeScore::Lowest) => true,
            (WholeScore::Units(a), WholeScore::Units(b)) => *a == *b,
            _ => false,
        }
    }
}

impl PartialEqSpecImpl for WholeScore {
    open spec fn obeys_eq_spec() -> bool {
        true
    }

    open spec fn eq_spec(&self, other: &WholeScore) -> bool {
        *self == *other
    }
}

impl PartialOrd for WholeScore {
    fn partial_cmp(&self, other: &WholeScore) -> (r: Option<Ordering>) {
        match (self, other) {
            (WholeScore::Lowest, WholeScore::Lowest) => Some(Ordering::Equal),
            (WholeScore::Lowest, _) => Some(Ordering::Less),
            (_, WholeScore::Lowest) => Some(Ordering::Greater),
            (WholeScore::Units(a), WholeScore::Units(b)) => if *a < *b {
                Some(Ordering::Less)
            } else if *a == *b {
                Some(Ordering::Equal)
            } else {
                Some(Ordering::Greater)
            },
        }
    }
}

impl PartialOrdSpecImpl for WholeScore {
    open spec fn obeys_partial_cmp_spec() -> bool {
        true
    }

    open spec fn partial_cmp_spec(&self, other: &WholeScore) -> Option<Ordering> {
        match (*self, *other) {
            (WholeScore::Lowest, WholeScore::Lowest) => Some(Ordering::Equal),
            (WholeScore::Lowest, _) => Some(Ordering::Less),
            (_, WholeScore::Lowest) => Some(Ordering::Greater),
            (WholeScore::Units(a), WholeScore::Units(b)) => if a < b {
                Some(Ordering::Less)
            } else if a == b {
                Some(Ordering::Equal)
            } else {
                Some(Ordering::Greater)
            },
        }
    }
}

/// Whole scores add up as their numbers do. A sum that is too great or too small is the greatest or
/// the least number that there is, and with the lowest score there is no sum above it.
pub proof fn whole_scores_add_up(a: i64, b: i64, other: WholeScore)
    ensures
        WholeScore::Units(a).plus(WholeScore::Units(b)) matches WholeScore::Units(sum) && {
            &&& i64::MIN <= a + b <= i64::MAX ==> sum == a + b
            &&& a + b > i64::MAX ==> sum == i64::MAX
            &&& a + b < i64::MIN ==> sum == i64::MIN
        },
        WholeScore::Lowest.plus(other) == WholeScore::Lowest,
        other.plus(WholeScore::Lowest) == WholeScore::Lowest,
{
}

/// Whole scores are ordered as their numbers are, above the lowest score.
pub proof fn whole_scores_are_ordered(a: i64, b: i64, other: WholeScore)
    ensures
        WholeScore::Units(a).is_gt(&WholeScore::Units(b)) <==> a > b,
        WholeScore::Units(a).is_gt(&WholeScore::Lowest),
        !WholeScore::Lowest.is_gt(&other),
        PartialEqSpec::eq_spec(&WholeScore::Units(a), &WholeScore::Units(b)) <==> a == b,
        !PartialEqSpec::eq_spec(&WholeScore::Units(a), &WholeScore::Lowest),
        PartialEqSpec::eq_spec(&WholeScore::Lowest, &WholeScore::Lowest),
{
}

/// Whole scores can be added and compared without fail.
pub proof fn whole_scores_compute()
    ensures
        score_ops::<WholeScore>(),
{
}

/// With whole scores the segmentation that is chosen is the best of all, whatever the pieces are.
pub proof fn whole_segmentation_is_best(
    model: UnigramModel<WholeScore>,
    text: Seq<char>,
    other: Segmentation<WholeScore>,
)
    requires
        model.scale.zero == WholeScore::Units(0),
        model.scale.floor == WholeScore::Lowest,
        text.len() > 0,
    ensures
        ({
            let norm = normalized(text);
            &&& model.segmented(text) matches Some(ids) ==> {
                &&& ids == model.chosen(text).ids
                &&& model.achieves(norm, norm.len() as int, model.chosen(text))
            }
            &&& model.achieves(norm, norm.len() as int, other) && other.score
                != WholeScore::Lowest ==> model.segmented(text) is Some && !outranks(
                other,
                model.chosen(text),
            )
        }),
{
    let all = |s: WholeScore| true;
    assert(model.adds_up(all));
    model.segmentation_is_best(text, other, all);
}

proof fn lemma_byte_score_is_units(model: UnigramModel<WholeScore>, bytes: Seq<u8>)
    requires
        model.scale.zero is Units,
        forall|piece: Seq<char>| #[trigger] model.has(piece) ==> model.scores[piece] is Units,
        model.has_bytes(bytes),
    ensures
        model.byte_score(bytes) is Units,
    decreases bytes.len(),
{
    if bytes.len() > 0 {
        let init = bytes.drop_last();
        assert forall|i: int| 0 <= i < init.len() implies model.has(
            byte_piece(#[trigger] init[i]),
        ) by {
            assert(model.has(byte_piece(bytes[i])));
        }
        lemma_byte_score_is_units(model, init);
        assert(model.has(byte_piece(bytes[bytes.len() - 1])));
    }
}

/// With whole scores, none of them the lowest, a character is covered without a piece only where
/// it has no piece of its own.
pub proof fn whole_unknown_means_unmatched(model: UnigramModel<WholeScore>, text: Seq<char>)
    requires
        model.scale.zero == WholeScore::Units(0),
        model.scale.floor == WholeScore::Lowest,
        model.scale.penalty is Units,
        forall|piece: Seq<char>| #[trigger] model.has(piece) ==> model.scores[piece] is Units,
        model.max_piece_len >= 1,
        text.len() > 0,
        model.segmented(text) is Some,
    ensures
        ({
            let norm = normalized(text);
            model.gaps_are_unmatched(norm, model.cells(norm, norm.len()), norm.len() as int)
        }),
{
    let units = |s: WholeScore| s is Units;
    assert forall|x: WholeScore| model.is_step(x) implies x is Units by {
        if exists|c: char|
            (#[trigger] model.char_fallback(c)) is Some && x == model.char_fallback(c)->Some_0.1 {
            let c = choose|c: char|
                (#[trigger] model.char_fallback(c)) is Some && x
                    == model.char_fallback(c)->Some_0.1;
            let bytes = encode_utf8(seq![c]);
            if model.byte_fallback && model.has_bytes(bytes) {
                lemma_byte_score_is_units(model, bytes);
            }
        }
    }
    assert(model.stays_off_floor(units));
    model.unknown_means_unmatched(text, units);
}

} // verus!
