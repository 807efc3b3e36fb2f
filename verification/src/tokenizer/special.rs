//! Special tokens: literal strings that match as whole units, the longest first.

use crate::text::chars_of;
use crate::tokenizer::bpe::{joined, joined_of_one};
use vstd::prelude::*;

verus! {

/// A segment of input text: a matched special token, by its literal, or ordinary text.
pub enum Segment {
    Special(Seq<char>),
    Text(Seq<char>),
}

impl Segment {
    /// The characters that the segment covers.
    pub open spec fn text(self) -> Seq<char> {
        match self {
            Segment::Special(literal) => literal,
            Segment::Text(text) => text,
        }
    }
}

/// The characters that each segment covers.
pub open spec fn segment_texts(segments: Seq<Segment>) -> Seq<Seq<char>> {
    Seq::new(segments.len(), |i: int| segments[i].text())
}

/// Whether the first `n` characters of `text` are the longest special token that it starts with.
pub open spec fn is_longest(specials: Map<Seq<char>, u32>, text: Seq<char>, n: nat) -> bool {
    &&& n <= text.len()
    &&& specials.contains_key(text.take(n as int))
    &&& forall|m: nat| n < m <= text.len() ==> !specials.contains_key(#[trigger] text.take(m as int))
}

/// The length of the longest special token that `text` starts with.
pub open spec fn longest(specials: Map<Seq<char>, u32>, text: Seq<char>) -> Option<nat> {
    if exists|n: nat| is_longest(specials, text, n) {
        Some(choose|n: nat| is_longest(specials, text, n))
    } else {
        None
    }
}

/// `text` as one segment, or as none where it is empty.
pub open spec fn text_segment(text: Seq<char>) -> Seq<Segment> {
    if text.len() == 0 {
        seq![]
    } else {
        seq![Segment::Text(text)]
    }
}

/// The segments of `pending` followed by `text`, where no special token starts in `pending`.
pub open spec fn split_after(
    specials: Map<Seq<char>, u32>,
    pending: Seq<char>,
    text: Seq<char>,
) -> Seq<Segment>
    decreases text.len(),
{
    if text.len() == 0 {
        text_segment(pending)
    } else {
        match longest(specials, text) {
            Some(n) if 0 < n <= text.len() => {
                text_segment(pending).push(Segment::Special(text.take(n as int))) + split_after(
                    specials,
                    seq![],
                    text.skip(n as int),
                )
            },
            _ => split_after(specials, pending.push(text[0]), text.skip(1)),
        }
    }
}

/// The segments of `text`: the longest special token is taken wherever one starts, and what lies
/// between is ordinary text. Without special tokens the text is one segment.
pub open spec fn split(specials: Map<Seq<char>, u32>, text: Seq<char>) -> Seq<Segment> {
    if specials.is_empty() {
        seq![Segment::Text(text)]
    } else {
        split_after(specials, seq![], text)
    }
}

/// Whether splitting comes to an end: it does not where nothing but the empty special token
/// matches at a position that it reaches, since that match leads nowhere.
pub open spec fn split_ends(specials: Map<Seq<char>, u32>, text: Seq<char>) -> bool
    decreases text.len(),
{
    text.len() == 0 || match longest(specials, text) {
        Some(n) => 0 < n <= text.len() && split_ends(specials, text.skip(n as int)),
        None => split_ends(specials, text.skip(1)),
    }
}

/// Without an empty special token splitting comes to an end on every text.
pub proof fn split_ends_without_empty(specials: Map<Seq<char>, u32>, text: Seq<char>)
    requires
        !specials.contains_key(Seq::empty()),
    ensures
        split_ends(specials, text),
    decreases text.len(),
{
    if text.len() > 0 {
        match longest(specials, text) {
            Some(n) => {
                assert(is_longest(specials, text, n));
                assert(text.take(0) == Seq::<char>::empty());
                split_ends_without_empty(specials, text.skip(n as int));
            },
            None => {
                split_ends_without_empty(specials, text.skip(1));
            },
        }
    }
}

proof fn lemma_longest_is_unique(specials: Map<Seq<char>, u32>, text: Seq<char>, n: nat)
    requires
        is_longest(specials, text, n),
    ensures
        longest(specials, text) == Some(n),
{
    let m = choose|m: nat| is_longest(specials, text, m);
    assert(specials.contains_key(text.take(m as int)));
    assert(specials.contains_key(text.take(n as int)));
}

proof fn lemma_longest_none(specials: Map<Seq<char>, u32>, text: Seq<char>)
    requires
        forall|m: nat| m <= text.len() ==> !specials.contains_key(#[trigger] text.take(m as int)),
    ensures
        longest(specials, text) is None,
{
}

proof fn lemma_segment_texts_sum(a: Seq<Segment>, b: Seq<Segment>)
    ensures
        joined(segment_texts(a + b)) == joined(segment_texts(a)) + joined(segment_texts(b)),
{
    assert(segment_texts(a + b) == segment_texts(a) + segment_texts(b));
    crate::tokenizer::bpe::joined_of_sum(segment_texts(a), segment_texts(b));
}

proof fn lemma_text_segment(text: Seq<char>)
    ensures
        joined(segment_texts(text_segment(text))) == text,
{
    if text.len() > 0 {
        assert(segment_texts(text_segment(text)) == seq![text]);
        joined_of_one(text);
    } else {
        assert(segment_texts(text_segment(text)) == Seq::<Seq<char>>::empty());
    }
}

proof fn lemma_split_after_keeps_text(
    specials: Map<Seq<char>, u32>,
    pending: Seq<char>,
    text: Seq<char>,
)
    ensures
        joined(segment_texts(split_after(specials, pending, text))) == pending + text,
        forall|i: int|
            0 <= i < split_after(specials, pending, text).len() ==> (
            #[trigger] split_after(specials, pending, text)[i] matches Segment::Special(s)
                ==> specials.contains_key(s)),
    decreases text.len(),
{
    lemma_text_segment(pending);
    if text.len() == 0 {
        assert(pending + text == pending);
    } else {
        match longest(specials, text) {
            Some(n) if 0 < n <= text.len() => {
                let literal = text.take(n as int);
                let rest = text.skip(n as int);
                let tail = split_after(specials, seq![], rest);
                lemma_split_after_keeps_text(specials, seq![], rest);
                assert(is_longest(specials, text, n));
                let one = seq![Segment::Special(literal)];
                lemma_segment_texts_sum(text_segment(pending), one);
                assert(segment_texts(one) == seq![literal]);
                joined_of_one(literal);
                assert(text_segment(pending) + one == text_segment(pending).push(
                    Segment::Special(literal),
                ));
                lemma_segment_texts_sum(text_segment(pending).push(Segment::Special(literal)), tail);
                assert(pending + literal + (Seq::<char>::empty() + rest) == pending + text);
            },
            _ => {
                lemma_split_after_keeps_text(specials, pending.push(text[0]), text.skip(1));
                assert(pending.push(text[0]) + text.skip(1) == pending + text);
            },
        }
    }
}

/// Splitting on special tokens keeps the text, and every special segment is a registered literal.
pub proof fn splitting_keeps_text(specials: Map<Seq<char>, u32>, text: Seq<char>)
    ensures
        joined(segment_texts(split(specials, text))) == text,
        forall|i: int|
            0 <= i < split(specials, text).len() ==> (#[trigger] split(
                specials,
                text,
            )[i] matches Segment::Special(s) ==> specials.contains_key(s)),
{
    if specials.is_empty() {
        assert(segment_texts(split(specials, text)) == seq![text]);
        joined_of_one(text);
    } else {
        lemma_split_after_keeps_text(specials, seq![], text);
        assert(Seq::<char>::empty() + text == text);
    }
}

/// Whether no special token starts anywhere in `pending`, with `text` behind it.
spec fn none_starts_in(specials: Map<Seq<char>, u32>, pending: Seq<char>, text: Seq<char>) -> bool {
    forall|i: int, n: int|
        0 <= i < pending.len() && 0 < n <= pending.len() + text.len() - i
            ==> !specials.contains_key(#[trigger] (pending + text).subrange(i, i + n))
}

/// Whether no stretch of a text segment is a special token.
pub open spec fn holds_no_special(specials: Map<Seq<char>, u32>, segment: Segment) -> bool {
    segment matches Segment::Text(t) ==> forall|i: int, j: int|
        0 <= i < j <= t.len() ==> !specials.contains_key(#[trigger] t.subrange(i, j))
}

proof fn lemma_pending_holds_none(
    specials: Map<Seq<char>, u32>,
    pending: Seq<char>,
    text: Seq<char>,
)
    requires
        none_starts_in(specials, pending, text),
    ensures
        forall|k: int|
            0 <= k < text_segment(pending).len() ==> holds_no_special(
                specials,
                #[trigger] text_segment(pending)[k],
            ),
{
    assert forall|i: int, j: int| 0 <= i < j <= pending.len() implies !specials.contains_key(
        #[trigger] pending.subrange(i, j),
    ) by {
        assert((pending + text).subrange(i, i + (j - i)) == pending.subrange(i, j));
    }
}

proof fn lemma_text_segments_hold_none(
    specials: Map<Seq<char>, u32>,
    pending: Seq<char>,
    text: Seq<char>,
)
    requires
        none_starts_in(specials, pending, text),
        !specials.contains_key(Seq::empty()),
    ensures
        forall|k: int|
            0 <= k < split_after(specials, pending, text).len() ==> holds_no_special(
                specials,
                #[trigger] split_after(specials, pending, text)[k],
            ),
    decreases text.len(),
{
    lemma_pending_holds_none(specials, pending, text);
    if text.len() > 0 {
        match longest(specials, text) {
            Some(n) if 0 < n <= text.len() => {
                let rest = text.skip(n as int);
                lemma_text_segments_hold_none(specials, seq![], rest);
                let head = text_segment(pending);
                let tail = split_after(specials, seq![], rest);
                let all = split_after(specials, pending, text);
                assert forall|k: int| 0 <= k < all.len() implies holds_no_special(
                    specials,
                    #[trigger] all[k],
                ) by {
                    if k < head.len() {
                        assert(all[k] == head[k]);
                    } else if k > head.len() {
                        assert(all[k] == tail[k - head.len() - 1]);
                    }
                }
            },
            _ => {
                let more = pending.push(text[0]);
                let rest = text.skip(1);
                assert(more + rest == pending + text);
                lemma_no_special_here(specials, text);
                assert forall|i: int, n: int|
                    0 <= i < more.len() && 0 < n <= more.len() + rest.len() - i implies
                    !specials.contains_key(#[trigger] (more + rest).subrange(i, i + n)) by {
                    if i == pending.len() {
                        assert((pending + text).subrange(i, i + n) == text.take(n));
                    } else {
                        assert(!specials.contains_key((pending + text).subrange(i, i + n)));
                    }
                }
                lemma_text_segments_hold_none(specials, more, rest);
                let same = split_after(specials, more, rest);
                assert(split_after(specials, pending, text) == same);
                assert forall|k: int| 0 <= k < same.len() implies holds_no_special(
                    specials,
                    #[trigger] same[k],
                ) by {}
            },
        }
    }
}

/// Where no longest special token is found, no special token starts.
proof fn lemma_no_special_here(specials: Map<Seq<char>, u32>, text: Seq<char>)
    requires
        !specials.contains_key(Seq::empty()),
        !(longest(specials, text) matches Some(n) && 0 < n <= text.len()),
    ensures
        forall|n: int| 0 < n <= text.len() ==> !specials.contains_key(#[trigger] text.take(n)),
{
    assert forall|n: int| 0 < n <= text.len() implies !specials.contains_key(
        #[trigger] text.take(n),
    ) by {
        if specials.contains_key(text.take(n)) {
            lemma_some_longest(specials, text, n as nat, text.len());
            let m = choose|m: nat| is_longest(specials, text, m);
            assert(is_longest(specials, text, m));
            if m == 0 {
                assert(text.take(0) == Seq::<char>::empty());
            }
        }
    }
}

/// Where a special token starts, a longest one does.
proof fn lemma_some_longest(specials: Map<Seq<char>, u32>, text: Seq<char>, n: nat, hi: nat)
    requires
        n <= hi <= text.len(),
        specials.contains_key(text.take(n as int)),
        forall|m: nat| hi < m <= text.len() ==> !specials.contains_key(#[trigger] text.take(m as int)),
    ensures
        exists|m: nat| is_longest(specials, text, m),
    decreases hi - n,
{
    if specials.contains_key(text.take(hi as int)) {
        assert(is_longest(specials, text, hi));
    } else {
        lemma_some_longest(specials, text, n, (hi - 1) as nat);
    }
}

/// Where segment `k` stands, and what it is, given that the text that follows `pending` is cut.
proof fn lemma_segment_place(
    specials: Map<Seq<char>, u32>,
    pending: Seq<char>,
    text: Seq<char>,
    k: int,
)
    requires
        none_starts_in(specials, pending, text),
        !specials.contains_key(Seq::empty()),
        0 <= k < split_after(specials, pending, text).len(),
    ensures
        ({
            let segments = split_after(specials, pending, text);
            let whole = pending + text;
            let at = joined(segment_texts(segments.take(k))).len() as int;
            match segments[k] {
                Segment::Special(literal) => {
                    &&& specials.contains_key(literal)
                    &&& literal.len() > 0
                    &&& at + literal.len() <= whole.len()
                    &&& whole.subrange(at, at + literal.len()) == literal
                    &&& forall|n: int|
                        literal.len() < n <= whole.len() - at ==> !specials.contains_key(
                            #[trigger] whole.subrange(at, at + n),
                        )
                },
                Segment::Text(t) => {
                    &&& t.len() > 0
                    &&& at + t.len() <= whole.len()
                    &&& whole.subrange(at, at + t.len()) == t
                    &&& forall|i: int, n: int|
                        at <= i < at + t.len() && 0 < n <= whole.len() - i
                            ==> !specials.contains_key(#[trigger] whole.subrange(i, i + n))
                    &&& k + 1 < segments.len() ==> segments[k + 1] is Special
                },
            }
        }),
    decreases text.len(),
{
    let segments = split_after(specials, pending, text);
    let whole = pending + text;
    let head = text_segment(pending);
    lemma_text_segment(pending);
    assert(segments.take(0) == Seq::<Segment>::empty());
    assert(segment_texts(Seq::<Segment>::empty()) == Seq::<Seq<char>>::empty());
    if text.len() == 0 {
        assert(whole.subrange(0, pending.len() as int) == pending);
    } else {
        match longest(specials, text) {
            Some(n) if 0 < n <= text.len() => {
                let literal = text.take(n as int);
                let rest = text.skip(n as int);
                let tail = split_after(specials, seq![], rest);
                let front = head.push(Segment::Special(literal));
                assert(is_longest(specials, text, n));
                assert(segments == front + tail);
                if k < head.len() {
                    assert(segments.take(k) == Seq::<Segment>::empty());
                    assert(whole.subrange(0, pending.len() as int) == pending);
                    assert(segments[k + 1] == Segment::Special(literal));
                } else if k == head.len() {
                    let at = pending.len() as int;
                    assert(segments.take(k) == head);
                    assert(whole.subrange(at, at + n) == literal);
                    assert forall|m: int| n < m <= whole.len() - at implies !specials.contains_key(
                        #[trigger] whole.subrange(at, at + m),
                    ) by {
                        assert(whole.subrange(at, at + m) == text.take(m));
                        assert(!specials.contains_key(text.take(m as nat as int)));
                    }
                } else {
                    let j = k - front.len();
                    lemma_segment_place(specials, seq![], rest, j);
                    let none = Seq::<char>::empty();
                    assert(none + rest == rest);
                    assert(segments.take(k) == front + tail.take(j));
                    assert(segments[k] == tail[j]);
                    assert(k + 1 < segments.len() ==> segments[k + 1] == tail[j + 1]);
                    lemma_segment_texts_sum(front, tail.take(j));
                    lemma_segment_texts_sum(head, seq![Segment::Special(literal)]);
                    assert(head + seq![Segment::Special(literal)] == front);
                    assert(segment_texts(seq![Segment::Special(literal)]) == seq![literal]);
                    joined_of_one(literal);
                    let shift = pending.len() + n;
                    let far = joined(segment_texts(tail.take(j))).len() as int;
                    let at = joined(segment_texts(segments.take(k))).len() as int;
                    assert(at == shift + far);
                    assert(whole.len() == shift + rest.len());
                    assert forall|i: int, m: int|
                        0 <= i && 0 <= m && i + m <= rest.len() implies #[trigger] rest.subrange(
                        i,
                        i + m,
                    ) == whole.subrange(shift + i, shift + i + m) by {}
                    match segments[k] {
                        Segment::Special(l) => {
                            let m = l.len() as int;
                            assert(rest.subrange(far, far + m) == whole.subrange(at, at + m));
                            assert forall|x: int|
                                l.len() < x <= whole.len() - at implies !specials.contains_key(
                                #[trigger] whole.subrange(at, at + x),
                            ) by {
                                assert(rest.subrange(far, far + x) == whole.subrange(at, at + x));
                            }
                        },
                        Segment::Text(t) => {
                            let m = t.len() as int;
                            assert(rest.subrange(far, far + m) == whole.subrange(at, at + m));
                            assert forall|i: int, x: int|
                                at <= i < at + t.len() && 0 < x <= whole.len() - i implies
                                !specials.contains_key(#[trigger] whole.subrange(i, i + x)) by {
                                let y = i - shift;
                                assert(rest.subrange(y, y + x) == whole.subrange(i, i + x));
                            }
                        },
                    }
                }
            },
            _ => {
                let more = pending.push(text[0]);
                let rest = text.skip(1);
                assert(more + rest == whole);
                lemma_no_special_here(specials, text);
                assert forall|i: int, n: int|
                    0 <= i < more.len() && 0 < n <= more.len() + rest.len() - i implies
                    !specials.contains_key(#[trigger] (more + rest).subrange(i, i + n)) by {
                    if i == pending.len() {
                        assert(whole.subrange(i, i + n) == text.take(n));
                    } else {
                        assert(!specials.contains_key((pending + text).subrange(i, i + n)));
                    }
                }
                lemma_segment_place(specials, more, rest, k);
            },
        }
    }
}

/// Special tokens are matched from the left, the longest first. Each segment covers what lies at
/// its place in the text. A special token that is matched is one, and no longer one starts there;
/// in the text between no special token starts, not even one that reaches beyond it, and two
/// stretches of text never follow on each other.
pub proof fn longest_special_is_matched(specials: Map<Seq<char>, u32>, text: Seq<char>, k: int)
    requires
        !specials.is_empty(),
        !specials.contains_key(Seq::empty()),
        0 <= k < split(specials, text).len(),
    ensures
        ({
            let segments = split(specials, text);
            let at = joined(segment_texts(segments.take(k))).len() as int;
            match segments[k] {
                Segment::Special(literal) => {
                    &&& specials.contains_key(literal)
                    &&& literal.len() > 0
                    &&& at + literal.len() <= text.len()
                    &&& text.subrange(at, at + literal.len()) == literal
                    &&& forall|n: int|
                        literal.len() < n <= text.len() - at ==> !specials.contains_key(
                            #[trigger] text.subrange(at, at + n),
                        )
                },
                Segment::Text(t) => {
                    &&& t.len() > 0
                    &&& at + t.len() <= text.len()
                    &&& text.subrange(at, at + t.len()) == t
                    &&& forall|i: int, n: int|
                        at <= i < at + t.len() && 0 < n <= text.len() - i
                            ==> !specials.contains_key(#[trigger] text.subrange(i, i + n))
                    &&& k + 1 < segments.len() ==> segments[k + 1] is Special
                },
            }
        }),
{
    let none = Seq::<char>::empty();
    assert(none + text == text);
    lemma_segment_place(specials, none, text, k);
}

/// Without special tokens a text is one segment, even where it is empty.
pub proof fn no_specials_no_cuts(text: Seq<char>)
    ensures
        split(Map::empty(), text) == seq![Segment::Text(text)],
{
}

/// Every special token in a text is matched: the text between matches holds none.
pub proof fn every_special_is_matched(specials: Map<Seq<char>, u32>, text: Seq<char>)
    requires
        !specials.contains_key(Seq::empty()),
    ensures
        forall|k: int|
            0 <= k < split(specials, text).len() ==> holds_no_special(
                specials,
                #[trigger] split(specials, text)[k],
            ),
{
    if specials.is_empty() {
        assert forall|i: int, j: int| 0 <= i < j <= text.len() implies !specials.contains_key(
            #[trigger] text.subrange(i, j),
        ) by {
            assert(!specials.dom().contains(text.subrange(i, j)));
        }
    } else {
        lemma_text_segments_hold_none(specials, seq![], text);
    }
}

/// A segment of input text: the id of a matched special token, or ordinary text.
pub enum Seg {
    Special(u32),
    Text(String),
}

/// Whether `seg` stands for `segment`.
pub open spec fn seg_is(specials: Map<Seq<char>, u32>, seg: Seg, segment: Segment) -> bool {
    match segment {
        Segment::Special(literal) => seg == Seg::Special(specials[literal]),
        Segment::Text(text) => seg matches Seg::Text(t) && t@ == text,
    }
}

/// Whether `segs` stand for `segments`, one for one.
pub open spec fn segs_are(
    specials: Map<Seq<char>, u32>,
    segs: Seq<Seg>,
    segments: Seq<Segment>,
) -> bool {
    &&& segs.len() == segments.len()
    &&& forall|i: int| 0 <= i < segs.len() ==> seg_is(specials, #[trigger] segs[i], segments[i])
}

/// The registered special tokens: each literal with its id.
pub struct SpecialTokens {
    entries: Vec<(Vec<char>, u32)>,
}

impl View for SpecialTokens {
    type V = Map<Seq<char>, u32>;

    closed spec fn view(&self) -> Map<Seq<char>, u32> {
        Map::new(
            |k: Seq<char>| exists|i: int| self.holds(i, k),
            |k: Seq<char>| self.entries@[choose|i: int| self.holds(i, k)].1,
        )
    }
}

impl SpecialTokens {
    spec fn holds(self, i: int, k: Seq<char>) -> bool {
        0 <= i < self.entries@.len() && self.entries@[i].0@ == k
    }

    #[verifier::type_invariant]
    spec fn wf(self) -> bool {
        forall|i: int, j: int|
            #![trigger self.entries@[i], self.entries@[j]]
            0 <= i < self.entries@.len() && 0 <= j < self.entries@.len() && self.entries@[i].0@
                == self.entries@[j].0@ ==> i == j
    }

    /// Entry `i` is what the view holds of its literal.
    proof fn lemma_entry(self, i: int)
        requires
            self.wf(),
            0 <= i < self.entries@.len(),
        ensures
            self@.contains_key(self.entries@[i].0@),
            self@[self.entries@[i].0@] == self.entries@[i].1,
    {
        let k = self.entries@[i].0@;
        assert(self.holds(i, k));
        let j = choose|j: int| self.holds(j, k);
        assert(self.entries@[j].0@ == self.entries@[i].0@);
    }

    /// No special token.
    pub fn new() -> (r: SpecialTokens)
        ensures
            r@ == Map::<Seq<char>, u32>::empty(),
    {
        let r = SpecialTokens { entries: Vec::new() };
        assert(r@ =~= Map::<Seq<char>, u32>::empty());
        r
    }

    /// Whether no special token is registered.
    pub fn is_empty(&self) -> (r: bool)
        ensures
            r == self@.is_empty(),
    {
        proof {
            use_type_invariant(self);
            if self.entries@.len() > 0 {
                self.lemma_entry(0);
                assert(self@.dom().contains(self.entries@[0].0@));
            } else {
                assert(self@.dom() =~= Set::<Seq<char>>::empty());
            }
        }
        self.entries.len() == 0
    }

    /// Registers `literal` with `id`, in place of any id it had.
    pub fn insert(self, literal: &str, id: u32) -> (r: SpecialTokens)
        ensures
            r@ == self@.insert(literal@, id),
    {
        proof {
            use_type_invariant(&self);
        }
        let ghost before = self;
        let chars = chars_of(literal);
        let found = self.find(&chars);
        let mut entries = self.entries;
        match found {
            Some(i) => {
                entries[i].1 = id;
                let r = SpecialTokens { entries };
                proof {
                    before.lemma_replaced(r, i as int, id);
                }
                r
            },
            None => {
                entries.push((chars, id));
                let r = SpecialTokens { entries };
                proof {
                    before.lemma_appended(r, literal@, id);
                }
                r
            },
        }
    }

    /// Whether `literal` is registered.
    pub fn contains(&self, literal: &str) -> (r: bool)
        ensures
            r == self@.contains_key(literal@),
    {
        proof {
            use_type_invariant(self);
        }
        let chars = chars_of(literal);
        match self.find(&chars) {
            Some(i) => {
                proof {
                    self.lemma_entry(i as int);
                }
                true
            },
            None => {
                proof {
                    if self@.contains_key(literal@) {
                        let j = choose|j: int| self.holds(j, literal@);
                        assert(self.entries@[j].0@ == literal@);
                    }
                }
                false
            },
        }
    }

    /// The entry with literal `chars`.
    fn find(&self, chars: &Vec<char>) -> (r: Option<usize>)
        ensures
            match r {
                Some(i) => i < self.entries@.len() && self.entries@[i as int].0@ == chars@,
                None => forall|j: int|
                    0 <= j < self.entries@.len() ==> (#[trigger] self.entries@[j]).0@ != chars@,
            },
    {
        let mut i: usize = 0;
        while i < self.entries.len()
            invariant
                i <= self.entries@.len(),
                forall|j: int| 0 <= j < i ==> (#[trigger] self.entries@[j]).0@ != chars@,
            decreases self.entries@.len() - i,
        {
            if same_chars(&self.entries[i].0, chars) {
                return Some(i);
            }
            i += 1;
        }
        None
    }

    proof fn lemma_replaced(self, after: SpecialTokens, at: int, id: u32)
        requires
            self.wf(),
            after.wf(),
            0 <= at < self.entries@.len(),
            after.entries@.len() == self.entries@.len(),
            forall|j: int|
                0 <= j < self.entries@.len() && j != at ==> #[trigger] after.entries@[j]
                    == self.entries@[j],
            after.entries@[at].0@ == self.entries@[at].0@,
            after.entries@[at].1 == id,
        ensures
            after@ == self@.insert(self.entries@[at].0@, id),
    {
        let k0 = self.entries@[at].0@;
        assert forall|k: Seq<char>| #[trigger] after@.contains_key(k) == self@.insert(
            k0,
            id,
        ).contains_key(k) by {
            if after@.contains_key(k) {
                let j = choose|j: int| after.holds(j, k);
                assert(self.holds(j, k));
            }
            if self@.contains_key(k) {
                let j = choose|j: int| self.holds(j, k);
                assert(after.holds(j, k));
            }
            assert(after.holds(at, k0));
        }
        assert forall|k: Seq<char>| #[trigger] after@.contains_key(k) implies after@[k]
            == self@.insert(k0, id)[k] by {
            let j = choose|j: int| after.holds(j, k);
            after.lemma_entry(j);
            self.lemma_entry(j);
        }
        assert(after@ =~= self@.insert(k0, id));
    }

    proof fn lemma_appended(self, after: SpecialTokens, k0: Seq<char>, id: u32)
        requires
            self.wf(),
            after.wf(),
            after.entries@.len() == self.entries@.len() + 1,
            forall|j: int|
                0 <= j < self.entries@.len() ==> #[trigger] after.entries@[j] == self.entries@[j],
            after.entries@.last().0@ == k0,
            after.entries@.last().1 == id,
        ensures
            after@ == self@.insert(k0, id),
    {
        let at = self.entries@.len() as int;
        assert forall|k: Seq<char>| #[trigger] after@.contains_key(k) == self@.insert(
            k0,
            id,
        ).contains_key(k) by {
            if after@.contains_key(k) {
                let j = choose|j: int| after.holds(j, k);
                if j < at {
                    assert(self.holds(j, k));
                }
            }
            if self@.contains_key(k) {
                let j = choose|j: int| self.holds(j, k);
                assert(after.holds(j, k));
            }
            assert(after.holds(at, k0));
        }
        assert forall|k: Seq<char>| #[trigger] after@.contains_key(k) implies after@[k]
            == self@.insert(k0, id)[k] by {
            let j = choose|j: int| after.holds(j, k);
            after.lemma_entry(j);
            if j < at {
                self.lemma_entry(j);
                assert(after.entries@[at].0@ == k0);
            }
        }
        assert(after@ =~= self@.insert(k0, id));
    }

    /// The longest special token that starts at `text[at]`: its length and its id.
    fn longest_at(&self, text: &Vec<char>, at: usize) -> (r: Option<(usize, u32)>)
        requires
            at <= text@.len(),
        ensures
            match r {
                Some((n, id)) => {
                    &&& n <= text@.len() - at
                    &&& longest(self@, text@.skip(at as int)) == Some(n as nat)
                    &&& self@.contains_key(text@.skip(at as int).take(n as int))
                    &&& self@[text@.skip(at as int).take(n as int)] == id
                },
                None => longest(self@, text@.skip(at as int)) is None,
            },
    {
        proof {
            use_type_invariant(self);
        }
        let ghost s = text@.skip(at as int);
        let mut best: Option<(usize, u32)> = None;
        let mut i: usize = 0;
        while i < self.entries.len()
            invariant
                i <= self.entries@.len(),
                at <= text@.len(),
                s == text@.skip(at as int),
                self.wf(),
                match best {
                    Some((n, id)) => {
                        &&& n <= s.len()
                        &&& self@.contains_key(s.take(n as int))
                        &&& self@[s.take(n as int)] == id
                        &&& forall|j: int, m: nat|
                            0 <= j < i && n < m <= s.len() ==> (#[trigger] self.entries@[j]).0@
                                != #[trigger] s.take(m as int)
                    },
                    None => forall|j: int, m: nat|
                        0 <= j < i && m <= s.len() ==> (#[trigger] self.entries@[j]).0@
                            != #[trigger] s.take(m as int),
                },
            decreases self.entries@.len() - i,
        {
            let literal = &self.entries[i].0;
            if starts_here(text, at, literal) {
                proof {
                    self.lemma_entry(i as int);
                }
                let n = literal.len();
                let longer = match best {
                    None => true,
                    Some((m, _)) => n > m,
                };
                if longer {
                    best = Some((n, self.entries[i].1));
                    assert forall|j: int, m: nat| 0 <= j < i + 1 && n < m <= s.len() implies (
                    #[trigger] self.entries@[j]).0@ != #[trigger] s.take(m as int) by {
                        assert(s.take(m as int).len() == m);
                    }
                } else {
                    let ghost held = best.unwrap();
                    assert forall|m: nat| held.0 < m <= s.len() implies self.entries@[i as int].0@
                        != #[trigger] s.take(m as int) by {
                        assert(s.take(m as int).len() == m);
                    }
                }
            } else {
                assert forall|m: nat| m <= s.len() implies self.entries@[i as int].0@
                    != #[trigger] s.take(m as int) by {
                    assert(s.take(m as int).len() == m);
                }
            }
            i += 1;
        }
        proof {
            assert forall|m: nat|
                m <= s.len() && (best matches Some((n, _)) ==> n < m) implies !self@.contains_key(
                #[trigger] s.take(m as int),
            ) by {
                if self@.contains_key(s.take(m as int)) {
                    let j = choose|j: int| self.holds(j, s.take(m as int));
                    assert(self.entries@[j].0@ == s.take(m as int));
                }
            }
            match best {
                Some((n, _)) => {
                    assert(is_longest(self@, s, n as nat));
                    lemma_longest_is_unique(self@, s, n as nat);
                },
                None => {
                    lemma_longest_none(self@, s);
                },
            }
        }
        best
    }

    /// Splits `text` on the special tokens.
    pub fn split_special(&self, text: &str) -> (r: Vec<Seg>)
        requires
            !self@.contains_key(Seq::<char>::empty()) || split_ends(self@, text@),
        ensures
            segs_are(self@, r@, split(self@, text@)),
            r@.len() == split(self@, text@).len(),
            forall|i: int|
                0 <= i < r@.len() ==> match split(self@, text@)[i] {
                    Segment::Special(literal) => #[trigger] r@[i] == Seg::Special(self@[literal]),
                    Segment::Text(t) => r@[i] matches Seg::Text(s) && s@ == t,
                },
    {
        proof {
            if !self@.contains_key(Seq::<char>::empty()) {
                split_ends_without_empty(self@, text@);
            }
        }
        let mut out: Vec<Seg> = Vec::new();
        if self.is_empty() {
            out.push(Seg::Text(text.to_string()));
            return out;
        }
        let chars = chars_of(text);
        let mut buf = String::new();
        let mut i: usize = 0;
        let ghost mut done: Seq<Segment> = seq![];
        let ghost all = split_after(self@, seq![], text@);
        assert(text@.skip(0) == text@);
        assert(done + all == all);
        while i < chars.len()
            invariant
                split_ends(self@, text@.skip(i as int)),
                chars@ == text@,
                i <= chars@.len(),
                segs_are(self@, out@, done),
                done + split_after(self@, buf@, text@.skip(i as int)) == all,
            decreases chars@.len() - i,
        {
            let ghost s = text@.skip(i as int);
            let ghost pending = buf@;
            let ghost before = done;
            match self.longest_at(&chars, i) {
                Some((n, id)) => {
                    let ghost literal = s.take(n as int);
                    proof {
                        done = before + text_segment(pending).push(Segment::Special(literal));
                        assert(s.skip(n as int) == text@.skip(i + n));
                        assert(before + (text_segment(pending).push(Segment::Special(literal))
                            + split_after(self@, seq![], s.skip(n as int))) == done + split_after(
                            self@,
                            seq![],
                            text@.skip(i + n),
                        ));
                    }
                    if buf.as_str().is_empty() {
                    } else {
                        out.push(Seg::Text(buf));
                        buf = String::new();
                    }
                    out.push(Seg::Special(id));
                    assert(buf@ == Seq::<char>::empty());
                    i += n;
                },
                None => {
                    buf.push(chars[i]);
                    i += 1;
                    assert(s.skip(1) == text@.skip(i as int));
                },
            }
        }
        assert(text@.skip(i as int).len() == 0);
        assert(all == done + text_segment(buf@));
        if buf.as_str().is_empty() {
            assert(all == done);
        } else {
            out.push(Seg::Text(buf));
        }
        out
    }
}

/// Whether two character vectors are equal.
fn same_chars(a: &Vec<char>, b: &Vec<char>) -> (r: bool)
    ensures
        r == (a@ == b@),
{
    if a.len() != b.len() {
        return false;
    }
    let mut i: usize = 0;
    while i < a.len()
        invariant
            i <= a@.len(),
            a@.len() == b@.len(),
            forall|j: int| 0 <= j < i ==> a@[j] == b@[j],
        decreases a@.len() - i,
    {
        if a[i] != b[i] {
            return false;
        }
        i += 1;
    }
    assert(a@ =~= b@);
    true
}

/// Whether `text[at..]` starts with `literal`.
fn starts_here(text: &Vec<char>, at: usize, literal: &Vec<char>) -> (r: bool)
    requires
        at <= text@.len(),
    ensures
        r == (literal@.len() <= text@.len() - at && text@.skip(at as int).take(
            literal@.len() as int,
        ) == literal@),
{
    let total = text.len();
    if literal.len() > total - at {
        return false;
    }
    let mut i: usize = 0;
    while i < literal.len()
        invariant
            i <= literal@.len(),
            total == text@.len(),
            at <= text@.len(),
            literal@.len() <= text@.len() - at,
            forall|j: int| 0 <= j < i ==> literal@[j] == text@[at + j],
        decreases literal@.len() - i,
    {
        if literal[i] != text[at + i] {
            assert(text@.skip(at as int).take(literal@.len() as int)[i as int] == text@[at + i]);
            return false;
        }
        i += 1;
    }
    assert(text@.skip(at as int).take(literal@.len() as int) =~= literal@);
    true
}

} // verus!
