//! Byte-pair merging: ranked merge rules and their application to one chunk of text.

use vstd::hash_map::StringHashMap;
use vstd::prelude::*;

verus! {

/// The texts of a sequence of strings.
pub open spec fn texts(v: Seq<String>) -> Seq<Seq<char>> {
    Seq::new(v.len(), |i: int| v[i]@)
}

/// The texts of a sequence of string pairs.
pub open spec fn text_pairs(v: Seq<(String, String)>) -> Seq<(Seq<char>, Seq<char>)> {
    Seq::new(v.len(), |i: int| (v[i].0@, v[i].1@))
}

/// `parts` written one after the other.
pub open spec fn joined(parts: Seq<Seq<char>>) -> Seq<char>
    decreases parts.len(),
{
    if parts.len() == 0 {
        seq![]
    } else {
        parts[0] + joined(parts.skip(1))
    }
}

/// The merge rules of an ordered list: the rank of a pair is the index of its last occurrence.
pub open spec fn ranked(list: Seq<(Seq<char>, Seq<char>)>) -> Map<(Seq<char>, Seq<char>), u32>
    decreases list.len(),
{
    if list.len() == 0 {
        Map::empty()
    } else {
        ranked(list.drop_last()).insert(list.last(), (list.len() - 1) as u32)
    }
}

/// The adjacent pair of symbols at position `i`.
pub open spec fn pair_at(symbols: Seq<Seq<char>>, i: int) -> (Seq<char>, Seq<char>) {
    (symbols[i], symbols[i + 1])
}

/// Whether position `i` holds the adjacent pair with the lowest rank, the leftmost one where
/// several have it.
pub open spec fn is_best_pair(
    rules: Map<(Seq<char>, Seq<char>), u32>,
    symbols: Seq<Seq<char>>,
    i: int,
) -> bool {
    &&& 0 <= i < symbols.len() - 1
    &&& rules.contains_key(pair_at(symbols, i))
    &&& forall|j: int|
        0 <= j < symbols.len() - 1 && rules.contains_key(#[trigger] pair_at(symbols, j)) ==> {
            &&& rules[pair_at(symbols, i)] <= rules[pair_at(symbols, j)]
            &&& j < i ==> rules[pair_at(symbols, i)] < rules[pair_at(symbols, j)]
        }
}

/// `symbols` with each occurrence of `a` followed by `b`, taken from the left, made one symbol.
pub open spec fn merge_pass(symbols: Seq<Seq<char>>, a: Seq<char>, b: Seq<char>) -> Seq<Seq<char>>
    decreases symbols.len(),
{
    if symbols.len() == 0 {
        seq![]
    } else if symbols.len() >= 2 && symbols[0] == a && symbols[1] == b {
        seq![a + b] + merge_pass(symbols.skip(2), a, b)
    } else {
        seq![symbols[0]] + merge_pass(symbols.skip(1), a, b)
    }
}

/// `symbols` with the best pair merged again and again, until no rule applies.
pub open spec fn merged(
    rules: Map<(Seq<char>, Seq<char>), u32>,
    symbols: Seq<Seq<char>>,
) -> Seq<Seq<char>>
    decreases symbols.len(),
    via merged_decreases
{
    if exists|i: int| is_best_pair(rules, symbols, i) {
        let i = choose|i: int| is_best_pair(rules, symbols, i);
        merged(rules, merge_pass(symbols, symbols[i], symbols[i + 1]))
    } else {
        symbols
    }
}

#[via_fn]
proof fn merged_decreases(rules: Map<(Seq<char>, Seq<char>), u32>, symbols: Seq<Seq<char>>) {
    if exists|i: int| is_best_pair(rules, symbols, i) {
        let i = choose|i: int| is_best_pair(rules, symbols, i);
        lemma_merge_pass_shortens(symbols, symbols[i], symbols[i + 1], i);
    }
}

proof fn lemma_merge_pass_len(symbols: Seq<Seq<char>>, a: Seq<char>, b: Seq<char>)
    ensures
        merge_pass(symbols, a, b).len() <= symbols.len(),
    decreases symbols.len(),
{
    if symbols.len() == 0 {
    } else if symbols.len() >= 2 && symbols[0] == a && symbols[1] == b {
        lemma_merge_pass_len(symbols.skip(2), a, b);
    } else {
        lemma_merge_pass_len(symbols.skip(1), a, b);
    }
}

pub(crate) proof fn lemma_merge_pass_shortens(symbols: Seq<Seq<char>>, a: Seq<char>, b: Seq<char>, i: int)
    requires
        0 <= i < symbols.len() - 1,
        symbols[i] == a,
        symbols[i + 1] == b,
    ensures
        merge_pass(symbols, a, b).len() < symbols.len(),
    decreases symbols.len(),
{
    if symbols[0] == a && symbols[1] == b {
        lemma_merge_pass_len(symbols.skip(2), a, b);
    } else {
        lemma_merge_pass_shortens(symbols.skip(1), a, b, i - 1);
    }
}

proof fn lemma_best_pair_is_unique(
    rules: Map<(Seq<char>, Seq<char>), u32>,
    symbols: Seq<Seq<char>>,
    i: int,
    j: int,
)
    requires
        is_best_pair(rules, symbols, i),
        is_best_pair(rules, symbols, j),
    ensures
        i == j,
{
    assert(rules.contains_key(pair_at(symbols, i)));
    assert(rules.contains_key(pair_at(symbols, j)));
}

/// Joining two lists of parts joins their texts.
pub proof fn joined_of_sum(a: Seq<Seq<char>>, b: Seq<Seq<char>>)
    ensures
        joined(a + b) == joined(a) + joined(b),
    decreases a.len(),
{
    if a.len() == 0 {
        assert(a + b == b);
        assert(joined(a) + joined(b) == joined(b));
    } else {
        assert((a + b).skip(1) == a.skip(1) + b);
        joined_of_sum(a.skip(1), b);
        assert(joined(a + b) == joined(a) + joined(b));
    }
}

/// A single part is its own text.
pub proof fn joined_of_one(part: Seq<char>)
    ensures
        joined(seq![part]) == part,
{
    reveal_with_fuel(joined, 2);
    assert(seq![part].skip(1) == Seq::<Seq<char>>::empty());
    assert(part + Seq::<char>::empty() == part);
}

/// A merge pass keeps the text.
pub proof fn merge_pass_keeps_text(symbols: Seq<Seq<char>>, a: Seq<char>, b: Seq<char>)
    ensures
        joined(merge_pass(symbols, a, b)) == joined(symbols),
    decreases symbols.len(),
{
    if symbols.len() == 0 {
    } else if symbols.len() >= 2 && symbols[0] == a && symbols[1] == b {
        let rest = merge_pass(symbols.skip(2), a, b);
        merge_pass_keeps_text(symbols.skip(2), a, b);
        assert((seq![a + b] + rest).skip(1) == rest);
        assert(symbols.skip(1).skip(1) == symbols.skip(2));
        assert(joined(symbols.skip(1)) == b + joined(symbols.skip(2)));
        assert(joined(symbols) == a + (b + joined(symbols.skip(2))));
        assert(joined(seq![a + b] + rest) == (a + b) + joined(rest));
    } else {
        let rest = merge_pass(symbols.skip(1), a, b);
        merge_pass_keeps_text(symbols.skip(1), a, b);
        assert((seq![symbols[0]] + rest).skip(1) == rest);
    }
}

/// Merging neither adds, drops nor reorders a character.
pub proof fn merging_keeps_text(
    rules: Map<(Seq<char>, Seq<char>), u32>,
    symbols: Seq<Seq<char>>,
)
    ensures
        joined(merged(rules, symbols)) == joined(symbols),
    decreases symbols.len(),
{
    if exists|i: int| is_best_pair(rules, symbols, i) {
        let i = choose|i: int| is_best_pair(rules, symbols, i);
        lemma_merge_pass_shortens(symbols, symbols[i], symbols[i + 1], i);
        merge_pass_keeps_text(symbols, symbols[i], symbols[i + 1]);
        merging_keeps_text(rules, merge_pass(symbols, symbols[i], symbols[i + 1]));
    }
}

/// Merge rules, looked up by their left and then by their right symbol.
pub struct MergeTable {
    lefts: StringHashMap<usize>,
    rights: Vec<StringHashMap<u32>>,
}

impl View for MergeTable {
    type V = Map<(Seq<char>, Seq<char>), u32>;

    closed spec fn view(&self) -> Map<(Seq<char>, Seq<char>), u32> {
        Map::new(
            |p: (Seq<char>, Seq<char>)|
                self.lefts@.contains_key(p.0)
                    && self.rights@[self.lefts@[p.0] as int]@.contains_key(p.1),
            |p: (Seq<char>, Seq<char>)| self.rights@[self.lefts@[p.0] as int]@[p.1],
        )
    }
}

impl MergeTable {
    #[verifier::type_invariant]
    spec fn wf(self) -> bool {
        &&& forall|k: Seq<char>| #[trigger]
            self.lefts@.contains_key(k) ==> self.lefts@[k] < self.rights@.len()
        &&& forall|j: Seq<char>, k: Seq<char>|
            #![trigger self.lefts@[j], self.lefts@[k]]
            self.lefts@.contains_key(j) && self.lefts@.contains_key(k) && self.lefts@[j]
                == self.lefts@[k] ==> j == k
    }

    /// A table with no rule.
    pub fn new() -> (r: MergeTable)
        ensures
            r@ == Map::<(Seq<char>, Seq<char>), u32>::empty(),
    {
        let r = MergeTable { lefts: StringHashMap::new(), rights: Vec::new() };
        assert(r@ =~= Map::<(Seq<char>, Seq<char>), u32>::empty());
        r
    }

    /// Gives the pair `(a, b)` rank `rank`, in place of any rank it had.
    pub fn insert(self, a: String, b: String, rank: u32) -> (r: MergeTable)
        ensures
            r@ == self@.insert((a@, b@), rank),
    {
        proof {
            use_type_invariant(&self);
        }
        let ghost before = self;
        let MergeTable { lefts, rights } = self;
        let mut lefts = lefts;
        let mut rights = rights;
        let slot = match lefts.get(a.as_str()) {
            Some(i) => Some(*i),
            None => None,
        };
        match slot {
            Some(i) => {
                rights[i].insert(b, rank);
                let r = MergeTable { lefts, rights };
                assert forall|p: (Seq<char>, Seq<char>)| #[trigger] r@.contains_key(p) == before@.insert(
                    (a@, b@),
                    rank,
                ).contains_key(p) by {
                    if before.lefts@.contains_key(p.0) && p.0 != a@ {
                        assert(before.lefts@[p.0] != before.lefts@[a@]);
                    }
                }
                assert forall|p: (Seq<char>, Seq<char>)| #[trigger] r@.contains_key(p) implies r@[p]
                    == before@.insert((a@, b@), rank)[p] by {
                    if p.0 != a@ {
                        assert(before.lefts@[p.0] != before.lefts@[a@]);
                    }
                }
                assert(r@ =~= before@.insert((a@, b@), rank));
                r
            },
            None => {
                let ghost key = a@;
                let ghost right = b@;
                let mut fresh: StringHashMap<u32> = StringHashMap::new();
                fresh.insert(b, rank);
                lefts.insert(a, rights.len());
                rights.push(fresh);
                let r = MergeTable { lefts, rights };
                assert forall|p: (Seq<char>, Seq<char>)| #[trigger] r@.contains_key(p) == before@.insert(
                    (key, right),
                    rank,
                ).contains_key(p) by {}
                assert(r@ =~= before@.insert((key, right), rank));
                r
            },
        }
    }

    /// The rank of the pair `(a, b)`.
    pub fn get(&self, a: &str, b: &str) -> (r: Option<u32>)
        ensures
            r == (if self@.contains_key((a@, b@)) {
                Some(self@[(a@, b@)])
            } else {
                None
            }),
    {
        proof {
            use_type_invariant(self);
        }
        match self.lefts.get(a) {
            Some(i) => match self.rights[*i].get(b) {
                Some(rank) => Some(*rank),
                None => None,
            },
            None => None,
        }
    }

    /// The table of an ordered list of rules, the rank of each its index.
    pub fn of_list(list: Vec<(String, String)>) -> (r: MergeTable)
        ensures
            r@ == ranked(text_pairs(list@)),
    {
        let ghost all = text_pairs(list@);
        let mut table = MergeTable::new();
        let mut i: usize = 0;
        assert(all.take(0) == Seq::<(Seq<char>, Seq<char>)>::empty());
        while i < list.len()
            invariant
                i <= list@.len(),
                all == text_pairs(list@),
                table@ == ranked(all.take(i as int)),
            decreases list@.len() - i,
        {
            let a = list[i].0.clone();
            let b = list[i].1.clone();
            table = table.insert(a, b, i as u32);
            i += 1;
            assert(all.take(i as int).drop_last() == all.take(i - 1));
        }
        assert(all.take(list@.len() as int) == all);
        table
    }
}

/// Finds the best pair of `symbols`.
fn find_best_pair(rules: &MergeTable, symbols: &Vec<String>) -> (r: Option<usize>)
    ensures
        match r {
            Some(i) => is_best_pair(rules@, texts(symbols@), i as int),
            None => forall|i: int| !is_best_pair(rules@, texts(symbols@), i),
        },
        match r {
            Some(i) => {
                let found = (symbols@[i as int]@, symbols@[i + 1]@);
                &&& i + 1 < symbols@.len()
                &&& rules@.contains_key(found)
                &&& forall|j: int|
                    #![trigger symbols@[j]]
                    0 <= j < symbols@.len() - 1 && rules@.contains_key(
                        (symbols@[j]@, symbols@[j + 1]@),
                    ) ==> rules@[found] <= rules@[(symbols@[j]@, symbols@[j + 1]@)]
            },
            None => forall|j: int|
                #![trigger symbols@[j]]
                0 <= j < symbols@.len() - 1 ==> !rules@.contains_key(
                    (symbols@[j]@, symbols@[j + 1]@),
                ),
        },
{
    let ghost s = texts(symbols@);
    let mut best: Option<(usize, u32)> = None;
    let mut i: usize = 0;
    while i < symbols.len() && i + 1 < symbols.len()
        invariant
            s == texts(symbols@),
            0 <= i <= symbols@.len(),
            symbols@.len() > 0 ==> i <= symbols@.len() - 1,
            match best {
                Some((at, rank)) => {
                    &&& at < i
                    &&& rules@.contains_key(pair_at(s, at as int))
                    &&& rules@[pair_at(s, at as int)] == rank
                    &&& forall|j: int|
                        0 <= j < i && rules@.contains_key(#[trigger] pair_at(s, j)) ==> {
                            &&& rank <= rules@[pair_at(s, j)]
                            &&& j < at ==> rank < rules@[pair_at(s, j)]
                        }
                },
                None => forall|j: int|
                    0 <= j < i ==> !rules@.contains_key(#[trigger] pair_at(s, j)),
            },
        decreases symbols@.len() - i,
    {
        let found = rules.get(symbols[i].as_str(), symbols[i + 1].as_str());
        assert((symbols@[i as int]@, symbols@[i + 1]@) == pair_at(s, i as int));
        if let Some(rank) = found {
            let better = match best {
                None => true,
                Some((_, r)) => rank < r,
            };
            if better {
                best = Some((i, rank));
            }
        }
        i += 1;
    }
    assert forall|j: int| #![trigger symbols@[j]] 0 <= j < symbols@.len() - 1 implies pair_at(s, j)
        == (symbols@[j]@, symbols@[j + 1]@) by {}
    match best {
        Some((at, _)) => Some(at),
        None => None,
    }
}

/// Merges every occurrence of `a` followed by `b`, in one pass from the left.
fn merge_every(symbols: &Vec<String>, a: &String, b: &String) -> (r: Vec<String>)
    ensures
        texts(r@) == merge_pass(texts(symbols@), a@, b@),
{
    let ghost s = texts(symbols@);
    let mut out: Vec<String> = Vec::new();
    let mut i: usize = 0;
    assert(s.skip(0) == s);
    assert(texts(out@) + merge_pass(s.skip(0), a@, b@) == merge_pass(s, a@, b@));
    while i < symbols.len()
        invariant
            s == texts(symbols@),
            i <= symbols@.len(),
            texts(out@) + merge_pass(s.skip(i as int), a@, b@) == merge_pass(s, a@, b@),
        decreases symbols@.len() - i,
    {
        let ghost before = texts(out@);
        let ghost rest = s.skip(i as int);
        if i + 1 < symbols.len() && symbols[i] == *a && symbols[i + 1] == *b {
            let mut both = a.clone();
            both.append(b.as_str());
            out.push(both);
            i += 2;
            assert(rest.skip(2) == s.skip(i as int));
            assert(texts(out@) == before.push(a@ + b@));
            assert(before + (seq![a@ + b@] + merge_pass(rest.skip(2), a@, b@)) == before.push(
                a@ + b@,
            ) + merge_pass(s.skip(i as int), a@, b@));
        } else {
            out.push(symbols[i].clone());
            i += 1;
            assert(rest.skip(1) == s.skip(i as int));
            assert(texts(out@) == before.push(rest[0]));
            assert(before + (seq![rest[0]] + merge_pass(rest.skip(1), a@, b@)) == before.push(
                rest[0],
            ) + merge_pass(s.skip(i as int), a@, b@));
        }
    }
    assert(s.skip(i as int).len() == 0);
    assert(texts(out@) + Seq::<Seq<char>>::empty() == texts(out@));
    out
}

/// Merges the best pair of `symbols` again and again, until no rule applies.
pub fn merge_symbols(rules: &MergeTable, symbols: Vec<String>) -> (r: Vec<String>)
    ensures
        texts(r@) == merged(rules@, texts(symbols@)),
        forall|j: int|
            #![trigger r@[j]]
            0 <= j < r@.len() - 1 ==> !rules@.contains_key((r@[j]@, r@[j + 1]@)),
{
    let ghost start = texts(symbols@);
    let mut symbols = symbols;
    let mut best = find_best_pair(rules, &symbols);
    while best.is_some()
        invariant
            merged(rules@, texts(symbols@)) == merged(rules@, start),
            match best {
                Some(i) => is_best_pair(rules@, texts(symbols@), i as int),
                None => {
                    &&& forall|i: int| !is_best_pair(rules@, texts(symbols@), i)
                    &&& forall|j: int|
                        #![trigger symbols@[j]]
                        0 <= j < symbols@.len() - 1 ==> !rules@.contains_key(
                            (symbols@[j]@, symbols@[j + 1]@),
                        )
                },
            },
        decreases symbols@.len(),
    {
        let i = best.unwrap();
        let ghost s = texts(symbols@);
        proof {
            let j = choose|j: int| is_best_pair(rules@, s, j);
            lemma_best_pair_is_unique(rules@, s, i as int, j);
            lemma_merge_pass_shortens(s, s[i as int], s[i + 1], i as int);
        }
        let next = merge_every(&symbols, &symbols[i], &symbols[i + 1]);
        assert(texts(next@).len() == next@.len());
        symbols = next;
        best = find_best_pair(rules, &symbols);
    }
    symbols
}

} // verus!
