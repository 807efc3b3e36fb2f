//! In which order merge rules apply, stated over the list of rules.

use crate::tokenizer::bpe::{
    is_best_pair, lemma_merge_pass_shortens, merge_pass, merged, pair_at, ranked,
};
use vstd::prelude::*;

verus! {

/// The rank of a pair is the index at which the list has it last; a pair that is not listed has
/// no rank.
pub proof fn rank_is_last_index(list: Seq<(Seq<char>, Seq<char>)>, p: (Seq<char>, Seq<char>))
    requires
        list.len() <= 0x1_0000_0000,
    ensures
        ranked(list).contains_key(p) <==> list.contains(p),
        list.contains(p) ==> {
            &&& ranked(list)[p] < list.len()
            &&& list[ranked(list)[p] as int] == p
            &&& forall|q: int| ranked(list)[p] < q < list.len() ==> #[trigger] list[q] != p
        },
    decreases list.len(),
{
    if list.len() > 0 {
        let init = list.drop_last();
        rank_is_last_index(init, p);
        assert(list[list.len() - 1] == list.last());
        if init.contains(p) {
            let k = choose|k: int| 0 <= k < init.len() && init[k] == p;
            assert(list[k] == p);
        }
        if list.contains(p) && list.last() != p {
            let k = choose|k: int| 0 <= k < list.len() && list[k] == p;
            assert(init[k] == p);
            assert forall|q: int| ranked(list)[p] < q < list.len() implies #[trigger] list[q]
                != p by {
                if q < init.len() {
                    assert(init[q] == list[q]);
                }
            }
        }
    }
}

/// A merge pass goes over the symbols from the left. The starts of the symbols that it gives are
/// at `r`: where `a` and `b` stand next to each other they become one symbol, and any other symbol
/// is kept.
pub proof fn pass_merges_every_occurrence(
    symbols: Seq<Seq<char>>,
    a: Seq<char>,
    b: Seq<char>,
) -> (r: Seq<int>)
    ensures
        r.len() == merge_pass(symbols, a, b).len() + 1,
        r[0] == 0,
        r[r.len() - 1] == symbols.len(),
        forall|k: int|
            #![trigger r[k]]
            0 <= k < r.len() - 1 ==> {
                &&& 0 <= r[k] < symbols.len()
                &&& if r[k] + 1 < symbols.len() && symbols[r[k]] == a && symbols[r[k] + 1] == b {
                    r[k + 1] == r[k] + 2 && merge_pass(symbols, a, b)[k] == a + b
                } else {
                    r[k + 1] == r[k] + 1 && merge_pass(symbols, a, b)[k] == symbols[r[k]]
                }
            },
    decreases symbols.len(),
{
    let out = merge_pass(symbols, a, b);
    if symbols.len() == 0 {
        seq![0]
    } else {
        let step: int = if symbols.len() >= 2 && symbols[0] == a && symbols[1] == b {
            2
        } else {
            1
        };
        let rest = symbols.skip(step);
        let tail = pass_merges_every_occurrence(rest, a, b);
        let r = seq![0int] + Seq::new(tail.len(), |k: int| tail[k] + step);
        assert forall|k: int|
            #![trigger r[k]]
            0 <= k < r.len() - 1 implies {
            &&& 0 <= r[k] < symbols.len()
            &&& if r[k] + 1 < symbols.len() && symbols[r[k]] == a && symbols[r[k] + 1] == b {
                r[k + 1] == r[k] + 2 && out[k] == a + b
            } else {
                r[k + 1] == r[k] + 1 && out[k] == symbols[r[k]]
            }
        } by {
            if k > 0 {
                let at = tail[k - 1];
                assert(r[k] == at + step);
                assert(r[k + 1] == tail[k] + step);
                assert(tail[k] == tail[(k - 1) + 1]);
                assert(rest[at] == symbols[at + step]);
                if at + 1 < rest.len() {
                    assert(rest[at + 1] == symbols[at + step + 1]);
                }
                assert(out[k] == merge_pass(rest, a, b)[k - 1]);
            } else {
                assert(r[1] == tail[0] + step);
            }
        }
        r
    }
}

proof fn lemma_some_best_pair(
    rules: Map<(Seq<char>, Seq<char>), u32>,
    symbols: Seq<Seq<char>>,
    n: int,
) -> (r: Option<int>)
    requires
        0 <= n <= symbols.len() - 1,
    ensures
        match r {
            Some(i) => {
                &&& 0 <= i < n
                &&& rules.contains_key(pair_at(symbols, i))
                &&& forall|j: int|
                    0 <= j < n && rules.contains_key(#[trigger] pair_at(symbols, j)) ==> {
                        &&& rules[pair_at(symbols, i)] <= rules[pair_at(symbols, j)]
                        &&& j < i ==> rules[pair_at(symbols, i)] < rules[pair_at(symbols, j)]
                    }
            },
            None => forall|j: int|
                0 <= j < n ==> !rules.contains_key(#[trigger] pair_at(symbols, j)),
        },
    decreases n,
{
    if n == 0 {
        None
    } else {
        let before = lemma_some_best_pair(rules, symbols, n - 1);
        let last = pair_at(symbols, n - 1);
        match before {
            None => if rules.contains_key(last) {
                Some(n - 1)
            } else {
                None
            },
            Some(i) => if rules.contains_key(last) && rules[last] < rules[pair_at(symbols, i)] {
                Some(n - 1)
            } else {
                Some(i)
            },
        }
    }
}

/// Merging goes by the order of the list, with no regard to where in the text a pair stands. `r`
/// tells the symbols before, between and after the merges, and the index of the rule of each
/// merge. Each merge makes one symbol of every occurrence of its pair; while it is made, no other
/// pair of neighbours has a rule that is listed earlier (where a pair is listed twice, its last
/// place counts). At the end no pair of neighbours is listed.
pub proof fn merging_follows_list_order(
    list: Seq<(Seq<char>, Seq<char>)>,
    symbols: Seq<Seq<char>>,
) -> (r: (Seq<Seq<Seq<char>>>, Seq<int>))
    requires
        list.len() <= 0x1_0000_0000,
    ensures
        r.0.len() == r.1.len() + 1,
        r.0[0] == symbols,
        r.0[r.1.len() as int] == merged(ranked(list), symbols),
        forall|k: int|
            #![trigger r.1[k]]
            0 <= k < r.1.len() ==> {
                let now = r.0[k];
                let rule = r.1[k];
                &&& 0 <= rule < list.len()
                &&& r.0[k + 1] == merge_pass(now, list[rule].0, list[rule].1)
                &&& exists|i: int|
                    0 <= i < now.len() - 1 && #[trigger] now[i] == list[rule].0 && now[i + 1]
                        == list[rule].1
                &&& forall|q: int| rule < q < list.len() ==> #[trigger] list[q] != list[rule]
                &&& forall|i: int, q: int|
                    #![trigger now[i], list[q]]
                    0 <= i < now.len() - 1 && 0 <= q < rule && now[i] == list[q].0 && now[i + 1]
                        == list[q].1 ==> exists|later: int|
                        rule <= later < list.len() && #[trigger] list[later] == list[q]
            },
        forall|i: int|
            #![trigger merged(ranked(list), symbols)[i]]
            0 <= i < merged(ranked(list), symbols).len() - 1 ==> !list.contains(
                (merged(ranked(list), symbols)[i], merged(ranked(list), symbols)[i + 1]),
            ),
    decreases symbols.len(),
{
    let rules = ranked(list);
    if symbols.len() < 2 {
        assert(forall|i: int| !is_best_pair(rules, symbols, i));
        (seq![symbols], seq![])
    } else {
        let found = lemma_some_best_pair(rules, symbols, symbols.len() - 1);
        if found is None {
            assert forall|i: int| !is_best_pair(rules, symbols, i) by {
                if is_best_pair(rules, symbols, i) {
                    assert(rules.contains_key(pair_at(symbols, i)));
                }
            }
            assert forall|i: int|
                #![trigger merged(rules, symbols)[i]]
                0 <= i < symbols.len() - 1 implies !list.contains((symbols[i], symbols[i + 1])) by {
                rank_is_last_index(list, pair_at(symbols, i));
            }
            (seq![symbols], seq![])
        } else {
            let f = found->Some_0;
            assert(is_best_pair(rules, symbols, f));
            let i = choose|i: int| is_best_pair(rules, symbols, i);
            let pair = pair_at(symbols, i);
            rank_is_last_index(list, pair);
            let rule = rules[pair] as int;
            let next = merge_pass(symbols, symbols[i], symbols[i + 1]);
            lemma_merge_pass_shortens(symbols, symbols[i], symbols[i + 1], i);
            let (states, picks) = merging_follows_list_order(list, next);
            let all = seq![symbols] + states;
            let rs = seq![rule] + picks;
            assert(merged(rules, symbols) == merged(rules, next));
            assert forall|k: int|
                #![trigger rs[k]]
                0 <= k < rs.len() implies {
                let now = all[k];
                let rule = rs[k];
                &&& 0 <= rule < list.len()
                &&& all[k + 1] == merge_pass(now, list[rule].0, list[rule].1)
                &&& exists|i: int|
                    0 <= i < now.len() - 1 && #[trigger] now[i] == list[rule].0 && now[i + 1]
                        == list[rule].1
                &&& forall|q: int| rule < q < list.len() ==> #[trigger] list[q] != list[rule]
                &&& forall|i: int, q: int|
                    #![trigger now[i], list[q]]
                    0 <= i < now.len() - 1 && 0 <= q < rule && now[i] == list[q].0 && now[i + 1]
                        == list[q].1 ==> exists|later: int|
                        rule <= later < list.len() && #[trigger] list[later] == list[q]
            } by {
                if k == 0 {
                    assert(all[1] == states[0]);
                    assert(symbols[i] == list[rule].0);
                    assert forall|j: int, q: int|
                        #![trigger symbols[j], list[q]]
                        0 <= j < symbols.len() - 1 && 0 <= q < rule && symbols[j] == list[q].0
                            && symbols[j + 1] == list[q].1 implies exists|later: int|
                        rule <= later < list.len() && #[trigger] list[later] == list[q] by {
                        let other = pair_at(symbols, j);
                        assert(other == list[q]);
                        assert(list.contains(other));
                        rank_is_last_index(list, other);
                        assert(list[rules[other] as int] == list[q]);
                    }
                } else {
                    assert(all[k] == states[k - 1]);
                    assert(all[k + 1] == states[k]);
                    assert(states[k] == states[(k - 1) + 1]);
                    assert(rs[k] == picks[k - 1]);
                }
            }
            (all, rs)
        }
    }
}

/// Two rules that compete for a symbol: of three symbols in a row, those are joined first whose
/// rule is listed earlier, whichever side they are on.
pub proof fn earlier_of_two_rules_wins(
    list: Seq<(Seq<char>, Seq<char>)>,
    x: Seq<char>,
    y: Seq<char>,
    z: Seq<char>,
    left: int,
    right: int,
)
    requires
        list.len() <= 0x1_0000_0000,
        0 <= left < list.len(),
        0 <= right < list.len(),
        list[left] == (x, y),
        list[right] == (y, z),
        (x, y) != (y, z),
        forall|i: int, j: int| 0 <= i < j < list.len() ==> list[i] != list[j],
        !list.contains((x + y, z)),
        !list.contains((x, y + z)),
    ensures
        left < right ==> merged(ranked(list), seq![x, y, z]) == seq![x + y, z],
        right < left ==> merged(ranked(list), seq![x, y, z]) == seq![x, y + z],
{
    let s = seq![x, y, z];
    let (states, picks) = merging_follows_list_order(list, s);
    assert(s[0] == x && s[1] == y && s[2] == z);
    assert(list.contains(list[left]));
    if picks.len() == 0 {
        let end = merged(ranked(list), s);
        assert(end[0] == x && end[1] == y);
        assert(false);
    }
    let rule = picks[0];
    let best = if left < right {
        left
    } else {
        right
    };
    assert(states[0] == s);
    assert(rule == best) by {
        if rule > best {
            let at: int = if best == left {
                0
            } else {
                1
            };
            assert(s[at] == list[best].0 && s[at + 1] == list[best].1);
            let later = choose|later: int|
                rule <= later < list.len() && #[trigger] list[later] == list[best];
            assert(list[best] != list[later]);
        }
        if rule < best {
            let i = choose|i: int|
                0 <= i < s.len() - 1 && #[trigger] s[i] == list[rule].0 && s[i + 1]
                    == list[rule].1;
            assert(i == 0 || i == 1);
            if i == 0 {
                assert(list[rule] == list[left]);
                assert(rule == left);
            } else {
                assert(list[rule] == list[right]);
                assert(rule == right);
            }
        }
    }
    let next = merge_pass(s, list[rule].0, list[rule].1);
    assert(states[1] == states[0int + 1]);
    assert(states[1] == next);
    let want = if rule == left {
        seq![x + y, z]
    } else {
        seq![x, y + z]
    };
    let cuts = pass_merges_every_occurrence(s, list[rule].0, list[rule].1);
    assert(cuts[0] == 0);
    assert(cuts[1] == cuts[0int + 1]);
    assert(cuts[2] == cuts[1int + 1]);
    assert(next =~= want);
    if picks.len() > 1 {
        let again = picks[1];
        let i = choose|i: int|
            0 <= i < next.len() - 1 && #[trigger] next[i] == list[again].0 && next[i + 1]
                == list[again].1;
        assert(i == 0);
        assert(list.contains(list[again]));
        assert(list[again] == (want[0], want[1]));
        assert(false);
    }
    assert(states[picks.len() as int] == next);
}

} // verus!
