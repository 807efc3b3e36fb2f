//! What is accepted of a proposal, round by round.

use crate::error::ErrorView;
use crate::forward::kernel::ComputeKernel;
use crate::generate::{generated, generation_stops_in_time, Sampler};
use crate::speculative::{
    greedy, lesser, next_after, round, round_gives_greedy_tokens, speculated, verified,
};
use vstd::prelude::*;

verus! {

/// The token that a model picks is the one that it generates where one is asked for.
pub proof fn next_token_is_generated<K: ComputeKernel>(kernel: K, tokens: Seq<u32>)
    ensures
        match generated(kernel, tokens, Sampler::Greedy, 1, None) {
            Ok(one) => one.len() == 1 && next_after(kernel, tokens) == Ok::<u32, ErrorView>(one[0]),
            Err(e) => next_after(kernel, tokens) == Err::<u32, ErrorView>(e),
        },
{
    if kernel.started(tokens, Sampler::Greedy) is Ok {
        generation_stops_in_time(
            kernel,
            kernel.started(tokens, Sampler::Greedy)->Ok_0,
            1,
            None,
        );
    }
}

/// Each token that a model picks is its pick after all the tokens before it. Where it fails, it
/// does so after some that it did pick.
pub proof fn picks_follow_one_another<K: ComputeKernel>(kernel: K, tokens: Seq<u32>, n: nat)
    ensures
        greedy(kernel, tokens, n) matches Ok(out) ==> {
            &&& out.len() == n
            &&& forall|i: int|
                #![trigger out[i]]
                0 <= i < n ==> next_after(kernel, tokens + out.take(i)) == Ok::<u32, ErrorView>(
                    out[i],
                )
        },
        greedy(kernel, tokens, n) matches Err(e) ==> exists|some: Seq<u32>|
            some.len() < n && #[trigger] greedy(kernel, tokens, some.len()) == Ok::<
                Seq<u32>,
                ErrorView,
            >(some) && next_after(kernel, tokens + some) == Err::<u32, ErrorView>(e),
    decreases n,
{
    if n > 0 {
        let empty = Seq::<u32>::empty();
        assert(tokens + empty == tokens);
        match next_after(kernel, tokens) {
            Err(e) => {
                assert(greedy(kernel, tokens, empty.len()) == Ok::<Seq<u32>, ErrorView>(empty));
            },
            Ok(token) => {
                let then = tokens.push(token);
                picks_follow_one_another(kernel, then, (n - 1) as nat);
                match greedy(kernel, then, (n - 1) as nat) {
                    Ok(rest) => {
                        let out = seq![token] + rest;
                        assert forall|i: int|
                            #![trigger out[i]]
                            0 <= i < n implies next_after(kernel, tokens + out.take(i)) == Ok::<
                            u32,
                            ErrorView,
                        >(out[i]) by {
                            if i == 0 {
                                assert(tokens + out.take(0) == tokens);
                            } else {
                                assert(rest[i - 1] == out[i]);
                                assert(then + rest.take(i - 1) == tokens + out.take(i));
                            }
                        }
                    },
                    Err(e) => {
                        let some = choose|some: Seq<u32>|
                            some.len() < n - 1 && #[trigger] greedy(kernel, then, some.len())
                                == Ok::<Seq<u32>, ErrorView>(some) && next_after(
                                kernel,
                                then + some,
                            ) == Err::<u32, ErrorView>(e);
                        let longer = seq![token] + some;
                        assert(longer.len() - 1 == some.len());
                        assert(tokens + longer == then + some);
                        assert(greedy(kernel, tokens, longer.len()) == Ok::<Seq<u32>, ErrorView>(
                            longer,
                        ));
                    },
                }
            },
        }
    }
}

/// Of a proposal as many tokens are accepted as it has in common, from its start on, with what the
/// target picks by itself. Where the proposal then goes another way, the target's own token is
/// taken in its place, and nothing more.
pub proof fn common_prefix_is_accepted<T: ComputeKernel>(
    target: T,
    tokens: Seq<u32>,
    draft: Seq<u32>,
)
    ensures
        verified(target, tokens, draft) matches Ok((taken, accepted, all)) ==> {
            &&& accepted <= draft.len()
            &&& forall|i: int|
                #![trigger draft[i]]
                0 <= i < accepted ==> next_after(target, tokens + draft.take(i)) == Ok::<
                    u32,
                    ErrorView,
                >(draft[i])
            &&& accepted < draft.len() ==> {
                &&& !all
                &&& taken.len() == accepted + 1
                &&& taken.take(accepted as int) == draft.take(accepted as int)
                &&& taken[accepted as int] != draft[accepted as int]
                &&& next_after(target, tokens + draft.take(accepted as int)) == Ok::<
                    u32,
                    ErrorView,
                >(taken[accepted as int])
            }
            &&& accepted == draft.len() ==> all && taken == draft
        },
        verified(target, tokens, draft) matches Err(e) ==> exists|k: int|
            #![trigger draft.take(k)]
            {
                &&& 0 <= k < draft.len()
                &&& next_after(target, tokens + draft.take(k)) == Err::<u32, ErrorView>(e)
                &&& forall|i: int|
                    #![trigger draft[i]]
                    0 <= i < k ==> next_after(target, tokens + draft.take(i)) == Ok::<
                        u32,
                        ErrorView,
                    >(draft[i])
            },
    decreases draft.len(),
{
    if draft.len() > 0 {
        assert(tokens + draft.take(0) == tokens);
        let first = draft[0];
        if next_after(target, tokens) is Ok && next_after(target, tokens)->Ok_0 == first {
            let rest = draft.skip(1);
            let then = tokens.push(first);
            common_prefix_is_accepted(target, then, rest);
            assert forall|i: int| 0 < i <= draft.len() implies then + #[trigger] rest.take(i - 1)
                == tokens + draft.take(i) by {}
            match verified(target, then, rest) {
                Ok((more, accepted, all)) => {
                    let taken = seq![first] + more;
                    let n = accepted + 1;
                    assert forall|i: int| #![trigger draft[i]] 0 <= i < n implies next_after(
                        target,
                        tokens + draft.take(i),
                    ) == Ok::<u32, ErrorView>(draft[i]) by {
                        if i > 0 {
                            assert(rest[i - 1] == draft[i]);
                            assert(then + rest.take(i - 1) == tokens + draft.take(i));
                        }
                    }
                    if accepted < rest.len() {
                        assert(taken.take(n as int) == seq![first] + more.take(accepted as int));
                        assert(draft.take(n as int) == seq![first] + rest.take(accepted as int));
                        assert(taken[n as int] == more[accepted as int]);
                        assert(draft[n as int] == rest[accepted as int]);
                        assert(then + rest.take(accepted as int) == tokens + draft.take(n as int));
                    } else {
                        assert(taken == draft);
                    }
                },
                Err(e) => {
                    let k = choose|k: int|
                        #![trigger rest.take(k)]
                        {
                            &&& 0 <= k < rest.len()
                            &&& next_after(target, then + rest.take(k)) == Err::<u32, ErrorView>(e)
                            &&& forall|i: int|
                                #![trigger rest[i]]
                                0 <= i < k ==> next_after(target, then + rest.take(i)) == Ok::<
                                    u32,
                                    ErrorView,
                                >(rest[i])
                        };
                    assert(rest[k] == draft[k + 1]);
                    assert(then + rest.take(k) == tokens + draft.take(k + 1));
                    assert forall|i: int| #![trigger draft[i]] 0 <= i < k + 1 implies next_after(
                        target,
                        tokens + draft.take(i),
                    ) == Ok::<u32, ErrorView>(draft[i]) by {
                        if i > 0 {
                            assert(rest[i - 1] == draft[i]);
                            assert(then + rest.take(i - 1) == tokens + draft.take(i));
                        }
                    }
                },
            }
        }
    }
}

/// In a round the draft proposes as many tokens as it may, and no more than are wanted. As many
/// of them count as accepted as they have in common, from their start on, with the tokens that
/// the round gives, which are the target's own. The round ends with the target's token where the
/// two part, or with one more token of the target where they do not and it is still wanted.
pub proof fn round_accepts_common_prefix<T: ComputeKernel, D: ComputeKernel>(
    target: T,
    draft: D,
    gamma: nat,
    tokens: Seq<u32>,
    want: nat,
)
    requires
        gamma > 0,
        want > 0,
    ensures
        round(target, draft, gamma, tokens, want) matches Ok((out, proposed, accepted)) ==> {
            &&& proposed == (if gamma <= want {
                gamma
            } else {
                want
            })
            &&& generated(draft, tokens, Sampler::Greedy, proposed, None) matches Ok(proposal)
            &&& proposal.len() == proposed
            &&& accepted <= proposed
            &&& accepted <= out.len()
            &&& out.take(accepted as int) == proposal.take(accepted as int)
            &&& accepted < proposed ==> out.len() == accepted + 1 && out[accepted as int]
                != proposal[accepted as int]
            &&& accepted == proposed ==> out.len() == (if accepted + 1 <= want {
                accepted + 1
            } else {
                want
            })
            &&& forall|i: int|
                #![trigger out[i]]
                0 <= i < out.len() ==> next_after(target, tokens + out.take(i)) == Ok::<
                    u32,
                    ErrorView,
                >(out[i])
        },
{
    round_gives_greedy_tokens(target, draft, gamma, tokens, want);
    if round(target, draft, gamma, tokens, want) is Ok {
        let (out, proposed, accepted) = round(target, draft, gamma, tokens, want)->Ok_0;
        let n = lesser(gamma, want);
        if draft.started(tokens, Sampler::Greedy) is Ok {
            generation_stops_in_time(
                draft,
                draft.started(tokens, Sampler::Greedy)->Ok_0,
                n,
                None,
            );
        }
        let proposal = generated(draft, tokens, Sampler::Greedy, n, None)->Ok_0;
        common_prefix_is_accepted(target, tokens, proposal);
        picks_follow_one_another(target, tokens, out.len());
        assert(out.take(accepted as int) =~= proposal.take(accepted as int));
    }
}

/// Whether a round could go from the first `start` of the tokens `out` to the first `end` of them:
/// it proposes `offered` tokens, and as many of them are accepted as they have in common, from
/// their start on, with the tokens from `start` on.
pub open spec fn is_round_of<D: ComputeKernel>(
    draft: D,
    gamma: nat,
    tokens: Seq<u32>,
    out: Seq<u32>,
    start: int,
    end: int,
    offered: int,
    accepted: int,
) -> bool {
    &&& 0 <= start < end <= out.len()
    &&& offered == (if gamma <= out.len() - start {
        gamma as int
    } else {
        out.len() - start
    })
    &&& generated(draft, tokens + out.take(start), Sampler::Greedy, offered as nat, None) matches Ok(
        proposal,
    )
    &&& proposal.len() == offered
    &&& 0 <= accepted <= offered
    &&& out.subrange(start, start + accepted) == proposal.take(accepted)
    &&& accepted < offered ==> out[start + accepted] != proposal[accepted] && end == start + accepted
        + 1
    &&& accepted == offered ==> end == (if start + accepted + 1 <= out.len() {
        start + accepted + 1
    } else {
        out.len() as int
    })
}

/// Whether the entries `i` and `i + 1` of these lists stand before and after a round: where it
/// starts and ends, how many tokens were proposed so far, and how many were accepted.
pub open spec fn is_round_at<D: ComputeKernel>(
    draft: D,
    gamma: nat,
    tokens: Seq<u32>,
    out: Seq<u32>,
    starts: Seq<int>,
    offers: Seq<int>,
    totals: Seq<int>,
    i: int,
) -> bool {
    is_round_of(
        draft,
        gamma,
        tokens,
        out,
        starts[i],
        starts[i + 1],
        offers[i + 1] - offers[i],
        totals[i + 1] - totals[i],
    )
}

/// The counts of a speculative generation are sums over its rounds: each round starts where the
/// one before it ended, from no token to all of them; it adds what it proposes to the one count,
/// and what it has in common with the target's own tokens to the other. Gives where the rounds
/// start, how many tokens were proposed before each of them, and how many were accepted; the last
/// entries are those after the last round.
pub proof fn counts_are_sums_over_rounds<T: ComputeKernel, D: ComputeKernel>(
    target: T,
    draft: D,
    gamma: nat,
    tokens: Seq<u32>,
    want: nat,
) -> (r: (Seq<int>, Seq<int>, Seq<int>))
    requires
        gamma > 0,
    ensures
        speculated(target, draft, gamma, tokens, want) matches Ok((out, proposed, accepted)) ==> {
            &&& out.len() == want
            &&& forall|i: int|
                #![trigger out[i]]
                0 <= i < want ==> next_after(target, tokens + out.take(i)) == Ok::<u32, ErrorView>(
                    out[i],
                )
            &&& r.0.len() > 0
            &&& r.1.len() == r.0.len()
            &&& r.2.len() == r.0.len()
            &&& r.0[0] == 0
            &&& r.1[0] == 0
            &&& r.2[0] == 0
            &&& r.0.last() == want
            &&& r.1.last() == proposed
            &&& r.2.last() == accepted
            &&& forall|i: int|
                0 <= i < r.0.len() - 1 ==> #[trigger] is_round_at(
                    draft,
                    gamma,
                    tokens,
                    out,
                    r.0,
                    r.1,
                    r.2,
                    i,
                )
        },
    decreases want,
{
    let zero = seq![0int];
    if want == 0 || speculated(target, draft, gamma, tokens, want) is Err {
        (zero, zero, zero)
    } else {
        let (taken, offered, matched) = round(target, draft, gamma, tokens, want)->Ok_0;
        round_gives_greedy_tokens(target, draft, gamma, tokens, want);
        round_accepts_common_prefix(target, draft, gamma, tokens, want);
        let k = taken.len();
        let left = (want - k) as nat;
        let then = tokens + taken;
        let (starts, offers, totals) = counts_are_sums_over_rounds(
            target,
            draft,
            gamma,
            then,
            left,
        );
        let (rest, p, a) = speculated(target, draft, gamma, then, left)->Ok_0;
        let out = taken + rest;
        let r0 = zero + Seq::new(starts.len(), |i: int| starts[i] + k);
        let r1 = zero + Seq::new(starts.len(), |i: int| offers[i] + offered);
        let r2 = zero + Seq::new(starts.len(), |i: int| totals[i] + matched);
        assert forall|i: int| #![trigger out[i]] 0 <= i < want implies next_after(
            target,
            tokens + out.take(i),
        ) == Ok::<u32, ErrorView>(out[i]) by {
            if i < k {
                assert(taken[i] == out[i]);
                assert(out.take(i) == taken.take(i));
            } else {
                assert(rest[i - k] == out[i]);
                assert(then + rest.take(i - k) == tokens + out.take(i));
            }
        }
        assert forall|i: int| 0 <= i < r0.len() - 1 implies #[trigger] is_round_at(
            draft,
            gamma,
            tokens,
            out,
            r0,
            r1,
            r2,
            i,
        ) by {
            if i == 0 {
                assert(tokens + out.take(0) == tokens);
                let proposal = generated(draft, tokens, Sampler::Greedy, offered, None)->Ok_0;
                assert(out.subrange(0, matched as int) == taken.take(matched as int));
            } else {
                let j = i - 1;
                assert(starts[j] + k == r0[i]);
                assert(starts[j + 1] + k == r0[i + 1]);
                let start = starts[j];
                let shared = totals[j + 1] - totals[j];
                assert(is_round_at(draft, gamma, then, rest, starts, offers, totals, j));
                assert(then + rest.take(start) == tokens + out.take(start + k));
                assert(rest.subrange(start, start + shared) == out.subrange(
                    start + k,
                    start + k + shared,
                ));
            }
        }
        (r0, r1, r2)
    }
}

} // verus!
