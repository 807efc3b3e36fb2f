//! Speculative decoding: a cheap draft model proposes tokens, the target model verifies them.
//!
//! Each proposed token is accepted while it is the target's own choice; at the first mismatch
//! the target's token is taken instead; where all are accepted, one more token of the target
//! follows. A round thus gives between one token and one more than were proposed, and the
//! sequence is the one that the target alone gives.

use crate::error::{ErrorView, FlipError};
use crate::forward::kernel::ComputeKernel;
use crate::generate::{
    generated, generation_stops_in_time, GenerationConfig, Generator, Sampler,
};
use crate::speculative_laws::common_prefix_is_accepted;
use vstd::prelude::*;

verus! {

/// The token that a model picks after `tokens`.
pub open spec fn next_after<K: ComputeKernel>(kernel: K, tokens: Seq<u32>) -> Result<
    u32,
    ErrorView,
> {
    match generated(kernel, tokens, Sampler::Greedy, 1, None) {
        Ok(one) => Ok(one[0]),
        Err(e) => Err(e),
    }
}

/// The `n` tokens that a model picks one by one after `tokens`, reading each time all that came
/// before.
pub open spec fn greedy<K: ComputeKernel>(kernel: K, tokens: Seq<u32>, n: nat) -> Result<
    Seq<u32>,
    ErrorView,
>
    decreases n,
{
    if n == 0 {
        Ok(seq![])
    } else {
        match next_after(kernel, tokens) {
            Err(e) => Err(e),
            Ok(token) => match greedy(kernel, tokens.push(token), (n - 1) as nat) {
                Ok(rest) => Ok(seq![token] + rest),
                Err(e) => Err(e),
            },
        }
    }
}

/// The lesser of two counts.
pub open spec fn lesser(a: nat, b: nat) -> nat {
    if a <= b {
        a
    } else {
        b
    }
}

/// Verifying proposed tokens after `tokens`: the tokens that are taken, how many of them were
/// proposed, and whether all that were proposed are.
pub open spec fn verified<T: ComputeKernel>(
    target: T,
    tokens: Seq<u32>,
    draft: Seq<u32>,
) -> Result<(Seq<u32>, nat, bool), ErrorView>
    decreases draft.len(),
{
    if draft.len() == 0 {
        Ok((seq![], 0, true))
    } else {
        match next_after(target, tokens) {
            Err(e) => Err(e),
            Ok(token) => if token == draft[0] {
                match verified(target, tokens.push(token), draft.skip(1)) {
                    Ok((more, accepted, all)) => Ok((seq![token] + more, accepted + 1, all)),
                    Err(e) => Err(e),
                }
            } else {
                Ok((seq![token], 0, false))
            },
        }
    }
}

/// One round with `want` tokens still wanted: the tokens it gives, how many were proposed, and
/// how many of those were accepted.
pub open spec fn round<T: ComputeKernel, D: ComputeKernel>(
    target: T,
    draft: D,
    gamma: nat,
    tokens: Seq<u32>,
    want: nat,
) -> Result<(Seq<u32>, nat, nat), ErrorView> {
    match generated(draft, tokens, Sampler::Greedy, lesser(gamma, want), None) {
        Err(e) => Err(e),
        Ok(proposal) => match verified(target, tokens, proposal) {
            Err(e) => Err(e),
            Ok((taken, accepted, all)) => if all && taken.len() < want {
                match next_after(target, tokens + taken) {
                    Err(e) => Err(e),
                    Ok(bonus) => Ok((taken.push(bonus), proposal.len(), accepted)),
                }
            } else {
                Ok((taken, proposal.len(), accepted))
            },
        },
    }
}

/// Rounds until `want` tokens are there: the tokens, how many were proposed, and how many of
/// those were accepted.
pub open spec fn speculated<T: ComputeKernel, D: ComputeKernel>(
    target: T,
    draft: D,
    gamma: nat,
    tokens: Seq<u32>,
    want: nat,
) -> Result<(Seq<u32>, nat, nat), ErrorView>
    decreases want,
    when gamma > 0
{
    if want == 0 {
        Ok((seq![], 0, 0))
    } else {
        match round(target, draft, gamma, tokens, want) {
            Err(e) => Err(e),
            Ok((taken, proposed, accepted)) => {
                proof {
                    round_gives_greedy_tokens(target, draft, gamma, tokens, want);
                }
                match speculated(
                    target,
                    draft,
                    gamma,
                    tokens + taken,
                    (want - taken.len()) as nat,
                ) {
                    Err(e) => Err(e),
                    Ok((rest, p, a)) => Ok((taken + rest, proposed + p, accepted + a)),
                }
            },
        }
    }
}

/// Without a token that ends the sequence, exactly as many tokens come as were asked for.
proof fn lemma_generated_len<K: ComputeKernel>(kernel: K, tokens: Seq<u32>, n: nat)
    ensures
        generated(kernel, tokens, Sampler::Greedy, n, None) matches Ok(out) ==> out.len() == n,
{
    if kernel.started(tokens, Sampler::Greedy) is Ok {
        generation_stops_in_time(
            kernel,
            kernel.started(tokens, Sampler::Greedy)->Ok_0,
            n,
            None,
        );
    }
}

/// What is taken of a proposal: part of what the target picks by itself.
proof fn lemma_verified<T: ComputeKernel>(
    target: T,
    tokens: Seq<u32>,
    draft: Seq<u32>,
    n: nat,
)
    requires
        n >= draft.len(),
    ensures
        verified(target, tokens, draft) matches Ok((taken, accepted, all)) ==> {
            &&& taken.len() <= draft.len()
            &&& draft.len() > 0 ==> taken.len() > 0
            &&& accepted <= taken.len()
            &&& all ==> accepted == draft.len() && taken.len() == draft.len()
            &&& greedy(target, tokens, taken.len()) == Ok::<Seq<u32>, ErrorView>(taken)
        },
        verified(target, tokens, draft) matches Err(e) ==> greedy(target, tokens, n) == Err::<
            Seq<u32>,
            ErrorView,
        >(e),
    decreases draft.len(),
{
    if draft.len() > 0 {
        if next_after(target, tokens) is Ok {
            let token = next_after(target, tokens)->Ok_0;
            if token == draft[0] {
                lemma_verified(target, tokens.push(token), draft.skip(1), (n - 1) as nat);
                if verified(target, tokens, draft) is Ok {
                    let (more, _, _) = verified(target, tokens.push(token), draft.skip(1))->Ok_0;
                    assert((seq![token] + more).len() - 1 == more.len());
                }
            } else {
                reveal_with_fuel(greedy, 2);
                assert(seq![token] + Seq::<u32>::empty() == seq![token]);
            }
        }
    }
}

/// The tokens that a model picks are picked in two parts.
proof fn lemma_greedy_in_parts<K: ComputeKernel>(kernel: K, tokens: Seq<u32>, a: nat, b: nat)
    ensures
        greedy(kernel, tokens, a + b) == (match greedy(kernel, tokens, a) {
            Err(e) => Err::<Seq<u32>, ErrorView>(e),
            Ok(first) => match greedy(kernel, tokens + first, b) {
                Err(e) => Err(e),
                Ok(second) => Ok(first + second),
            },
        }),
        greedy(kernel, tokens, a) matches Ok(first) ==> first.len() == a,
    decreases a,
{
    if a == 0 {
        assert(tokens + Seq::<u32>::empty() == tokens);
        if greedy(kernel, tokens, b) is Ok {
            let second = greedy(kernel, tokens, b)->Ok_0;
            assert(Seq::<u32>::empty() + second == second);
        }
    } else if next_after(kernel, tokens) is Ok {
        let token = next_after(kernel, tokens)->Ok_0;
        lemma_greedy_in_parts(kernel, tokens.push(token), (a - 1) as nat, b);
        if greedy(kernel, tokens.push(token), (a - 1) as nat) is Ok {
            let first = greedy(kernel, tokens.push(token), (a - 1) as nat)->Ok_0;
            assert(tokens.push(token) + first == tokens + (seq![token] + first));
            if greedy(kernel, tokens + (seq![token] + first), b) is Ok {
                let second = greedy(kernel, tokens + (seq![token] + first), b)->Ok_0;
                assert(seq![token] + (first + second) == (seq![token] + first) + second);
            }
        }
    }
}

/// A round gives at least one token, at most one more than it proposes, and no more than are
/// wanted; they are what the target picks by itself.
pub proof fn round_gives_greedy_tokens<T: ComputeKernel, D: ComputeKernel>(
    target: T,
    draft: D,
    gamma: nat,
    tokens: Seq<u32>,
    want: nat,
)
    requires
        gamma > 0,
        want > 0,
    ensures
        round(target, draft, gamma, tokens, want) matches Ok((taken, proposed, accepted)) ==> {
            &&& 0 < taken.len() <= want
            &&& taken.len() <= gamma + 1
            &&& accepted <= proposed
            &&& accepted <= taken.len()
            &&& proposed == lesser(gamma, want)
            &&& greedy(target, tokens, taken.len()) == Ok::<Seq<u32>, ErrorView>(taken)
        },
{
    lemma_generated_len(draft, tokens, lesser(gamma, want));
    if generated(draft, tokens, Sampler::Greedy, lesser(gamma, want), None) is Ok {
        let proposal = generated(draft, tokens, Sampler::Greedy, lesser(gamma, want), None)->Ok_0;
        lemma_verified(target, tokens, proposal, want);
        if verified(target, tokens, proposal) is Ok {
            let (taken, accepted, all) = verified(target, tokens, proposal)->Ok_0;
            if all && taken.len() < want && next_after(target, tokens + taken) is Ok {
                let bonus = next_after(target, tokens + taken)->Ok_0;
                lemma_greedy_in_parts(target, tokens, taken.len(), 1);
                reveal_with_fuel(greedy, 2);
                assert(seq![bonus] + Seq::<u32>::empty() == seq![bonus]);
                assert(taken + seq![bonus] == taken.push(bonus));
            }
        }
    }
}

/// Speculative decoding gives exactly the tokens that the target picks by itself, as many as
/// were wanted, and accepts no more than was proposed, nor more than it gives.
pub proof fn speculation_is_exact<T: ComputeKernel, D: ComputeKernel>(
    target: T,
    draft: D,
    gamma: nat,
    tokens: Seq<u32>,
    want: nat,
)
    requires
        gamma > 0,
    ensures
        speculated(target, draft, gamma, tokens, want) matches Ok((out, proposed, accepted)) ==> {
            &&& greedy(target, tokens, want) == Ok::<Seq<u32>, ErrorView>(out)
            &&& out.len() == want
            &&& accepted <= proposed
            &&& accepted <= out.len()
            &&& want > 0 ==> proposed > 0
            &&& proposed <= lesser(gamma, want) * want
        },
    decreases want,
{
    if want > 0 {
        round_gives_greedy_tokens(target, draft, gamma, tokens, want);
        if round(target, draft, gamma, tokens, want) is Ok {
            let (taken, proposed, accepted) = round(target, draft, gamma, tokens, want)->Ok_0;
            let left = (want - taken.len()) as nat;
            speculation_is_exact(target, draft, gamma, tokens + taken, left);
            lemma_greedy_in_parts(target, tokens, taken.len(), left);
            lemma_bound(gamma, want, left);
        }
    }
}

/// Whether a model, having picked a token, goes on as it does after reading that token: what it
/// generates in one go is what it picks one by one.
pub open spec fn resumes<K: ComputeKernel>(kernel: K) -> bool {
    forall|tokens: Seq<u32>, n: nat| n >= 2 ==> #[trigger] continues(kernel, tokens, n)
}

/// Whether generating `n` tokens is picking one, and then generating the others after it.
pub open spec fn continues<K: ComputeKernel>(kernel: K, tokens: Seq<u32>, n: nat) -> bool {
    generated(kernel, tokens, Sampler::Greedy, n, None) == (match next_after(kernel, tokens) {
        Err(e) => Err::<Seq<u32>, ErrorView>(e),
        Ok(token) => match generated(
            kernel,
            tokens.push(token),
            Sampler::Greedy,
            (n - 1) as nat,
            None,
        ) {
            Ok(rest) => Ok(seq![token] + rest),
            Err(e) => Err(e),
        },
    })
}

/// What such a model generates in one go is what it picks one by one.
pub proof fn generation_is_greedy<K: ComputeKernel>(kernel: K, tokens: Seq<u32>, n: nat)
    requires
        resumes(kernel),
        n > 0,
    ensures
        generated(kernel, tokens, Sampler::Greedy, n, None) == greedy(kernel, tokens, n),
    decreases n,
{
    if n == 1 {
        reveal_with_fuel(greedy, 2);
        lemma_generated_len(kernel, tokens, 1);
        if generated(kernel, tokens, Sampler::Greedy, 1, None) is Ok {
            let one = generated(kernel, tokens, Sampler::Greedy, 1, None)->Ok_0;
            assert(seq![one[0]] + Seq::<u32>::empty() == one);
        }
    } else {
        assert(continues(kernel, tokens, n));
        if next_after(kernel, tokens) is Ok {
            let token = next_after(kernel, tokens)->Ok_0;
            generation_is_greedy(kernel, tokens.push(token), (n - 1) as nat);
        }
    }
}

/// Speculative decoding gives what the target generates in one go, where the target goes on after
/// a token that it picked as it does after reading it. Where no token is wanted the target is not
/// asked, so that it must take the prompt.
pub proof fn speculation_equals_generation<T: ComputeKernel, D: ComputeKernel>(
    target: T,
    draft: D,
    gamma: nat,
    tokens: Seq<u32>,
    want: nat,
)
    requires
        gamma > 0,
        want > 0 || target.started(tokens, Sampler::Greedy) is Ok,
        resumes(target),
    ensures
        speculated(target, draft, gamma, tokens, want) matches Ok((out, _, _)) ==> generated(
            target,
            tokens,
            Sampler::Greedy,
            want,
            None,
        ) == Ok::<Seq<u32>, ErrorView>(out),
{
    speculation_is_exact(target, draft, gamma, tokens, want);
    if want > 0 {
        generation_is_greedy(target, tokens, want);
    }
}

/// The tokens depend neither on the draft nor on the number of proposals.
pub proof fn draft_does_not_matter<T: ComputeKernel, D: ComputeKernel, E: ComputeKernel>(
    target: T,
    draft: D,
    gamma: nat,
    other_draft: E,
    other_gamma: nat,
    tokens: Seq<u32>,
    want: nat,
)
    requires
        gamma > 0,
        other_gamma > 0,
    ensures
        speculated(target, draft, gamma, tokens, want) matches Ok((out, _, _)) ==> (speculated(
            target,
            other_draft,
            other_gamma,
            tokens,
            want,
        ) matches Ok((other, _, _)) ==> out == other),
{
    speculation_is_exact(target, draft, gamma, tokens, want);
    speculation_is_exact(target, other_draft, other_gamma, tokens, want);
}

/// Where the draft never fails, speculative decoding succeeds or fails as the target does by
/// itself.
pub proof fn speculation_fails_as_target<T: ComputeKernel, D: ComputeKernel>(
    target: T,
    draft: D,
    gamma: nat,
    tokens: Seq<u32>,
    want: nat,
)
    requires
        gamma > 0,
        forall|s: Seq<u32>, n: nat|
            (#[trigger] generated(draft, s, Sampler::Greedy, n, None)) is Ok,
    ensures
        match greedy(target, tokens, want) {
            Ok(out) => speculated(target, draft, gamma, tokens, want) is Ok,
            Err(e) => speculated(target, draft, gamma, tokens, want) matches Err(f) && f == e,
        },
    decreases want,
{
    if want > 0 {
        let n = lesser(gamma, want);
        lemma_generated_len(draft, tokens, n);
        let proposal = generated(draft, tokens, Sampler::Greedy, n, None)->Ok_0;
        lemma_verified(target, tokens, proposal, want);
        round_gives_greedy_tokens(target, draft, gamma, tokens, want);
        if round(target, draft, gamma, tokens, want) is Ok {
            let (taken, _, _) = round(target, draft, gamma, tokens, want)->Ok_0;
            let left = (want - taken.len()) as nat;
            speculation_fails_as_target(target, draft, gamma, tokens + taken, left);
            lemma_greedy_in_parts(target, tokens, taken.len(), left);
        } else if verified(target, tokens, proposal) is Ok {
            let (taken, _, _) = verified(target, tokens, proposal)->Ok_0;
            lemma_greedy_in_parts(target, tokens, taken.len(), (want - taken.len()) as nat);
        } else {
            assert(greedy(target, tokens, want) is Err);
        }
    }
}

/// A draft that picks as the target does has every proposal accepted.
pub proof fn identical_draft_is_accepted<T: ComputeKernel, D: ComputeKernel>(
    target: T,
    draft: D,
    gamma: nat,
    tokens: Seq<u32>,
    want: nat,
)
    requires
        gamma > 0,
        resumes(target),
        forall|s: Seq<u32>, n: nat| #[trigger]
            generated(draft, s, Sampler::Greedy, n, None) == generated(
                target,
                s,
                Sampler::Greedy,
                n,
                None,
            ),
    ensures
        speculated(target, draft, gamma, tokens, want) matches Ok((_, proposed, accepted))
            ==> accepted == proposed,
    decreases want,
{
    if want > 0 {
        let n = lesser(gamma, want);
        round_gives_greedy_tokens(target, draft, gamma, tokens, want);
        if round(target, draft, gamma, tokens, want) is Ok {
            let (taken, proposed, accepted) = round(target, draft, gamma, tokens, want)->Ok_0;
            let proposal = generated(draft, tokens, Sampler::Greedy, n, None)->Ok_0;
            generation_is_greedy(target, tokens, n);
            lemma_own_tokens_are_verified(target, tokens, n);
            identical_draft_is_accepted(
                target,
                draft,
                gamma,
                tokens + taken,
                (want - taken.len()) as nat,
            );
        }
    }
}

/// The tokens that a model picks by itself pass its verification.
proof fn lemma_own_tokens_are_verified<T: ComputeKernel>(target: T, tokens: Seq<u32>, n: nat)
    ensures
        greedy(target, tokens, n) matches Ok(own) ==> verified(target, tokens, own) == Ok::<
            (Seq<u32>, nat, bool),
            ErrorView,
        >((own, n, true)),
    decreases n,
{
    if n > 0 && next_after(target, tokens) is Ok {
        let token = next_after(target, tokens)->Ok_0;
        lemma_own_tokens_are_verified(target, tokens.push(token), (n - 1) as nat);
        if greedy(target, tokens.push(token), (n - 1) as nat) is Ok {
            let rest = greedy(target, tokens.push(token), (n - 1) as nat)->Ok_0;
            assert((seq![token] + rest).skip(1) == rest);
        }
    }
}

/// The outcome of a speculative generation.
#[derive(Debug, Clone)]
pub struct SpeculativeResult {
    /// The generated tokens: those that the target picks by itself.
    pub tokens: Vec<u32>,
    /// How many tokens the draft proposed, over all rounds.
    pub proposed: usize,
    /// How many of them the target accepted.
    pub accepted: usize,
}

impl SpeculativeResult {
    /// The share of the proposed tokens that was accepted, as a fraction: numerator and
    /// denominator. It is zero where nothing was proposed.
    pub fn acceptance_rate(&self) -> (r: (usize, usize))
        ensures
            r == (if self.proposed == 0 {
                (0usize, 1usize)
            } else {
                (self.accepted, self.proposed)
            }),
            r.1 > 0,
            self.accepted <= self.proposed ==> r.0 <= r.1,
            self.proposed > 0 && self.accepted == self.proposed ==> r.0 == r.1,
    {
        if self.proposed == 0 {
            (0, 1)
        } else {
            (self.accepted, self.proposed)
        }
    }
}

/// A speculative decoder that pairs a target and a draft.
pub struct SpeculativeDecoder<T: ComputeKernel, D: ComputeKernel> {
    target: Generator<T>,
    draft: Generator<D>,
    gamma: usize,
}

impl<T: ComputeKernel, D: ComputeKernel> SpeculativeDecoder<T, D> {
    /// The target model.
    pub closed spec fn target(&self) -> T {
        self.target.kernel
    }

    /// The draft model.
    pub closed spec fn draft(&self) -> D {
        self.draft.kernel
    }

    /// How many tokens are proposed in a round.
    pub closed spec fn gamma(&self) -> nat {
        self.gamma as nat
    }

    #[verifier::type_invariant]
    spec fn wf(self) -> bool {
        self.gamma > 0
    }

    /// Pairs `target` with `draft`, proposing `gamma` tokens per round, and at least one.
    pub fn new(target: Generator<T>, draft: Generator<D>, gamma: usize) -> (r: Self)
        ensures
            r.target() == target.kernel,
            r.draft() == draft.kernel,
            r.gamma() == (if gamma == 0 {
                1nat
            } else {
                gamma as nat
            }),
    {
        let gamma = if gamma == 0 {
            1
        } else {
            gamma
        };
        SpeculativeDecoder { target, draft, gamma }
    }

    /// The target's choice after `seq`.
    fn target_next(&self, seq: &[u32]) -> (r: Result<u32, FlipError>)
        ensures
            match next_after(self.target(), seq@) {
                Ok(token) => r matches Ok(t) && t == token,
                Err(e) => r matches Err(f) && f@ == e,
            },
    {
        let config = GenerationConfig {
            max_new_tokens: 1,
            eos_token: None,
            sampler: Sampler::Greedy,
        };
        match self.target.generate(seq, &config) {
            Ok(one) => {
                proof {
                    lemma_generated_len(self.target(), seq@, 1);
                }
                Ok(one[0])
            },
            Err(e) => Err(e),
        }
    }

    /// Verifies proposed tokens one by one against the target's choice, and appends those that
    /// are taken to `seq`. Gives how many were accepted, and whether all were.
    fn verify(&self, seq: &mut Vec<u32>, draft_tokens: &Vec<u32>) -> (r: Result<
        (usize, bool),
        FlipError,
    >)
        ensures
            match verified(self.target(), old(seq)@, draft_tokens@) {
                Ok((taken, accepted, all)) => {
                    &&& r matches Ok((a, b)) && a == accepted && b == all
                    &&& final(seq)@ == old(seq)@ + taken
                },
                Err(e) => r matches Err(f) && f@ == e,
            },
            r matches Ok((accepted, all)) ==> {
                let n = old(seq)@.len();
                &&& accepted <= draft_tokens@.len()
                &&& all == (accepted == draft_tokens@.len())
                &&& final(seq)@.len() == n + accepted + if all {
                    0int
                } else {
                    1int
                }
                &&& final(seq)@.take(n + accepted) == old(seq)@ + draft_tokens@.take(
                    accepted as int,
                )
                &&& !all ==> final(seq)@[n + accepted] != draft_tokens@[accepted as int]
            },
    {
        let ghost start = seq@;
        let ghost whole = verified(self.target(), start, draft_tokens@);
        let mut i: usize = 0;
        assert(draft_tokens@.skip(0) == draft_tokens@);
        while i < draft_tokens.len()
            invariant
                i <= draft_tokens@.len(),
                start == old(seq)@,
                whole == verified(self.target(), start, draft_tokens@),
                match verified(self.target(), seq@, draft_tokens@.skip(i as int)) {
                    Ok((more, accepted, all)) => whole matches Ok((taken, a, b)) && {
                        &&& start + taken == seq@ + more
                        &&& a == accepted + i
                        &&& b == all
                    },
                    Err(e) => whole matches Err(f) && f == e,
                },
            decreases draft_tokens@.len() - i,
        {
            let token = draft_tokens[i];
            let ghost before = seq@;
            assert(draft_tokens@.skip(i as int)[0] == token);
            assert(draft_tokens@.skip(i as int).skip(1) == draft_tokens@.skip(i + 1));
            match self.target_next(seq.as_slice()) {
                Err(e) => {
                    return Err(e);
                },
                Ok(choice) => {
                    seq.push(choice);
                    if choice != token {
                        assert(before + seq![choice] == seq@);
                        proof {
                            common_prefix_is_accepted(self.target(), start, draft_tokens@);
                            let taken = whole->Ok_0.0;
                            assert(start + taken == seq@);
                            assert(seq@.take(start.len() + i) == start + taken.take(i as int));
                        }
                        return Ok((i, false));
                    }
                    proof {
                        let rest = verified(self.target(), seq@, draft_tokens@.skip(i + 1));
                        if rest is Ok {
                            let more = rest->Ok_0.0;
                            assert(before + (seq![token] + more) == seq@ + more);
                        }
                    }
                },
            }
            i += 1;
        }
        assert(seq@ + Seq::<u32>::empty() == seq@);
        proof {
            if whole is Ok {
                let taken = whole->Ok_0.0;
                assert(start + taken == seq@);
                common_prefix_is_accepted(self.target(), start, draft_tokens@);
                assert(seq@.take(start.len() + i) == seq@);
                assert(draft_tokens@.take(i as int) == draft_tokens@);
            }
        }
        Ok((i, true))
    }

    /// Generates `max_new_tokens` tokens after `prompt`: those that the target picks by itself,
    /// whatever the draft and the number of proposals are.
    #[verifier::rlimit(80)]
    #[verifier::spinoff_prover]
    pub fn generate(&self, prompt: &[u32], max_new_tokens: usize) -> (r: Result<
        SpeculativeResult,
        FlipError,
    >)
        requires
            lesser(self.gamma(), max_new_tokens as nat) * max_new_tokens <= usize::MAX,
        ensures
            match speculated(
                self.target(),
                self.draft(),
                self.gamma(),
                prompt@,
                max_new_tokens as nat,
            ) {
                Ok((tokens, proposed, accepted)) => r matches Ok(result) && {
                    &&& result.tokens@ == tokens
                    &&& result.proposed == proposed
                    &&& result.accepted == accepted
                },
                Err(e) => r matches Err(f) && f@ == e,
            },
            r matches Ok(result) ==> {
                &&& greedy(self.target(), prompt@, max_new_tokens as nat) == Ok::<
                    Seq<u32>,
                    ErrorView,
                >(result.tokens@)
                &&& result.tokens@.len() == max_new_tokens
                &&& result.accepted <= result.proposed
                &&& result.accepted <= result.tokens@.len()
            },
    {
        proof {
            use_type_invariant(self);
        }
        let ghost t = self.target();
        let ghost d = self.draft();
        let ghost g = self.gamma();
        let ghost whole = speculated(t, d, g, prompt@, max_new_tokens as nat);
        let mut seq: Vec<u32> = Vec::new();
        seq.extend_from_slice(prompt);
        let start = prompt.len();
        let mut left: usize = max_new_tokens;
        let mut proposed: usize = 0;
        let mut accepted: usize = 0;
        assert(seq@ == prompt@);
        while left > 0
            invariant
                g > 0,
                t == self.target(),
                d == self.draft(),
                g == self.gamma(),
                g == self.gamma as nat,
                whole == speculated(t, d, g, prompt@, max_new_tokens as nat),
                lesser(g, max_new_tokens as nat) * max_new_tokens <= usize::MAX,
                start == prompt@.len(),
                left <= max_new_tokens,
                seq@.len() == start + max_new_tokens - left,
                seq@.take(start as int) == prompt@,
                accepted <= proposed,
                proposed + lesser(g, left as nat) * left <= lesser(g, max_new_tokens as nat)
                    * max_new_tokens,
                match speculated(t, d, g, seq@, left as nat) {
                    Ok((more, p, a)) => whole matches Ok((out, wp, wa)) && {
                        &&& out == seq@.skip(start as int) + more
                        &&& wp == proposed + p
                        &&& wa == accepted + a
                    },
                    Err(e) => whole matches Err(f) && f == e,
                },
            decreases left,
        {
            let ghost before = seq@;
            let ghost had = left;
            let count = if self.gamma <= left {
                self.gamma
            } else {
                left
            };
            let config = GenerationConfig {
                max_new_tokens: count,
                eos_token: None,
                sampler: Sampler::Greedy,
            };
            let draft_tokens = match self.draft.generate(seq.as_slice(), &config) {
                Ok(list) => list,
                Err(e) => {
                    return Err(e);
                },
            };
            proof {
                lemma_generated_len(d, before, count as nat);
                lemma_verified(t, before, draft_tokens@, had as nat);
                round_gives_greedy_tokens(t, d, g, before, had as nat);
            }
            let before_len = seq.len();
            let (matched, all) = match self.verify(&mut seq, &draft_tokens) {
                Ok(outcome) => outcome,
                Err(e) => {
                    return Err(e);
                },
            };
            let ghost taken = verified(t, before, draft_tokens@)->Ok_0.0;
            assert(seq@ == before + taken);
            if all && seq.len() - before_len < left {
                match self.target_next(seq.as_slice()) {
                    Ok(bonus) => {
                        seq.push(bonus);
                        assert(seq@ == before + taken.push(bonus));
                    },
                    Err(e) => {
                        return Err(e);
                    },
                }
            }
            proof {
                let n = seq@.len() - before.len();
                lemma_bound(g, had as nat, (had - n) as nat);
            }
            proposed = proposed + draft_tokens.len();
            accepted = accepted + matched;
            left = left - (seq.len() - before_len);
            proof {
                let gave = round(t, d, g, before, had as nat)->Ok_0.0;
                assert(seq@ == before + gave);
                assert(seq@.take(start as int) == before.take(start as int));
                let rest = speculated(t, d, g, seq@, left as nat);
                if rest is Ok {
                    let more = rest->Ok_0.0;
                    assert(before.skip(start as int) + (gave + more) == seq@.skip(start as int)
                        + more);
                }
            }
        }
        assert(seq@.skip(start as int) + Seq::<u32>::empty() == seq@.skip(start as int));
        assert(seq@.subrange(start as int, seq@.len() as int) == seq@.skip(start as int));
        proof {
            speculation_is_exact(t, d, g, prompt@, max_new_tokens as nat);
        }
        let tokens = seq.split_off(start);
        Ok(SpeculativeResult { tokens, proposed, accepted })
    }
}

/// Proposing for the first of `want` tokens, and then for at most `left` more, stays in bounds.
proof fn lemma_bound(gamma: nat, want: nat, left: nat)
    requires
        left < want,
    ensures
        lesser(gamma, want) + lesser(gamma, left) * left <= lesser(gamma, want) * want,
{
    assert(lesser(gamma, want) + lesser(gamma, left) * left <= lesser(gamma, want) * want)
        by (nonlinear_arith)
        requires
            lesser(gamma, left) <= lesser(gamma, want),
            left + 1 <= want,
    ;
}

} // verus!
