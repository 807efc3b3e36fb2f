//! Generation: one token after the other from a prompt.

use crate::error::{ErrorView, FlipError};
use crate::forward::kernel::{ComputeKernel, StateView};
use vstd::prelude::*;

verus! {

/// How the next token is picked.
#[derive(Debug, Clone, Copy, PartialEq, Eq, Structural)]
pub enum Sampler {
    /// The token the model rates highest.
    Greedy,
}

/// When generation stops, and how tokens are picked.
#[derive(Debug, Clone, Copy)]
pub struct GenerationConfig {
    /// The number of tokens after which to stop.
    pub max_new_tokens: usize,
    /// The token after which to stop.
    pub eos_token: Option<u32>,
    pub sampler: Sampler,
}

/// The tokens that follow from `state`: at most `n` of them, the last one where it is `eos`.
pub open spec fn tokens_from<K: ComputeKernel>(
    kernel: K,
    state: StateView<K>,
    n: nat,
    eos: Option<u32>,
) -> Result<Seq<u32>, ErrorView>
    decreases n,
{
    if n == 0 {
        Ok(seq![])
    } else {
        match kernel.advanced(state).0 {
            Err(e) => Err(e),
            Ok(token) => if Some(token) == eos {
                Ok(seq![token])
            } else {
                match tokens_from(kernel, kernel.advanced(state).1, (n - 1) as nat, eos) {
                    Ok(rest) => Ok(seq![token] + rest),
                    Err(e) => Err(e),
                }
            },
        }
    }
}

/// The tokens that follow a prompt.
pub open spec fn generated<K: ComputeKernel>(
    kernel: K,
    prompt: Seq<u32>,
    sampler: Sampler,
    n: nat,
    eos: Option<u32>,
) -> Result<Seq<u32>, ErrorView> {
    match kernel.started(prompt, sampler) {
        Ok(state) => tokens_from(kernel, state, n, eos),
        Err(e) => Err(e),
    }
}

/// No more tokens come than were asked for; fewer come only where the last one ends the
/// sequence, and then no earlier one does.
pub proof fn generation_stops_in_time<K: ComputeKernel>(
    kernel: K,
    state: StateView<K>,
    n: nat,
    eos: Option<u32>,
)
    ensures
        tokens_from(kernel, state, n, eos) matches Ok(tokens) ==> {
            &&& tokens.len() <= n
            &&& tokens.len() < n ==> tokens.len() > 0 && Some(tokens.last()) == eos
            &&& forall|i: int|
                0 <= i < tokens.len() - 1 ==> Some(#[trigger] tokens[i]) != eos
        },
    decreases n,
{
    if n > 0 && kernel.advanced(state).0 is Ok {
        generation_stops_in_time(kernel, kernel.advanced(state).1, (n - 1) as nat, eos);
    }
}

/// The tokens that follow from a state are those that the model gives one after the other, each
/// from the state that the one before it left. They end with the first that ends a sequence, or
/// where as many are there as were asked for. Where the model fails before that, its error is what
/// comes of it all. Gives the states, and the tokens that the model gave.
pub proof fn tokens_follow_the_model<K: ComputeKernel>(
    kernel: K,
    state: StateView<K>,
    n: nat,
    eos: Option<u32>,
) -> (r: (Seq<StateView<K>>, Seq<u32>))
    ensures
        ({
            let states = r.0;
            let given = r.1;
            &&& states.len() == given.len() + 1
            &&& states[0] == state
            &&& given.len() <= n
            &&& forall|i: int|
                #![trigger given[i]]
                0 <= i < given.len() ==> kernel.advanced(states[i]) == (
                    Ok::<u32, ErrorView>(given[i]),
                    states[i + 1],
                )
            &&& forall|i: int|
                0 <= i < given.len() - 1 ==> Some(#[trigger] given[i]) != eos
            &&& match tokens_from(kernel, state, n, eos) {
                Ok(tokens) => {
                    &&& tokens == given
                    &&& given.len() == n || given.len() > 0 && Some(given.last()) == eos
                },
                Err(e) => {
                    &&& given.len() < n
                    &&& given.len() > 0 ==> Some(given.last()) != eos
                    &&& kernel.advanced(states.last()).0 == Err::<u32, ErrorView>(e)
                },
            }
        }),
    decreases n,
{
    let now = seq![state];
    let none = Seq::<u32>::empty();
    if n == 0 || kernel.advanced(state).0 is Err {
        (now, none)
    } else {
        let token = kernel.advanced(state).0->Ok_0;
        let then = kernel.advanced(state).1;
        if Some(token) == eos {
            (now.push(then), none.push(token))
        } else {
            let (states, given) = tokens_follow_the_model(kernel, then, (n - 1) as nat, eos);
            let all_states = now + states;
            let all = seq![token] + given;
            assert forall|i: int| #![trigger all[i]] 0 <= i < all.len() implies kernel.advanced(
                all_states[i],
            ) == (Ok::<u32, ErrorView>(all[i]), all_states[i + 1]) by {
                if i > 0 {
                    assert(given[i - 1] == all[i]);
                }
            }
            assert forall|i: int| 0 <= i < all.len() - 1 implies Some(#[trigger] all[i]) != eos by {
                if i > 0 {
                    assert(given[i - 1] == all[i]);
                }
            }
            (all_states, all)
        }
    }
}

/// A prompt is read first; where it is refused, nothing is generated, and that is reported.
pub proof fn prompts_are_read_first<K: ComputeKernel>(
    kernel: K,
    prompt: Seq<u32>,
    sampler: Sampler,
    n: nat,
    eos: Option<u32>,
)
    ensures
        kernel.started(prompt, sampler) matches Err(e) ==> generated(
            kernel,
            prompt,
            sampler,
            n,
            eos,
        ) == Err::<Seq<u32>, ErrorView>(e),
        kernel.started(prompt, sampler) matches Ok(state) ==> generated(
            kernel,
            prompt,
            sampler,
            n,
            eos,
        ) == tokens_from(kernel, state, n, eos),
{
}

/// A generator over a model.
pub struct Generator<K: ComputeKernel> {
    pub kernel: K,
}

/// A generation in flight.
pub struct GenerationSession<'a, K: ComputeKernel> {
    pub generator: &'a Generator<K>,
    pub state: K::State,
}

impl<K: ComputeKernel> Generator<K> {
    /// A generator over `kernel`.
    pub fn new(kernel: K) -> (r: Self)
        ensures
            r.kernel == kernel,
    {
        Generator { kernel }
    }

    /// Reads a prompt and starts a generation that is advanced token by token.
    pub fn start_session<'a>(&'a self, prompt: &[u32], sampler: Sampler) -> (r: Result<
        GenerationSession<'a, K>,
        FlipError,
    >)
        ensures
            match self.kernel.started(prompt@, sampler) {
                Ok(state) => r matches Ok(session) && session.state@ == state && session.generator
                    == self,
                Err(e) => r matches Err(f) && f@ == e,
            },
    {
        match self.kernel.prefill(prompt, sampler) {
            Ok(state) => Ok(GenerationSession { generator: self, state }),
            Err(e) => Err(e),
        }
    }

    /// Generates the tokens that follow `prompt`.
    pub fn generate(&self, prompt: &[u32], config: &GenerationConfig) -> (r: Result<
        Vec<u32>,
        FlipError,
    >)
        ensures
            match generated(
                self.kernel,
                prompt@,
                config.sampler,
                config.max_new_tokens as nat,
                config.eos_token,
            ) {
                Ok(tokens) => r matches Ok(v) && v@ == tokens,
                Err(e) => r matches Err(f) && f@ == e,
            },
    {
        let mut session = match self.start_session(prompt, config.sampler) {
            Ok(session) => session,
            Err(e) => {
                return Err(e);
            },
        };
        let ghost all = tokens_from(
            self.kernel,
            session.state@,
            config.max_new_tokens as nat,
            config.eos_token,
        );
        let mut out: Vec<u32> = Vec::new();
        let mut left: usize = config.max_new_tokens;
        while left > 0
            invariant
                session.generator == self,
                generated(
                    self.kernel,
                    prompt@,
                    config.sampler,
                    config.max_new_tokens as nat,
                    config.eos_token,
                ) == all,
                all == (match tokens_from(
                    self.kernel,
                    session.state@,
                    left as nat,
                    config.eos_token,
                ) {
                    Ok(rest) => Ok(out@ + rest),
                    Err(e) => Err(e),
                }),
            decreases left,
        {
            let ghost before = out@;
            match session.step() {
                Ok(token) => {
                    out.push(token);
                    let stop = match config.eos_token {
                        Some(eos) => eos == token,
                        None => false,
                    };
                    if stop {
                        assert(before + seq![token] == out@);
                        return Ok(out);
                    }
                    left -= 1;
                    proof {
                        let rest = tokens_from(
                            self.kernel,
                            session.state@,
                            left as nat,
                            config.eos_token,
                        );
                        if rest is Ok {
                            assert(before + (seq![token] + rest->Ok_0) == out@ + rest->Ok_0);
                        }
                    }
                },
                Err(e) => {
                    return Err(e);
                },
            }
        }
        assert(out@ + Seq::<u32>::empty() == out@);
        Ok(out)
    }
}

impl<'a, K: ComputeKernel> GenerationSession<'a, K> {
    /// Gives the next token.
    pub fn step(&mut self) -> (r: Result<u32, FlipError>)
        ensures
            final(self).generator == old(self).generator,
            final(self).state@ == old(self).generator.kernel.advanced(old(self).state@).1,
            match old(self).generator.kernel.advanced(old(self).state@).0 {
                Ok(token) => r matches Ok(t) && t == token,
                Err(e) => r matches Err(f) && f@ == e,
            },
    {
        self.generator.kernel.next_token(&mut self.state)
    }
}

} // verus!
