//! The model behind a generator, as far as generation depends on it.

use crate::error::{ErrorView, FlipError};
use crate::generate::Sampler;
use vstd::prelude::*;

verus! {

/// The tokens of a prompt.
pub type TokenSeq = Seq<u32>;

/// What the state of a sequence in flight holds.
pub type StateView<K> = <<K as ComputeKernel>::State as View>::V;

/// A model that reads a prompt and then gives one token after the other.
///
/// What the two operations give depends on nothing but the model, the prompt and what the state
/// holds. It is left open here, and an implementor says what it is, in `started` and `advanced`.
/// Those two are never run: an implementor in plain Rust, of which nothing is proved, may leave
/// their bodies unreachable.
pub trait ComputeKernel: Sized {
    /// What a sequence in flight carries from one token to the next.
    type State: View;

    /// What the state holds after a prompt, or why it was refused.
    spec fn started(&self, prompt: TokenSeq, sampler: Sampler) -> Result<
        <Self::State as View>::V,
        ErrorView,
    >;

    /// The next token, or why there is none, and what the state holds after it.
    spec fn advanced(&self, state: <Self::State as View>::V) -> (
        Result<u32, ErrorView>,
        <Self::State as View>::V,
    );

    /// Reads a prompt.
    fn prefill(&self, prompt: &[u32], sampler: Sampler) -> (r: Result<Self::State, FlipError>)
        ensures
            match self.started(prompt@, sampler) {
                Ok(state) => r matches Ok(s) && s@ == state,
                Err(e) => r matches Err(f) && f@ == e,
            },
    ;

    /// Gives the next token.
    fn next_token(&self, state: &mut Self::State) -> (r: Result<u32, FlipError>)
        ensures
            self.advanced(old(state)@).1 == final(state)@,
            match self.advanced(old(state)@).0 {
                Ok(token) => r matches Ok(t) && t == token,
                Err(e) => r matches Err(f) && f@ == e,
            },
    ;
}

} // verus!
