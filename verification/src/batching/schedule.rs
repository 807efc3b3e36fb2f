//! What a scheduler does, tick by tick, as functions of its state.

use crate::error::ErrorView;
use crate::forward::kernel::{ComputeKernel, StateView};
use crate::generate::Sampler;
use vstd::prelude::*;

verus! {

/// A queued request.
pub struct Request {
    pub id: u64,
    pub prompt: Seq<u32>,
    pub max_new_tokens: usize,
    pub eos: Option<u32>,
}

/// A generation in flight.
pub struct Slot<T> {
    pub id: u64,
    pub state: T,
    pub remaining: usize,
    pub eos: Option<u32>,
}

/// The queue and the generations in flight.
#[verifier::ext_equal]
pub struct BatchState<T> {
    pub pending: Seq<Request>,
    pub active: Seq<Slot<T>>,
}

/// What a tick gives: a token of each generation in flight, and the ids that finished.
#[verifier::ext_equal]
pub struct TickView {
    pub produced: Seq<(u64, u32)>,
    pub finished: Seq<u64>,
}

/// The slot that a request starts out with.
pub open spec fn slot_of<T>(p: Request, state: T) -> Slot<T> {
    Slot { id: p.id, state, remaining: p.max_new_tokens, eos: p.eos }
}

/// Filling free slots from the queue: `done`, with the ids that finish at once behind it, and
/// the state after it. A prompt that is refused is taken off the queue, and ends it.
pub open spec fn admitted<K: ComputeKernel>(
    kernel: K,
    max_batch: nat,
    state: BatchState<StateView<K>>,
    done: Seq<u64>,
) -> (Result<Seq<u64>, ErrorView>, BatchState<StateView<K>>)
    decreases state.pending.len(),
{
    if state.active.len() < max_batch && state.pending.len() > 0 {
        let p = state.pending[0];
        let rest = state.pending.skip(1);
        if p.max_new_tokens == 0 {
            admitted(
                kernel,
                max_batch,
                BatchState { pending: rest, active: state.active },
                done.push(p.id),
            )
        } else {
            match kernel.started(p.prompt, Sampler::Greedy) {
                Ok(s) => admitted(
                    kernel,
                    max_batch,
                    BatchState { pending: rest, active: state.active.push(slot_of(p, s)) },
                    done,
                ),
                Err(e) => (Err(e), BatchState { pending: rest, active: state.active }),
            }
        }
    } else {
        (Ok(done), state)
    }
}

/// Whether a slot is finished by `token`.
pub open spec fn finishes<T>(slot: Slot<T>, token: u32) -> bool {
    slot.remaining == 1 || Some(token) == slot.eos
}

/// Advancing every slot by one token: what the tick gives, and the slots that stay.
pub open spec fn advanced_all<K: ComputeKernel>(kernel: K, slots: Seq<Slot<StateView<K>>>) -> Result<
    (TickView, Seq<Slot<StateView<K>>>),
    ErrorView,
>
    decreases slots.len(),
{
    if slots.len() == 0 {
        Ok((TickView { produced: seq![], finished: seq![] }, seq![]))
    } else {
        let slot = slots.last();
        match advanced_all(kernel, slots.drop_last()) {
            Err(e) => Err(e),
            Ok((tick, stay)) => match kernel.advanced(slot.state).0 {
                Err(e) => Err(e),
                Ok(token) => {
                    let produced = tick.produced.push((slot.id, token));
                    if finishes(slot, token) {
                        Ok((TickView { produced, finished: tick.finished.push(slot.id) }, stay))
                    } else {
                        Ok(
                            (
                                TickView { produced, finished: tick.finished },
                                stay.push(
                                    Slot {
                                        state: kernel.advanced(slot.state).1,
                                        remaining: (slot.remaining - 1) as usize,
                                        ..slot
                                    },
                                ),
                            ),
                        )
                    }
                },
            },
        }
    }
}

/// One tick: free slots are filled, then every slot is advanced. Where a generation fails, all
/// that are in flight are dropped.
pub open spec fn ticked<K: ComputeKernel>(
    kernel: K,
    max_batch: nat,
    state: BatchState<StateView<K>>,
) -> (Result<TickView, ErrorView>, BatchState<StateView<K>>) {
    match admitted(kernel, max_batch, state, seq![]) {
        (Err(e), after) => (Err(e), after),
        (Ok(done), after) => match advanced_all(kernel, after.active) {
            Err(e) => (Err(e), BatchState { pending: after.pending, active: seq![] }),
            Ok((tick, stay)) => (
                Ok(TickView { produced: tick.produced, finished: done + tick.finished }),
                BatchState { pending: after.pending, active: stay },
            ),
        },
    }
}

/// The tokens collected for `id`.
pub open spec fn output_of(outputs: Map<u64, Seq<u32>>, id: u64) -> Seq<u32> {
    if outputs.contains_key(id) {
        outputs[id]
    } else {
        seq![]
    }
}

/// The collected tokens with those of a tick behind them.
pub open spec fn collected(outputs: Map<u64, Seq<u32>>, produced: Seq<(u64, u32)>) -> Map<
    u64,
    Seq<u32>,
>
    decreases produced.len(),
{
    if produced.len() == 0 {
        outputs
    } else {
        let before = collected(outputs, produced.drop_last());
        let (id, token) = produced.last();
        before.insert(id, output_of(before, id).push(token))
    }
}

/// The results of the ids that finished, and the collected tokens without theirs.
pub open spec fn handed_out(outputs: Map<u64, Seq<u32>>, finished: Seq<u64>) -> (
    Seq<(u64, Seq<u32>)>,
    Map<u64, Seq<u32>>,
)
    decreases finished.len(),
{
    if finished.len() == 0 {
        (seq![], outputs)
    } else {
        let (results, left) = handed_out(outputs, finished.drop_last());
        let id = finished.last();
        (results.push((id, output_of(left, id))), left.remove(id))
    }
}

/// Whether anything is queued or in flight.
pub open spec fn has_work<T>(state: BatchState<T>) -> bool {
    state.pending.len() > 0 || state.active.len() > 0
}

/// What is still to be done: a bound on the ticks to come.
pub open spec fn work_left<T>(state: BatchState<T>) -> nat {
    queued_work(state.pending) + running_work(state.active)
}

pub open spec fn queued_work(pending: Seq<Request>) -> nat
    decreases pending.len(),
{
    if pending.len() == 0 {
        0
    } else {
        queued_work(pending.skip(1)) + pending[0].max_new_tokens as nat + 1
    }
}

pub open spec fn running_work<T>(active: Seq<Slot<T>>) -> nat
    decreases active.len(),
{
    if active.len() == 0 {
        0
    } else {
        running_work(active.drop_last()) + active.last().remaining as nat
    }
}

/// Whether every slot has a token to come.
pub open spec fn slots_are_live<T>(active: Seq<Slot<T>>) -> bool {
    forall|i: int| 0 <= i < active.len() ==> (#[trigger] active[i]).remaining > 0
}

/// Ticks until nothing is left to do: the results in the order of completion, and the state
/// that is left.
pub open spec fn ran<K: ComputeKernel>(
    kernel: K,
    max_batch: nat,
    state: BatchState<StateView<K>>,
    outputs: Map<u64, Seq<u32>>,
) -> (Result<Seq<(u64, Seq<u32>)>, ErrorView>, BatchState<StateView<K>>)
    decreases work_left(state),
    when max_batch > 0 && slots_are_live(state.active)
{
    if !has_work(state) {
        (Ok(seq![]), state)
    } else {
        let (outcome, after) = ticked(kernel, max_batch, state);
        match outcome {
            Err(e) => (Err(e), after),
            Ok(tick) => {
                proof {
                    tick_does_work(kernel, max_batch, state);
                }
                let (results, left) = handed_out(
                    collected(outputs, tick.produced),
                    tick.finished,
                );
                match ran(kernel, max_batch, after, left) {
                    (Ok(more), end) => (Ok(results + more), end),
                    (Err(e), end) => (Err(e), end),
                }
            },
        }
    }
}

/// Filling slots keeps them live and within the batch, and does not add work; after it no slot is
/// free, or nothing waits.
pub proof fn slots_are_filled<K: ComputeKernel>(
    kernel: K,
    max_batch: nat,
    state: BatchState<StateView<K>>,
    done: Seq<u64>,
)
    requires
        slots_are_live(state.active),
        state.active.len() <= max_batch,
    ensures
        ({
            let (outcome, after) = admitted(kernel, max_batch, state, done);
            &&& slots_are_live(after.active)
            &&& after.active.len() <= max_batch
            &&& work_left(after) + state.pending.len() - after.pending.len() <= work_left(state)
            &&& after.pending.len() <= state.pending.len()
            &&& outcome is Ok ==> after.active.len() == max_batch || after.pending.len() == 0
            &&& after.active.len() >= state.active.len()
        }),
    decreases state.pending.len(),
{
    if state.active.len() < max_batch && state.pending.len() > 0 {
        let p = state.pending[0];
        let rest = state.pending.skip(1);
        if p.max_new_tokens == 0 {
            let next = BatchState { pending: rest, active: state.active };
            slots_are_filled(kernel, max_batch, next, done.push(p.id));
        } else {
            match kernel.started(p.prompt, Sampler::Greedy) {
                Ok(s) => {
                    let slot = slot_of(p, s);
                    let next = BatchState { pending: rest, active: state.active.push(slot) };
                    assert(next.active.drop_last() == state.active);
                    slots_are_filled(kernel, max_batch, next, done);
                },
                Err(e) => {},
            }
        }
    }
}

/// Advancing the slots keeps them live, and does work where there are any.
pub proof fn advancing_does_work<K: ComputeKernel>(kernel: K, slots: Seq<Slot<StateView<K>>>)
    requires
        slots_are_live(slots),
    ensures
        advanced_all(kernel, slots) matches Ok((tick, stay)) ==> {
            &&& slots_are_live(stay)
            &&& stay.len() <= slots.len()
            &&& running_work(stay) + slots.len() <= running_work(slots)
        },
    decreases slots.len(),
{
    if slots.len() > 0 {
        assert forall|i: int| 0 <= i < slots.len() - 1 implies (
        #[trigger] slots.drop_last()[i]).remaining > 0 by {
            assert(slots[i].remaining > 0);
        }
        advancing_does_work(kernel, slots.drop_last());
        assert(slots[slots.len() - 1].remaining > 0);
        if advanced_all(kernel, slots) is Ok {
            let (_, before) = advanced_all(kernel, slots.drop_last())->Ok_0;
            let (_, stay) = advanced_all(kernel, slots)->Ok_0;
            if stay != before {
                assert(stay.drop_last() == before);
            }
        }
    }
}

/// A tick that succeeds does some of the work, and keeps the slots live.
pub proof fn tick_does_work<K: ComputeKernel>(
    kernel: K,
    max_batch: nat,
    state: BatchState<StateView<K>>,
)
    requires
        max_batch > 0,
        slots_are_live(state.active),
        has_work(state),
        ticked(kernel, max_batch, state).0 is Ok,
    ensures
        work_left(ticked(kernel, max_batch, state).1) < work_left(state),
        slots_are_live(ticked(kernel, max_batch, state).1.active),
{
    if state.active.len() <= max_batch {
        slots_are_filled(kernel, max_batch, state, seq![]);
    } else {
        assert(admitted(kernel, max_batch, state, seq![]).1 == state);
    }
    advancing_does_work(kernel, admitted(kernel, max_batch, state, seq![]).1.active);
}

} // verus!
