//! What holds of every run of a scheduler.

use crate::batching::schedule::{
    admitted, advanced_all, collected, finishes, handed_out, has_work, slots_are_filled, advancing_does_work,
    tick_does_work, output_of, ran, slot_of, slots_are_live, ticked, work_left, BatchState,
    Request, Slot,
};
use crate::error::ErrorView;
use crate::forward::kernel::{ComputeKernel, StateView};
use crate::generate::{generated, tokens_from, Sampler};
use vstd::prelude::*;

verus! {

/// How often `id` is listed.
pub open spec fn times(ids: Seq<u64>, id: u64) -> nat
    decreases ids.len(),
{
    if ids.len() == 0 {
        0
    } else {
        times(ids.drop_last(), id) + if ids.last() == id {
            1nat
        } else {
            0nat
        }
    }
}

/// The ids of the queued requests.
pub open spec fn request_ids(pending: Seq<Request>) -> Seq<u64> {
    Seq::new(pending.len(), |i: int| pending[i].id)
}

/// The ids of the generations in flight.
pub open spec fn slot_ids<T>(active: Seq<Slot<T>>) -> Seq<u64> {
    Seq::new(active.len(), |i: int| active[i].id)
}

/// The ids of the results.
pub open spec fn result_ids(results: Seq<(u64, Seq<u32>)>) -> Seq<u64> {
    Seq::new(results.len(), |i: int| results[i].0)
}

/// How many requests, queued or in flight, have this id.
pub open spec fn times_at_work<T>(state: BatchState<T>, id: u64) -> nat {
    times(request_ids(state.pending), id) + times(slot_ids(state.active), id)
}

/// Whether no id is given to two requests at once.
pub open spec fn ids_differ<T>(state: BatchState<T>) -> bool {
    forall|id: u64| #[trigger] times_at_work(state, id) <= 1
}

proof fn lemma_times_sum(a: Seq<u64>, b: Seq<u64>, id: u64)
    ensures
        times(a + b, id) == times(a, id) + times(b, id),
    decreases b.len(),
{
    if b.len() == 0 {
        assert(a + b == a);
    } else {
        assert((a + b).drop_last() == a + b.drop_last());
        lemma_times_sum(a, b.drop_last(), id);
    }
}

proof fn lemma_times_push(a: Seq<u64>, x: u64, id: u64)
    ensures
        times(a.push(x), id) == times(a, id) + if x == id {
            1nat
        } else {
            0nat
        },
{
    assert(a.push(x).drop_last() == a);
}

proof fn lemma_times_at(ids: Seq<u64>, i: int)
    requires
        0 <= i < ids.len(),
    ensures
        times(ids, ids[i]) >= 1,
    decreases ids.len(),
{
    if i < ids.len() - 1 {
        lemma_times_at(ids.drop_last(), i);
        assert(ids.drop_last()[i] == ids[i]);
    }
}

/// Taking the first request off the queue.
proof fn lemma_times_first(pending: Seq<Request>, id: u64)
    requires
        pending.len() > 0,
    ensures
        times(request_ids(pending), id) == times(request_ids(pending.skip(1)), id)
            + if pending[0].id == id {
            1nat
        } else {
            0nat
        },
{
    let one = seq![pending[0].id];
    assert(request_ids(pending) == one + request_ids(pending.skip(1)));
    lemma_times_sum(one, request_ids(pending.skip(1)), id);
    assert(one == Seq::<u64>::empty().push(pending[0].id));
    lemma_times_push(Seq::empty(), pending[0].id, id);
}

proof fn lemma_admit_times<K: ComputeKernel>(
    kernel: K,
    max_batch: nat,
    state: BatchState<StateView<K>>,
    done: Seq<u64>,
    id: u64,
)
    ensures
        admitted(kernel, max_batch, state, done).0 matches Ok(all) ==> times(all, id)
            + times_at_work(admitted(kernel, max_batch, state, done).1, id) == times(done, id)
            + times_at_work(state, id),
    decreases state.pending.len(),
{
    if state.active.len() < max_batch && state.pending.len() > 0 {
        let p = state.pending[0];
        let rest = state.pending.skip(1);
        lemma_times_first(state.pending, id);
        if p.max_new_tokens == 0 {
            lemma_times_push(done, p.id, id);
            lemma_admit_times(
                kernel,
                max_batch,
                BatchState { pending: rest, active: state.active },
                done.push(p.id),
                id,
            );
        } else {
            match kernel.started(p.prompt, Sampler::Greedy) {
                Ok(s) => {
                    let slots = state.active.push(slot_of(p, s));
                    assert(slot_ids(slots) == slot_ids(state.active).push(p.id));
                    lemma_times_push(slot_ids(state.active), p.id, id);
                    lemma_admit_times(
                        kernel,
                        max_batch,
                        BatchState { pending: rest, active: slots },
                        done,
                        id,
                    );
                },
                Err(e) => {},
            }
        }
    }
}

proof fn lemma_advance_times<K: ComputeKernel>(kernel: K, slots: Seq<Slot<StateView<K>>>, id: u64)
    ensures
        advanced_all(kernel, slots) matches Ok((tick, stay)) ==> times(tick.finished, id) + times(
            slot_ids(stay),
            id,
        ) == times(slot_ids(slots), id),
    decreases slots.len(),
{
    if slots.len() > 0 {
        lemma_advance_times(kernel, slots.drop_last(), id);
        assert(slot_ids(slots).drop_last() == slot_ids(slots.drop_last()));
        if advanced_all(kernel, slots) is Ok {
            let slot = slots.last();
            let (before, stayed) = advanced_all(kernel, slots.drop_last())->Ok_0;
            let (tick, stay) = advanced_all(kernel, slots)->Ok_0;
            let token = kernel.advanced(slot.state).0->Ok_0;
            if finishes(slot, token) {
                lemma_times_push(before.finished, slot.id, id);
            } else {
                assert(slot_ids(stay) == slot_ids(stayed).push(slot.id));
                lemma_times_push(slot_ids(stayed), slot.id, id);
            }
        }
    }
}

proof fn lemma_tick_times<K: ComputeKernel>(
    kernel: K,
    max_batch: nat,
    state: BatchState<StateView<K>>,
    id: u64,
)
    ensures
        ticked(kernel, max_batch, state).0 matches Ok(tick) ==> times(tick.finished, id)
            + times_at_work(ticked(kernel, max_batch, state).1, id) == times_at_work(state, id),
{
    lemma_admit_times(kernel, max_batch, state, seq![], id);
    let (outcome, middle) = admitted(kernel, max_batch, state, seq![]);
    if outcome is Ok {
        lemma_advance_times(kernel, middle.active, id);
        if advanced_all(kernel, middle.active) is Ok {
            lemma_times_sum(
                outcome->Ok_0,
                advanced_all(kernel, middle.active)->Ok_0.0.finished,
                id,
            );
        }
    }
}

proof fn lemma_handed_ids(outputs: Map<u64, Seq<u32>>, finished: Seq<u64>)
    ensures
        result_ids(handed_out(outputs, finished).0) == finished,
    decreases finished.len(),
{
    if finished.len() > 0 {
        lemma_handed_ids(outputs, finished.drop_last());
        let before = handed_out(outputs, finished.drop_last()).0;
        let all = handed_out(outputs, finished).0;
        assert(result_ids(all) == result_ids(before).push(finished.last()));
    }
}

/// A run that succeeds completes every request exactly once, and leaves nothing behind.
pub proof fn every_request_finishes_once<K: ComputeKernel>(
    kernel: K,
    max_batch: nat,
    state: BatchState<StateView<K>>,
    outputs: Map<u64, Seq<u32>>,
    id: u64,
)
    requires
        max_batch > 0,
        slots_are_live(state.active),
    ensures
        ran(kernel, max_batch, state, outputs).0 matches Ok(results) ==> {
            &&& times(result_ids(results), id) == times_at_work(state, id)
            &&& !has_work(ran(kernel, max_batch, state, outputs).1)
        },
    decreases work_left(state),
{
    let (outcome, after) = ticked(kernel, max_batch, state);
    if !has_work(state) {
        assert(request_ids(state.pending) == Seq::<u64>::empty());
        assert(slot_ids(state.active) == Seq::<u64>::empty());
        assert(result_ids(Seq::empty()) == Seq::<u64>::empty());
    } else if outcome is Ok {
        let tick = outcome->Ok_0;
        tick_does_work(kernel, max_batch, state);
        lemma_tick_times(kernel, max_batch, state, id);
        let held = collected(outputs, tick.produced);
        let (handed, left) = handed_out(held, tick.finished);
        lemma_handed_ids(held, tick.finished);
        every_request_finishes_once(kernel, max_batch, after, left, id);
        if ran(kernel, max_batch, after, left).0 is Ok {
            let more = ran(kernel, max_batch, after, left).0->Ok_0;
            assert(result_ids(handed + more) == result_ids(handed) + result_ids(more));
            lemma_times_sum(result_ids(handed), result_ids(more), id);
        }
    }
}

/// What a request gives when it runs alone: nothing where it wants nothing, else what is
/// generated from its prompt.
pub open spec fn alone<K: ComputeKernel>(kernel: K, p: Request) -> Result<Seq<u32>, ErrorView> {
    if p.max_new_tokens == 0 {
        Ok(seq![])
    } else {
        generated(kernel, p.prompt, Sampler::Greedy, p.max_new_tokens as nat, p.eos)
    }
}

/// What is still to come of a generation in flight when it runs alone.
pub open spec fn rest_of<K: ComputeKernel>(kernel: K, slot: Slot<StateView<K>>) -> Result<
    Seq<u32>,
    ErrorView,
> {
    tokens_from(kernel, slot.state, slot.remaining as nat, slot.eos)
}

/// Whether some result is what the request gives when it runs alone.
pub open spec fn request_is_answered<K: ComputeKernel>(
    kernel: K,
    results: Seq<(u64, Seq<u32>)>,
    p: Request,
) -> bool {
    alone(kernel, p) is Ok && results.contains((p.id, alone(kernel, p)->Ok_0))
}

/// Whether some result is what was collected of a generation and what is still to come of it.
pub open spec fn slot_is_answered<K: ComputeKernel>(
    kernel: K,
    outputs: Map<u64, Seq<u32>>,
    results: Seq<(u64, Seq<u32>)>,
    slot: Slot<StateView<K>>,
) -> bool {
    &&& rest_of(kernel, slot) is Ok
    &&& results.contains((slot.id, output_of(outputs, slot.id) + rest_of(kernel, slot)->Ok_0))
}

/// Where each queued request and each slot is after slots were filled.
proof fn lemma_admit_places<K: ComputeKernel>(
    kernel: K,
    max_batch: nat,
    state: BatchState<StateView<K>>,
    done: Seq<u64>,
)
    ensures
        ({
            let (outcome, after) = admitted(kernel, max_batch, state, done);
            outcome matches Ok(all) ==> {
                &&& forall|i: int| 0 <= i < done.len() ==> all.contains(#[trigger] done[i])
                &&& forall|i: int|
                    0 <= i < state.active.len() ==> after.active.contains(
                        #[trigger] state.active[i],
                    )
                &&& forall|i: int|
                    0 <= i < state.pending.len() ==> request_has_place(
                        kernel,
                        after,
                        all,
                        #[trigger] state.pending[i],
                    )
                &&& forall|i: int|
                    0 <= i < after.pending.len() ==> state.pending.contains(
                        #[trigger] after.pending[i],
                    )
            }
        }),
    decreases state.pending.len(),
{
    if state.active.len() < max_batch && state.pending.len() > 0 {
        let p = state.pending[0];
        let rest = state.pending.skip(1);
        let next_active = if p.max_new_tokens == 0 || kernel.started(
            p.prompt,
            Sampler::Greedy,
        ) is Err {
            state.active
        } else {
            state.active.push(slot_of(p, kernel.started(p.prompt, Sampler::Greedy)->Ok_0))
        };
        let next_done = if p.max_new_tokens == 0 {
            done.push(p.id)
        } else {
            done
        };
        let next = BatchState { pending: rest, active: next_active };
        if p.max_new_tokens == 0 || kernel.started(p.prompt, Sampler::Greedy) is Ok {
            lemma_admit_places(kernel, max_batch, next, next_done);
            let (outcome, after) = admitted(kernel, max_batch, next, next_done);
            if outcome is Ok {
                let all = outcome->Ok_0;
                assert forall|i: int| 0 <= i < done.len() implies all.contains(
                    #[trigger] done[i],
                ) by {
                    assert(next_done[i] == done[i]);
                }
                assert forall|i: int| 0 <= i < state.active.len() implies after.active.contains(
                    #[trigger] state.active[i],
                ) by {
                    assert(next_active[i] == state.active[i]);
                }
                assert forall|i: int| 0 <= i < state.pending.len() implies request_has_place(
                    kernel,
                    after,
                    all,
                    #[trigger] state.pending[i],
                ) by {
                    if i == 0 {
                        if p.max_new_tokens == 0 {
                            assert(next_done[done.len() as int] == p.id);
                        } else {
                            assert(next_active[state.active.len() as int] == slot_of(
                                p,
                                kernel.started(p.prompt, Sampler::Greedy)->Ok_0,
                            ));
                        }
                    } else {
                        assert(rest[i - 1] == state.pending[i]);
                    }
                }
                assert forall|i: int| 0 <= i < after.pending.len() implies state.pending.contains(
                    #[trigger] after.pending[i],
                ) by {
                    let k = choose|k: int| 0 <= k < rest.len() && rest[k] == after.pending[i];
                    assert(rest.contains(after.pending[i]));
                    assert(state.pending[k + 1] == after.pending[i]);
                }
            }
        }
    }
}

/// Whether a request finished at once, is in flight, or still waits.
spec fn request_has_place<K: ComputeKernel>(
    kernel: K,
    after: BatchState<StateView<K>>,
    finished: Seq<u64>,
    p: Request,
) -> bool {
    ||| p.max_new_tokens == 0 && finished.contains(p.id)
    ||| {
        &&& p.max_new_tokens > 0
        &&& kernel.started(p.prompt, Sampler::Greedy) is Ok
        &&& after.active.contains(
            slot_of(p, kernel.started(p.prompt, Sampler::Greedy)->Ok_0),
        )
    }
    ||| after.pending.contains(p)
}

/// What becomes of one slot when all are advanced.
proof fn lemma_advance_places<K: ComputeKernel>(kernel: K, slots: Seq<Slot<StateView<K>>>, i: int)
    requires
        0 <= i < slots.len(),
        advanced_all(kernel, slots) is Ok,
    ensures
        ({
            let (tick, stay) = advanced_all(kernel, slots)->Ok_0;
            let slot = slots[i];
            &&& kernel.advanced(slot.state).0 is Ok
            &&& tick.produced.len() == slots.len()
            &&& tick.produced[i] == (slot.id, kernel.advanced(slot.state).0->Ok_0)
            &&& if finishes(slot, kernel.advanced(slot.state).0->Ok_0) {
                tick.finished.contains(slot.id)
            } else {
                stay.contains(after_token(kernel, slot))
            }
        }),
    decreases slots.len(),
{
    let (tick, stay) = advanced_all(kernel, slots)->Ok_0;
    let (before, stayed) = advanced_all(kernel, slots.drop_last())->Ok_0;
    let slot = slots[i];
    let last = slots.last();
    if slots.len() > 1 {
        lemma_advance_places(
            kernel,
            slots.drop_last(),
            if i < slots.len() - 1 {
                i
            } else {
                0
            },
        );
    }
    assert(before.produced.len() == slots.len() - 1);
    if i < slots.len() - 1 {
        assert(slots.drop_last()[i] == slot);
        if finishes(slot, kernel.advanced(slot.state).0->Ok_0) {
            let k = choose|k: int|
                0 <= k < before.finished.len() && before.finished[k] == slot.id;
            assert(before.finished.contains(slot.id));
            assert(tick.finished[k] == slot.id);
        } else {
            let k = choose|k: int|
                0 <= k < stayed.len() && stayed[k] == after_token(kernel, slot);
            assert(stayed.contains(after_token(kernel, slot)));
            assert(stay[k] == after_token(kernel, slot));
        }
    } else {
        if finishes(slot, kernel.advanced(slot.state).0->Ok_0) {
            assert(tick.finished[before.finished.len() as int] == slot.id);
        } else {
            assert(stay[stayed.len() as int] == after_token(kernel, slot));
        }
    }
}

/// A slot that was advanced by one token and stays.
spec fn after_token<K: ComputeKernel>(kernel: K, slot: Slot<StateView<K>>) -> Slot<StateView<K>> {
    Slot {
        state: kernel.advanced(slot.state).1,
        remaining: (slot.remaining - 1) as usize,
        ..slot
    }
}

/// The ids of the tokens that a tick gives.
pub open spec fn produced_ids(produced: Seq<(u64, u32)>) -> Seq<u64> {
    Seq::new(produced.len(), |i: int| produced[i].0)
}

/// Advancing the slots gives each of them exactly one token, in order.
pub proof fn each_slot_gets_one_token<K: ComputeKernel>(kernel: K, slots: Seq<Slot<StateView<K>>>)
    ensures
        advanced_all(kernel, slots) matches Ok((tick, stay)) ==> produced_ids(tick.produced)
            == slot_ids(slots),
    decreases slots.len(),
{
    if slots.len() > 0 {
        each_slot_gets_one_token(kernel, slots.drop_last());
        assert(slot_ids(slots) == slot_ids(slots.drop_last()).push(slots.last().id));
        if advanced_all(kernel, slots) is Ok {
            let (before, _) = advanced_all(kernel, slots.drop_last())->Ok_0;
            let (tick, _) = advanced_all(kernel, slots)->Ok_0;
            assert(produced_ids(tick.produced) == produced_ids(before.produced).push(
                slots.last().id,
            ));
        }
    } else {
        assert(produced_ids(Seq::empty()) == slot_ids(slots));
    }
}

/// A generation that is retired gets its last token in the same tick.
pub proof fn retired_slots_get_a_token<K: ComputeKernel>(
    kernel: K,
    slots: Seq<Slot<StateView<K>>>,
    id: u64,
)
    ensures
        advanced_all(kernel, slots) matches Ok((tick, stay)) ==> times(tick.finished, id) <= times(
            produced_ids(tick.produced),
            id,
        ),
{
    lemma_advance_times(kernel, slots, id);
    each_slot_gets_one_token(kernel, slots);
}

/// Collecting leaves alone the tokens of an id that the tick gave none.
proof fn lemma_collect_none(outputs: Map<u64, Seq<u32>>, produced: Seq<(u64, u32)>, id: u64)
    requires
        times(produced_ids(produced), id) == 0,
    ensures
        output_of(collected(outputs, produced), id) == output_of(outputs, id),
    decreases produced.len(),
{
    if produced.len() > 0 {
        assert(produced_ids(produced).drop_last() == produced_ids(produced.drop_last()));
        lemma_collect_none(outputs, produced.drop_last(), id);
    }
}

/// Collecting puts the one token of an id behind its others.
proof fn lemma_collect_one(outputs: Map<u64, Seq<u32>>, produced: Seq<(u64, u32)>, i: int)
    requires
        0 <= i < produced.len(),
        times(produced_ids(produced), produced[i].0) <= 1,
    ensures
        output_of(collected(outputs, produced), produced[i].0) == output_of(
            outputs,
            produced[i].0,
        ).push(produced[i].1),
    decreases produced.len(),
{
    let id = produced[i].0;
    let init = produced.drop_last();
    assert(produced_ids(produced).drop_last() == produced_ids(init));
    if i == produced.len() - 1 {
        lemma_collect_none(outputs, init, id);
    } else {
        assert(init[i] == produced[i]);
        assert(produced_ids(init)[i] == id);
        lemma_times_at(produced_ids(init), i);
        lemma_collect_one(outputs, init, i);
    }
}

/// Handing out leaves alone the tokens of an id that did not finish.
proof fn lemma_hand_out_none(outputs: Map<u64, Seq<u32>>, finished: Seq<u64>, id: u64)
    requires
        times(finished, id) == 0,
    ensures
        output_of(handed_out(outputs, finished).1, id) == output_of(outputs, id),
    decreases finished.len(),
{
    if finished.len() > 0 {
        lemma_hand_out_none(outputs, finished.drop_last(), id);
    }
}

/// An id that finished once is handed its tokens.
proof fn lemma_hand_out_one(outputs: Map<u64, Seq<u32>>, finished: Seq<u64>, i: int)
    requires
        0 <= i < finished.len(),
        times(finished, finished[i]) <= 1,
    ensures
        handed_out(outputs, finished).0.contains((finished[i], output_of(outputs, finished[i]))),
    decreases finished.len(),
{
    let id = finished[i];
    let init = finished.drop_last();
    let (before, left) = handed_out(outputs, init);
    let all = handed_out(outputs, finished).0;
    if i == finished.len() - 1 {
        lemma_hand_out_none(outputs, init, id);
        assert(all[before.len() as int] == (id, output_of(outputs, id)));
    } else {
        assert(init[i] == id);
        lemma_times_at(init, i);
        lemma_hand_out_one(outputs, init, i);
        let k = choose|k: int|
            0 <= k < before.len() && before[k] == (id, output_of(outputs, id));
        assert(before.contains((id, output_of(outputs, id))));
        assert(all[k] == before[k]);
    }
}

/// A slot is answered by a tick and the run after it.
proof fn lemma_slot_is_answered<K: ComputeKernel>(
    kernel: K,
    max_batch: nat,
    state: BatchState<StateView<K>>,
    outputs: Map<u64, Seq<u32>>,
    more: Seq<(u64, Seq<u32>)>,
    i: int,
)
    requires
        max_batch > 0,
        slots_are_live(state.active),
        state.active.len() <= max_batch,
        ids_differ(state),
        ticked(kernel, max_batch, state).0 is Ok,
        0 <= i < admitted(kernel, max_batch, state, seq![]).1.active.len(),
        ({
            let (outcome, after) = ticked(kernel, max_batch, state);
            let tick = outcome->Ok_0;
            let left = handed_out(collected(outputs, tick.produced), tick.finished).1;
            forall|k: int|
                0 <= k < after.active.len() ==> slot_is_answered(
                    kernel,
                    left,
                    more,
                    #[trigger] after.active[k],
                )
        }),
    ensures
        ({
            let tick = ticked(kernel, max_batch, state).0->Ok_0;
            let handed = handed_out(collected(outputs, tick.produced), tick.finished).0;
            slot_is_answered(
                kernel,
                outputs,
                handed + more,
                admitted(kernel, max_batch, state, seq![]).1.active[i],
            )
        }),
{
    let (all, middle) = admitted(kernel, max_batch, state, seq![]);
    let done = all->Ok_0;
    let slots = middle.active;
    let slot = slots[i];
    let id = slot.id;
    let (outcome, after) = ticked(kernel, max_batch, state);
    let tick = outcome->Ok_0;
    let (advance, stay) = advanced_all(kernel, slots)->Ok_0;
    let held = collected(outputs, tick.produced);
    let (handed, left) = handed_out(held, tick.finished);
    let token = kernel.advanced(slot.state).0->Ok_0;
    let so_far = output_of(outputs, id);
    slots_are_filled(kernel, max_batch, state, seq![]);
    lemma_admit_times(kernel, max_batch, state, seq![], id);
    lemma_tick_times(kernel, max_batch, state, id);
    assert(times_at_work(state, id) <= 1);
    assert(slot_ids(slots)[i] == id);
    lemma_times_at(slot_ids(slots), i);
    lemma_advance_places(kernel, slots, i);
    each_slot_gets_one_token(kernel, slots);
    assert(tick.produced == advance.produced);
    lemma_collect_one(outputs, tick.produced, i);
    assert(output_of(held, id) == so_far.push(token));
    assert(slot.remaining > 0);
    if finishes(slot, token) {
        let k = choose|k: int| 0 <= k < advance.finished.len() && advance.finished[k] == id;
        assert(advance.finished.contains(id));
        assert(tick.finished[done.len() + k] == id);
        lemma_hand_out_one(held, tick.finished, done.len() + k);
        assert(rest_of(kernel, slot) is Ok && rest_of(kernel, slot)->Ok_0 == seq![token]) by {
            reveal_with_fuel(tokens_from, 2);
            assert(seq![token] + Seq::<u32>::empty() == seq![token]);
        }
        assert(so_far.push(token) == so_far + seq![token]);
        let j = choose|j: int| 0 <= j < handed.len() && handed[j] == (id, so_far.push(token));
        assert(handed.contains((id, so_far.push(token))));
        assert((handed + more)[j] == handed[j]);
    } else {
        let next = after_token(kernel, slot);
        let k = choose|k: int| 0 <= k < stay.len() && stay[k] == next;
        assert(stay.contains(next));
        assert(after.active[k] == next);
        assert(slot_ids(stay)[k] == id);
        lemma_times_at(slot_ids(stay), k);
        lemma_hand_out_none(held, tick.finished, id);
        assert(slot_is_answered(kernel, left, more, after.active[k]));
        let rest = rest_of(kernel, next)->Ok_0;
        assert(rest_of(kernel, slot)->Ok_0 == seq![token] + rest);
        assert(so_far.push(token) + rest == so_far + (seq![token] + rest));
        let j = choose|j: int| 0 <= j < more.len() && more[j] == (id, so_far.push(token) + rest);
        assert(more.contains((id, so_far.push(token) + rest)));
        assert((handed + more)[handed.len() + j] == more[j]);
    }
}

/// Interleaving is transparent: in a run that succeeds, each request gets what it gets when it
/// runs alone, and each generation in flight gets what was still to come of it.
pub proof fn requests_run_as_if_alone<K: ComputeKernel>(
    kernel: K,
    max_batch: nat,
    state: BatchState<StateView<K>>,
    outputs: Map<u64, Seq<u32>>,
)
    requires
        max_batch > 0,
        slots_are_live(state.active),
        state.active.len() <= max_batch,
        ids_differ(state),
        forall|i: int|
            0 <= i < state.pending.len() ==> output_of(outputs, (#[trigger] state.pending[i]).id)
                == Seq::<u32>::empty(),
    ensures
        ran(kernel, max_batch, state, outputs).0 matches Ok(results) ==> {
            &&& forall|i: int|
                0 <= i < state.pending.len() ==> request_is_answered(
                    kernel,
                    results,
                    #[trigger] state.pending[i],
                )
            &&& forall|i: int|
                0 <= i < state.active.len() ==> slot_is_answered(
                    kernel,
                    outputs,
                    results,
                    #[trigger] state.active[i],
                )
        },
    decreases work_left(state),
{
    let (outcome, after) = ticked(kernel, max_batch, state);
    if has_work(state) && outcome is Ok {
        let tick = outcome->Ok_0;
        let (all, middle) = admitted(kernel, max_batch, state, seq![]);
        let done = all->Ok_0;
        let (advance, stay) = advanced_all(kernel, middle.active)->Ok_0;
        let held = collected(outputs, tick.produced);
        let (handed, left) = handed_out(held, tick.finished);
        tick_does_work(kernel, max_batch, state);
        slots_are_filled(kernel, max_batch, state, seq![]);
        advancing_does_work(kernel, middle.active);
        lemma_admit_places(kernel, max_batch, state, seq![]);
        each_slot_gets_one_token(kernel, middle.active);
        assert forall|id: u64| #[trigger] times_at_work(after, id) <= 1 by {
            lemma_tick_times(kernel, max_batch, state, id);
            assert(times_at_work(state, id) <= 1);
        }
        assert forall|i: int| 0 <= i < after.pending.len() implies output_of(
            left,
            (#[trigger] after.pending[i]).id,
        ) == Seq::<u32>::empty() by {
            let p = after.pending[i];
            assert(middle.pending[i] == p);
            assert(state.pending.contains(p));
            let k = choose|k: int| 0 <= k < state.pending.len() && state.pending[k] == p;
            assert(output_of(outputs, state.pending[k].id) == Seq::<u32>::empty());
            lemma_waiting_has_no_output(kernel, max_batch, state, outputs, i);
        }
        requests_run_as_if_alone(kernel, max_batch, after, left);
        if ran(kernel, max_batch, after, left).0 is Ok {
            let more = ran(kernel, max_batch, after, left).0->Ok_0;
            let results = handed + more;
            assert forall|i: int| 0 <= i < middle.active.len() implies slot_is_answered(
                kernel,
                outputs,
                results,
                #[trigger] middle.active[i],
            ) by {
                lemma_slot_is_answered(kernel, max_batch, state, outputs, more, i);
            }
            assert forall|i: int| 0 <= i < state.active.len() implies slot_is_answered(
                kernel,
                outputs,
                results,
                #[trigger] state.active[i],
            ) by {
                assert(middle.active.contains(state.active[i]));
                let k = choose|k: int|
                    0 <= k < middle.active.len() && middle.active[k] == state.active[i];
                assert(slot_is_answered(kernel, outputs, results, middle.active[k]));
            }
            assert forall|i: int| 0 <= i < state.pending.len() implies request_is_answered(
                kernel,
                results,
                #[trigger] state.pending[i],
            ) by {
                let p = state.pending[i];
                let id = p.id;
                assert(request_has_place(kernel, middle, done, p));
                if p.max_new_tokens == 0 && done.contains(id) {
                    let k = choose|k: int| 0 <= k < done.len() && done[k] == id;
                    assert(tick.finished[k] == id);
                    lemma_finished_at_once(kernel, max_batch, state, outputs, k);
                    let none = (id, Seq::<u32>::empty());
                    let j = choose|j: int| 0 <= j < handed.len() && handed[j] == none;
                    assert(handed.contains(none));
                    assert(results[j] == none);
                } else if middle.pending.contains(p) {
                    let k = choose|k: int| 0 <= k < middle.pending.len() && middle.pending[k] == p;
                    assert(request_is_answered(kernel, more, after.pending[k]));
                    let want = (id, alone(kernel, p)->Ok_0);
                    let j = choose|j: int| 0 <= j < more.len() && more[j] == want;
                    assert(more.contains(want));
                    assert(results[handed.len() + j] == want);
                } else {
                    let slot = slot_of(p, kernel.started(p.prompt, Sampler::Greedy)->Ok_0);
                    assert(middle.active.contains(slot));
                    let k = choose|k: int|
                        0 <= k < middle.active.len() && middle.active[k] == slot;
                    assert(slot_is_answered(kernel, outputs, results, middle.active[k]));
                    let rest = rest_of(kernel, slot)->Ok_0;
                    assert(Seq::<u32>::empty() + rest == rest);
                }
            }
        }
    }
}

/// A request that waits has no tokens after a tick where it had none before.
proof fn lemma_waiting_has_no_output<K: ComputeKernel>(
    kernel: K,
    max_batch: nat,
    state: BatchState<StateView<K>>,
    outputs: Map<u64, Seq<u32>>,
    i: int,
)
    requires
        ids_differ(state),
        ticked(kernel, max_batch, state).0 is Ok,
        0 <= i < ticked(kernel, max_batch, state).1.pending.len(),
    ensures
        ({
            let (outcome, after) = ticked(kernel, max_batch, state);
            let tick = outcome->Ok_0;
            let left = handed_out(collected(outputs, tick.produced), tick.finished).1;
            output_of(left, after.pending[i].id) == output_of(outputs, after.pending[i].id)
        }),
{
    let (outcome, after) = ticked(kernel, max_batch, state);
    let tick = outcome->Ok_0;
    let middle = admitted(kernel, max_batch, state, seq![]).1;
    let id = after.pending[i].id;
    lemma_tick_times(kernel, max_batch, state, id);
    lemma_admit_times(kernel, max_batch, state, seq![], id);
    each_slot_gets_one_token(kernel, middle.active);
    assert(times_at_work(state, id) <= 1);
    assert(request_ids(after.pending)[i] == id);
    lemma_times_at(request_ids(after.pending), i);
    lemma_collect_none(outputs, tick.produced, id);
    lemma_hand_out_none(collected(outputs, tick.produced), tick.finished, id);
}

/// A request that finishes at once is handed what was collected for it: nothing.
proof fn lemma_finished_at_once<K: ComputeKernel>(
    kernel: K,
    max_batch: nat,
    state: BatchState<StateView<K>>,
    outputs: Map<u64, Seq<u32>>,
    k: int,
)
    requires
        ids_differ(state),
        ticked(kernel, max_batch, state).0 is Ok,
        ({
            let done = admitted(kernel, max_batch, state, seq![]).0->Ok_0;
            0 <= k < done.len() && output_of(outputs, done[k]) == Seq::<u32>::empty()
        }),
    ensures
        ({
            let done = admitted(kernel, max_batch, state, seq![]).0->Ok_0;
            let tick = ticked(kernel, max_batch, state).0->Ok_0;
            handed_out(collected(outputs, tick.produced), tick.finished).0.contains(
                (done[k], Seq::<u32>::empty()),
            )
        }),
{
    let (all, middle) = admitted(kernel, max_batch, state, seq![]);
    let done = all->Ok_0;
    let tick = ticked(kernel, max_batch, state).0->Ok_0;
    let id = done[k];
    assert(tick.finished[k] == id);
    lemma_times_at(done, k);
    lemma_admit_times(kernel, max_batch, state, seq![], id);
    lemma_tick_times(kernel, max_batch, state, id);
    each_slot_gets_one_token(kernel, middle.active);
    assert(times_at_work(state, id) <= 1);
    lemma_collect_none(outputs, tick.produced, id);
    lemma_hand_out_one(collected(outputs, tick.produced), tick.finished, k);
}

/// Whether every request, queued or in flight, succeeds when it runs alone.
pub open spec fn each_succeeds_alone<K: ComputeKernel>(
    kernel: K,
    state: BatchState<StateView<K>>,
) -> bool {
    &&& forall|i: int|
        0 <= i < state.pending.len() ==> alone(kernel, #[trigger] state.pending[i]) is Ok
    &&& forall|i: int|
        0 <= i < state.active.len() ==> rest_of(kernel, #[trigger] state.active[i]) is Ok
}

proof fn lemma_admit_succeeds<K: ComputeKernel>(
    kernel: K,
    max_batch: nat,
    state: BatchState<StateView<K>>,
    done: Seq<u64>,
)
    requires
        each_succeeds_alone(kernel, state),
    ensures
        admitted(kernel, max_batch, state, done).0 is Ok,
        each_succeeds_alone(kernel, admitted(kernel, max_batch, state, done).1),
    decreases state.pending.len(),
{
    if state.active.len() < max_batch && state.pending.len() > 0 {
        let p = state.pending[0];
        let rest = state.pending.skip(1);
        assert(alone(kernel, state.pending[0]) is Ok);
        assert forall|i: int| 0 <= i < rest.len() implies alone(kernel, #[trigger] rest[i]) is Ok by {
            assert(rest[i] == state.pending[i + 1]);
        }
        if p.max_new_tokens == 0 {
            lemma_admit_succeeds(
                kernel,
                max_batch,
                BatchState { pending: rest, active: state.active },
                done.push(p.id),
            );
        } else {
            let slot = slot_of(p, kernel.started(p.prompt, Sampler::Greedy)->Ok_0);
            lemma_admit_succeeds(
                kernel,
                max_batch,
                BatchState { pending: rest, active: state.active.push(slot) },
                done,
            );
        }
    }
}

proof fn lemma_advance_succeeds<K: ComputeKernel>(kernel: K, slots: Seq<Slot<StateView<K>>>)
    requires
        slots_are_live(slots),
        forall|i: int| 0 <= i < slots.len() ==> rest_of(kernel, #[trigger] slots[i]) is Ok,
    ensures
        advanced_all(kernel, slots) matches Ok((tick, stay)) && forall|i: int|
            0 <= i < stay.len() ==> rest_of(kernel, #[trigger] stay[i]) is Ok,
    decreases slots.len(),
{
    if slots.len() > 0 {
        let init = slots.drop_last();
        let slot = slots[slots.len() - 1];
        assert forall|i: int| 0 <= i < init.len() implies (#[trigger] init[i]).remaining > 0
            && rest_of(kernel, init[i]) is Ok by {
            assert(init[i] == slots[i]);
        }
        lemma_advance_succeeds(kernel, init);
        assert(slot.remaining > 0);
        assert(rest_of(kernel, slot) is Ok);
        let token = kernel.advanced(slot.state).0->Ok_0;
        if !finishes(slot, token) {
            assert(rest_of(kernel, after_token(kernel, slot)) is Ok);
        }
    }
}

/// A run succeeds where every request succeeds when it runs alone.
pub proof fn run_succeeds_if_each_does<K: ComputeKernel>(
    kernel: K,
    max_batch: nat,
    state: BatchState<StateView<K>>,
    outputs: Map<u64, Seq<u32>>,
)
    requires
        max_batch > 0,
        slots_are_live(state.active),
        state.active.len() <= max_batch,
        each_succeeds_alone(kernel, state),
    ensures
        ran(kernel, max_batch, state, outputs).0 is Ok,
    decreases work_left(state),
{
    if has_work(state) {
        slots_are_filled(kernel, max_batch, state, seq![]);
        lemma_admit_succeeds(kernel, max_batch, state, seq![]);
        let middle = admitted(kernel, max_batch, state, seq![]).1;
        advancing_does_work(kernel, middle.active);
        lemma_advance_succeeds(kernel, middle.active);
        tick_does_work(kernel, max_batch, state);
        let (outcome, after) = ticked(kernel, max_batch, state);
        let tick = outcome->Ok_0;
        let left = handed_out(collected(outputs, tick.produced), tick.finished).1;
        run_succeeds_if_each_does(kernel, max_batch, after, left);
    }
}

} // verus!
