//! What a tick does, over all the requests and all the generations at once.

use crate::batching::schedule::{
    admitted, advanced_all, collected, handed_out, has_work, output_of, ran, slots_are_live,
    tick_does_work, ticked, BatchState, Request, Slot,
};
use crate::batching::{results_of, Finished, Tick};
use crate::error::ErrorView;
use crate::forward::kernel::{ComputeKernel, StateView};
use crate::generate::Sampler;
use vstd::prelude::*;

verus! {

/// The requests that want a token.
pub open spec fn wanting(requests: Seq<Request>) -> Seq<Request> {
    requests.filter(|p: Request| p.max_new_tokens > 0)
}

/// The requests that want none.
pub open spec fn content(requests: Seq<Request>) -> Seq<Request> {
    requests.filter(|p: Request| p.max_new_tokens == 0)
}

/// The generations that start with those of the requests that want a token.
pub open spec fn starting<K: ComputeKernel>(kernel: K, requests: Seq<Request>) -> Seq<
    Slot<StateView<K>>,
> {
    let all = wanting(requests);
    Seq::new(
        all.len(),
        |j: int|
            Slot {
                id: all[j].id,
                state: kernel.started(all[j].prompt, Sampler::Greedy)->Ok_0,
                remaining: all[j].max_new_tokens,
                eos: all[j].eos,
            },
    )
}

/// The ids of those of the requests that want no token.
pub open spec fn content_ids(requests: Seq<Request>) -> Seq<u64> {
    let all = content(requests);
    Seq::new(all.len(), |j: int| all[j].id)
}

proof fn lemma_first_request<K: ComputeKernel>(kernel: K, p: Request, rest: Seq<Request>)
    ensures
        starting(kernel, seq![p] + rest) == (if p.max_new_tokens > 0 {
            seq![
                Slot {
                    id: p.id,
                    state: kernel.started(p.prompt, Sampler::Greedy)->Ok_0,
                    remaining: p.max_new_tokens,
                    eos: p.eos,
                },
            ]
        } else {
            seq![]
        }) + starting(kernel, rest),
        content_ids(seq![p] + rest) == (if p.max_new_tokens == 0 {
            seq![p.id]
        } else {
            seq![]
        }) + content_ids(rest),
{
    let one = seq![p];
    let some = |p: Request| p.max_new_tokens > 0;
    let none = |p: Request| p.max_new_tokens == 0;
    Seq::filter_distributes_over_add(one, rest, some);
    Seq::filter_distributes_over_add(one, rest, none);
    assert(one.filter(some) == (if p.max_new_tokens > 0 {
        one
    } else {
        Seq::empty()
    }) && one.filter(none) == (if p.max_new_tokens == 0 {
        one
    } else {
        Seq::empty()
    })) by {
        reveal_with_fuel(Seq::filter, 2);
        assert(one.drop_last() == Seq::<Request>::empty());
        assert(one.last() == p);
        assert(Seq::<Request>::empty().push(p) == one);
    }
}

proof fn lemma_no_request<K: ComputeKernel>(kernel: K)
    ensures
        starting(kernel, Seq::empty()) == Seq::<Slot<StateView<K>>>::empty(),
        content_ids(Seq::empty()) == Seq::<u64>::empty(),
{
    reveal(Seq::filter);
}

/// Requests leave the queue in the order in which they came, as long as a slot is free. Those that
/// want a token start in slots behind the others, in that order; those that want none finish at
/// once. A prompt that is refused ends the filling, and its request is gone. Gives how many
/// requests left the queue.
pub proof fn requests_are_admitted_in_order<K: ComputeKernel>(
    kernel: K,
    max_batch: nat,
    state: BatchState<StateView<K>>,
    done: Seq<u64>,
) -> (n: nat)
    requires
        state.active.len() <= max_batch,
    ensures
        ({
            let (outcome, after) = admitted(kernel, max_batch, state, done);
            let queue = state.pending;
            &&& n <= queue.len()
            &&& after.pending == queue.skip(n as int)
            &&& n > 0 ==> state.active.len() + starting(kernel, queue.take(n - 1)).len() < max_batch
            &&& forall|i: int|
                0 <= i < n - 1 && (#[trigger] queue[i]).max_new_tokens > 0 ==> kernel.started(
                    queue[i].prompt,
                    Sampler::Greedy,
                ) is Ok
            &&& match outcome {
                Ok(all) => {
                    &&& n > 0 && queue[n - 1].max_new_tokens > 0 ==> kernel.started(
                        queue[n - 1].prompt,
                        Sampler::Greedy,
                    ) is Ok
                    &&& all == done + content_ids(queue.take(n as int))
                    &&& after.active == state.active + starting(kernel, queue.take(n as int))
                    &&& n == queue.len() || after.active.len() == max_batch
                },
                Err(e) => {
                    &&& n > 0
                    &&& queue[n - 1].max_new_tokens > 0
                    &&& kernel.started(queue[n - 1].prompt, Sampler::Greedy) == Err::<
                        StateView<K>,
                        ErrorView,
                    >(e)
                    &&& after.active == state.active + starting(kernel, queue.take(n - 1))
                },
            }
        }),
    decreases state.pending.len(),
{
    let queue = state.pending;
    assert(queue.take(0) == Seq::<Request>::empty());
    assert(queue.skip(0) == queue);
    lemma_no_request(kernel);
    assert(done + Seq::<u64>::empty() == done);
    assert(state.active + Seq::<Slot<StateView<K>>>::empty() == state.active);
    if state.active.len() < max_batch && queue.len() > 0 {
        let p = queue[0];
        let rest = queue.skip(1);
        let started = kernel.started(p.prompt, Sampler::Greedy);
        if p.max_new_tokens > 0 && started is Err {
            assert(queue.skip(1) == rest);
            1
        } else {
            let (next, ids) = if p.max_new_tokens == 0 {
                (BatchState { pending: rest, active: state.active }, done.push(p.id))
            } else {
                (
                    BatchState {
                        pending: rest,
                        active: state.active.push(
                            Slot {
                                id: p.id,
                                state: started->Ok_0,
                                remaining: p.max_new_tokens,
                                eos: p.eos,
                            },
                        ),
                    },
                    done,
                )
            };
            let m = requests_are_admitted_in_order(kernel, max_batch, next, ids);
            let n = m + 1;
            assert(rest.skip(m as int) == queue.skip(n as int));
            assert(queue.take(n as int) == seq![p] + rest.take(m as int));
            lemma_first_request(kernel, p, rest.take(m as int));
            if m > 0 {
                assert(queue.take(n - 1) == seq![p] + rest.take(m - 1));
                lemma_first_request(kernel, p, rest.take(m - 1));
                assert(rest[m - 1] == queue[n - 1]);
            }
            assert forall|i: int| 0 <= i < n - 1 && (#[trigger] queue[i]).max_new_tokens > 0 implies
                kernel.started(queue[i].prompt, Sampler::Greedy) is Ok by {
                if i > 0 {
                    assert(rest[i - 1] == queue[i]);
                }
            }
            n
        }
    } else {
        0
    }
}

/// The token that a generation gets next.
pub open spec fn token_of<K: ComputeKernel>(kernel: K, slot: Slot<StateView<K>>) -> u32 {
    kernel.advanced(slot.state).0->Ok_0
}

/// The generations whose next token is their last: the last that they want, or the one that ends
/// a sequence.
pub open spec fn ending<K: ComputeKernel>(kernel: K, slots: Seq<Slot<StateView<K>>>) -> Seq<
    Slot<StateView<K>>,
> {
    slots.filter(
        |s: Slot<StateView<K>>| s.remaining == 1 || s.eos == Some(token_of(kernel, s)),
    )
}

/// The generations that go on after their next token.
pub open spec fn lasting<K: ComputeKernel>(kernel: K, slots: Seq<Slot<StateView<K>>>) -> Seq<
    Slot<StateView<K>>,
> {
    slots.filter(
        |s: Slot<StateView<K>>| !(s.remaining == 1 || s.eos == Some(token_of(kernel, s))),
    )
}

/// A tick gives each generation its next token, in order. Those for which it is the last finish,
/// in order; the others stay, in order, with what their model holds after the token and one token
/// less to come. Where a model fails the first failure is the tick's.
pub proof fn slots_advance_together<K: ComputeKernel>(kernel: K, slots: Seq<Slot<StateView<K>>>)
    ensures
        match advanced_all(kernel, slots) {
            Ok((tick, stay)) => {
                let last = ending(kernel, slots);
                let kept = lasting(kernel, slots);
                &&& forall|i: int|
                    0 <= i < slots.len() ==> kernel.advanced((#[trigger] slots[i]).state).0 is Ok
                &&& tick.produced == Seq::new(
                    slots.len(),
                    |i: int| (slots[i].id, token_of(kernel, slots[i])),
                )
                &&& tick.finished == Seq::new(last.len(), |j: int| last[j].id)
                &&& stay == Seq::new(
                    kept.len(),
                    |j: int|
                        Slot {
                            id: kept[j].id,
                            state: kernel.advanced(kept[j].state).1,
                            remaining: (kept[j].remaining - 1) as usize,
                            eos: kept[j].eos,
                        },
                )
            },
            Err(e) => exists|k: int|
                {
                    &&& 0 <= k < slots.len()
                    &&& kernel.advanced((#[trigger] slots[k]).state).0 == Err::<u32, ErrorView>(e)
                    &&& forall|i: int|
                        0 <= i < k ==> kernel.advanced((#[trigger] slots[i]).state).0 is Ok
                },
        },
    decreases slots.len(),
{
    reveal(Seq::filter);
    if slots.len() > 0 {
        let init = slots.drop_last();
        let n = init.len() as int;
        slots_advance_together(kernel, init);
        assert forall|i: int| 0 <= i < n implies #[trigger] slots[i] == init[i] by {}
        assert(slots[n] == slots.last());
        match advanced_all(kernel, init) {
            Err(e) => {
                let k = choose|k: int|
                    {
                        &&& 0 <= k < init.len()
                        &&& kernel.advanced((#[trigger] init[k]).state).0 == Err::<u32, ErrorView>(
                            e,
                        )
                        &&& forall|i: int|
                            0 <= i < k ==> kernel.advanced((#[trigger] init[i]).state).0 is Ok
                    };
                assert(slots[k] == init[k]);
                assert forall|i: int| 0 <= i < k implies kernel.advanced(
                    (#[trigger] slots[i]).state,
                ).0 is Ok by {
                    assert(init[i] == slots[i]);
                }
            },
            Ok((before, stayed)) => {
                assert forall|i: int| 0 <= i < n implies kernel.advanced(
                    (#[trigger] slots[i]).state,
                ).0 is Ok by {
                    assert(init[i] == slots[i]);
                }
                if kernel.advanced(slots.last().state).0 is Ok {
                    let (tick, stay) = advanced_all(kernel, slots)->Ok_0;
                    assert(tick.produced =~= Seq::new(
                        slots.len(),
                        |i: int| (slots[i].id, token_of(kernel, slots[i])),
                    ));
                }
            },
        }
    }
}

/// A tick fills the slots and then advances all of them. It reports first what finished without a
/// token, then what finished with one. Where a prompt is refused nothing is advanced; where a
/// model fails, all that was in flight is dropped, and what is queued stays queued.
pub proof fn ticks_fill_and_advance<K: ComputeKernel>(
    kernel: K,
    max_batch: nat,
    state: BatchState<StateView<K>>,
)
    ensures
        ({
            let (filled, middle) = admitted(kernel, max_batch, state, seq![]);
            let (outcome, after) = ticked(kernel, max_batch, state);
            let advance = advanced_all(kernel, middle.active);
            &&& after.pending == middle.pending
            &&& filled is Err ==> outcome is Err && outcome->Err_0 == filled->Err_0 && after.active
                == middle.active
            &&& filled is Ok && advance is Err ==> outcome is Err && outcome->Err_0
                == advance->Err_0 && after.active.len() == 0
            &&& filled is Ok && advance is Ok ==> {
                &&& outcome matches Ok(tick)
                &&& tick.produced == advance->Ok_0.0.produced
                &&& tick.finished == filled->Ok_0 + advance->Ok_0.0.finished
                &&& after.active == advance->Ok_0.1
            }
        }),
{
}

/// The tokens that a tick gives an id, in order.
pub open spec fn tokens_for(produced: Seq<(u64, u32)>, id: u64) -> Seq<u32> {
    let own = produced.filter(|x: (u64, u32)| x.0 == id);
    Seq::new(own.len(), |j: int| own[j].1)
}

/// Collecting puts the tokens that an id got behind those that it had, and leaves those of the
/// other ids alone.
pub proof fn tokens_are_collected_by_id(
    outputs: Map<u64, Seq<u32>>,
    produced: Seq<(u64, u32)>,
    id: u64,
)
    ensures
        output_of(collected(outputs, produced), id) == output_of(outputs, id) + tokens_for(
            produced,
            id,
        ),
        outputs.contains_key(id) ==> output_of(outputs, id) == outputs[id],
        !outputs.contains_key(id) ==> output_of(outputs, id).len() == 0,
    decreases produced.len(),
{
    reveal(Seq::filter);
    if produced.len() > 0 {
        let init = produced.drop_last();
        tokens_are_collected_by_id(outputs, init, id);
        let (other, token) = produced.last();
        if other == id {
            assert(tokens_for(produced, id) == tokens_for(init, id).push(token));
            assert(output_of(outputs, id) + tokens_for(init, id).push(token) == (output_of(
                outputs,
                id,
            ) + tokens_for(init, id)).push(token));
        } else {
            assert(tokens_for(produced, id) == tokens_for(init, id));
        }
    } else {
        assert(output_of(outputs, id) + tokens_for(produced, id) == output_of(outputs, id));
    }
}

/// Results come in the order in which their ids finished. The first result of an id has all the
/// tokens collected for it; a further one of the same id has none. What is collected for the
/// other ids stays.
pub proof fn results_are_handed_out_by_id(outputs: Map<u64, Seq<u32>>, finished: Seq<u64>)
    ensures
        ({
            let (results, left) = handed_out(outputs, finished);
            &&& results.len() == finished.len()
            &&& forall|j: int|
                0 <= j < finished.len() ==> {
                    &&& (#[trigger] results[j]).0 == finished[j]
                    &&& results[j].1 == (if finished.take(j).contains(finished[j]) {
                        seq![]
                    } else {
                        output_of(outputs, finished[j])
                    })
                }
            &&& forall|id: u64|
                #![trigger left.contains_key(id)]
                left.contains_key(id) <==> outputs.contains_key(id) && !finished.contains(id)
            &&& forall|id: u64| left.contains_key(id) ==> #[trigger] left[id] == outputs[id]
        }),
    decreases finished.len(),
{
    if finished.len() > 0 {
        let init = finished.drop_last();
        let id = finished.last();
        let n = init.len() as int;
        results_are_handed_out_by_id(outputs, init);
        let (before, held) = handed_out(outputs, init);
        let (results, left) = handed_out(outputs, finished);
        assert(finished.take(n) == init);
        assert forall|x: u64| finished.contains(x) <==> init.contains(x) || x == id by {
            if finished.contains(x) {
                let i = choose|i: int| 0 <= i < finished.len() && finished[i] == x;
                if i < n {
                    assert(init[i] == x);
                }
            }
            if init.contains(x) {
                let i = choose|i: int| 0 <= i < init.len() && init[i] == x;
                assert(finished[i] == x);
            }
            assert(finished[n] == id);
        }
        assert forall|j: int| 0 <= j < finished.len() implies {
            &&& (#[trigger] results[j]).0 == finished[j]
            &&& results[j].1 == (if finished.take(j).contains(finished[j]) {
                seq![]
            } else {
                output_of(outputs, finished[j])
            })
        } by {
            if j < n {
                assert(results[j] == before[j]);
                assert(init.take(j) == finished.take(j));
                assert(init[j] == finished[j]);
            } else {
                assert(results[j] == (id, output_of(held, id)));
                if init.contains(id) {
                    assert(!held.contains_key(id));
                }
            }
        }
    }
}

/// A run ends where nothing is left to do, with no result. Else its results are those of its
/// first tick, one for each id that finished in it and in that order, and then those of the run
/// from there on; what goes wrong in a tick ends the run.
pub proof fn runs_go_tick_by_tick<K: ComputeKernel>(
    kernel: K,
    max_batch: nat,
    state: BatchState<StateView<K>>,
    outputs: Map<u64, Seq<u32>>,
)
    requires
        max_batch > 0,
        slots_are_live(state.active),
    ensures
        ({
            let (outcome, end) = ran(kernel, max_batch, state, outputs);
            let (first, after) = ticked(kernel, max_batch, state);
            let idle = state.pending.len() == 0 && state.active.len() == 0;
            &&& idle ==> outcome is Ok && outcome->Ok_0.len() == 0 && end == state
            &&& !idle && first is Err ==> outcome is Err && outcome->Err_0 == first->Err_0 && end
                == after
            &&& !idle && first is Ok ==> {
                let tick = first->Ok_0;
                let n = tick.finished.len() as int;
                let (handed, left) = handed_out(collected(outputs, tick.produced), tick.finished);
                let (later, later_end) = ran(kernel, max_batch, after, left);
                &&& end == later_end
                &&& later is Err ==> outcome is Err && outcome->Err_0 == later->Err_0
                &&& later is Ok ==> {
                    &&& outcome matches Ok(results)
                    &&& results.take(n) == handed
                    &&& results.skip(n) == later->Ok_0
                }
            }
        }),
{
    let (first, after) = ticked(kernel, max_batch, state);
    if has_work(state) && first is Ok {
        let tick = first->Ok_0;
        tick_does_work(kernel, max_batch, state);
        let held = collected(outputs, tick.produced);
        results_are_handed_out_by_id(held, tick.finished);
        let (handed, left) = handed_out(held, tick.finished);
        if ran(kernel, max_batch, after, left).0 is Ok {
            let more = ran(kernel, max_batch, after, left).0->Ok_0;
            let n = tick.finished.len() as int;
            assert((handed + more).take(n) == handed);
            assert((handed + more).skip(n) == more);
        }
    }
}

/// There is work as long as a request is queued or a generation is in flight.
pub proof fn work_is_queued_or_in_flight<T>(state: BatchState<T>)
    ensures
        has_work(state) <==> !(state.pending.len() == 0 && state.active.len() == 0),
{
}

/// The views of ticks and of results hold what these hold.
pub proof fn reports_hold_what_is_there(tick: Tick, list: Seq<Finished>)
    ensures
        tick@.produced == tick.produced@,
        tick@.finished == tick.finished@,
        results_of(list).len() == list.len(),
        forall|i: int|
            0 <= i < list.len() ==> #[trigger] results_of(list)[i] == (
                list[i].id,
                list[i].tokens@,
            ),
{
}

} // verus!
