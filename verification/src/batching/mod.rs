//! Continuous batching: up to a fixed number of generations are in flight at once, each advanced
//! by one token per tick, and queued requests move into slots as they come free.

pub mod laws;
pub mod schedule;
pub mod tick_laws;

use crate::batching::schedule::{
    admitted, advanced_all, collected, finishes, handed_out, has_work, slots_are_filled, advancing_does_work,
    tick_does_work, output_of, ran, slot_of, slots_are_live, ticked, work_left, BatchState,
    Request, Slot, TickView,
};
use crate::error::{ErrorView, FlipError};
use crate::forward::kernel::{ComputeKernel, StateView};
use crate::generate::{GenerationSession, Generator, Sampler};
use std::collections::{HashMap, VecDeque};
use vstd::prelude::*;

verus! {

/// A queued request awaiting admission.
struct Pending {
    id: u64,
    prompt: Vec<u32>,
    max_new_tokens: usize,
    eos: Option<u32>,
}

impl Pending {
    spec fn request(self) -> Request {
        Request {
            id: self.id,
            prompt: self.prompt@,
            max_new_tokens: self.max_new_tokens,
            eos: self.eos,
        }
    }
}

/// A generation in flight.
struct Active<'a, K: ComputeKernel> {
    id: u64,
    session: GenerationSession<'a, K>,
    remaining: usize,
    eos: Option<u32>,
}

impl<'a, K: ComputeKernel> Active<'a, K> {
    spec fn slot(self) -> Slot<StateView<K>> {
        Slot {
            id: self.id,
            state: self.session.state@,
            remaining: self.remaining,
            eos: self.eos,
        }
    }
}

spec fn requests(pending: Seq<Pending>) -> Seq<Request> {
    Seq::new(pending.len(), |i: int| pending[i].request())
}

spec fn slots<'a, K: ComputeKernel>(active: Seq<Active<'a, K>>) -> Seq<Slot<StateView<K>>> {
    Seq::new(active.len(), |i: int| active[i].slot())
}

spec fn run_on<'a, K: ComputeKernel>(active: Seq<Active<'a, K>>, generator: &Generator<K>) -> bool {
    forall|i: int| 0 <= i < active.len() ==> (#[trigger] active[i]).session.generator == generator
}

/// A completed request.
#[derive(Debug, Clone, PartialEq, Eq)]
pub struct Finished {
    pub id: u64,
    pub tokens: Vec<u32>,
}

/// What one tick produced: the ids with the token each got, and the ids of the requests that
/// finished.
#[derive(Debug, Clone)]
pub struct Tick {
    pub produced: Vec<(u64, u32)>,
    pub finished: Vec<u64>,
}

impl View for Tick {
    type V = TickView;

    open spec fn view(&self) -> TickView {
        TickView { produced: self.produced@, finished: self.finished@ }
    }
}

impl Default for Tick {
    fn default() -> (r: Self)
        ensures
            r.produced@ == Seq::<(u64, u32)>::empty(),
            r.finished@ == Seq::<u64>::empty(),
    {
        Tick { produced: Vec::new(), finished: Vec::new() }
    }
}

/// The results as plain values.
pub open spec fn results_of(list: Seq<Finished>) -> Seq<(u64, Seq<u32>)> {
    Seq::new(list.len(), |i: int| (list[i].id, list[i].tokens@))
}

/// The token lists of a table.
spec fn lists(table: Map<u64, Vec<u32>>) -> Map<u64, Seq<u32>> {
    Map::new(|id: u64| table.contains_key(id), |id: u64| table[id]@)
}

/// A continuous-batching scheduler over a borrowed generator.
pub struct BatchScheduler<'a, K: ComputeKernel> {
    generator: &'a Generator<K>,
    max_batch: usize,
    pending: VecDeque<Pending>,
    active: VecDeque<Active<'a, K>>,
}

impl<'a, K: ComputeKernel> View for BatchScheduler<'a, K> {
    type V = BatchState<StateView<K>>;

    closed spec fn view(&self) -> BatchState<StateView<K>> {
        BatchState { pending: requests(self.pending@), active: slots(self.active@) }
    }
}

impl<'a, K: ComputeKernel> BatchScheduler<'a, K> {
    /// The model that the generations run on.
    pub closed spec fn kernel(&self) -> K {
        self.generator.kernel
    }

    /// How many generations may be in flight at once.
    pub closed spec fn max_batch(&self) -> nat {
        self.max_batch as nat
    }

    /// Whether the scheduler is one that its operations give: there is room for a generation, no
    /// more are in flight than may be, and each has a token to come.
    pub open spec fn wf(&self) -> bool {
        &&& self.sessions_run_here()
        &&& self.max_batch() >= 1
        &&& self@.active.len() <= self.max_batch()
        &&& slots_are_live(self@.active)
    }

    /// Whether every generation in flight runs on the scheduler's generator.
    pub closed spec fn sessions_run_here(&self) -> bool {
        run_on(self.active@, self.generator)
    }

    /// A scheduler that runs at most `max_batch` generations at once, and at least one.
    pub fn new(generator: &'a Generator<K>, max_batch: usize) -> (r: Self)
        ensures
            r.wf(),
            r.kernel() == generator.kernel,
            r.max_batch() == (if max_batch == 0 {
                1nat
            } else {
                max_batch as nat
            }),
            r@ == (BatchState::<StateView<K>> { pending: seq![], active: seq![] }),
    {
        let max_batch = if max_batch == 0 {
            1
        } else {
            max_batch
        };
        let r = BatchScheduler {
            generator,
            max_batch,
            pending: VecDeque::new(),
            active: VecDeque::new(),
        };
        assert(r@ =~= BatchState::<StateView<K>> { pending: seq![], active: seq![] });
        r
    }

    /// Queues a request. An empty prompt is refused.
    pub fn submit(
        &mut self,
        id: u64,
        prompt: Vec<u32>,
        max_new_tokens: usize,
        eos: Option<u32>,
    ) -> (r: Result<(), FlipError>)
        requires
            old(self).wf(),
        ensures
            final(self).wf(),
            final(self).kernel() == old(self).kernel(),
            final(self).max_batch() == old(self).max_batch(),
            match r {
                Ok(()) => {
                    &&& prompt@.len() > 0
                    &&& final(self)@ == (BatchState {
                        pending: old(self)@.pending.push(
                            Request { id, prompt: prompt@, max_new_tokens, eos },
                        ),
                        active: old(self)@.active,
                    })
                },
                Err(e) => {
                    &&& prompt@.len() == 0
                    &&& e.is_invalid_config("prompt is empty"@)
                    &&& final(self)@ == old(self)@
                },
            },
    {
        if prompt.len() == 0 {
            return Err(FlipError::InvalidConfig("prompt is empty".to_string()));
        }
        let ghost before = self@;
        let pending = Pending { id, prompt, max_new_tokens, eos };
        let ghost request = pending.request();
        self.pending.push_back(pending);
        assert(self@.pending =~= before.pending.push(request));
        Ok(())
    }

    /// Whether any request is queued or in flight.
    pub fn has_work(&self) -> (r: bool)
        ensures
            r == has_work(self@),
    {
        self.pending.len() != 0 || self.active.len() != 0
    }

    /// The number of requests in flight.
    pub fn active_len(&self) -> (r: usize)
        ensures
            r == self@.active.len(),
    {
        self.active.len()
    }

    /// Fills free slots from the queue. Gives the ids of the requests that finish at once,
    /// because they want no tokens.
    fn fill_slots(&mut self) -> (r: Result<Vec<u64>, FlipError>)
        requires
            old(self).wf(),
        ensures
            final(self).wf(),
            final(self).kernel() == old(self).kernel(),
            final(self).max_batch() == old(self).max_batch(),
            ({
                let (outcome, after) = admitted(
                    old(self).kernel(),
                    old(self).max_batch(),
                    old(self)@,
                    seq![],
                );
                &&& final(self)@ == after
                &&& match outcome {
                    Ok(done) => r matches Ok(v) && v@ == done,
                    Err(e) => r matches Err(f) && f@ == e,
                }
            }),
    {
        let ghost start = self@;
        let ghost kernel = self.kernel();
        let ghost max = self.max_batch();
        proof {
            slots_are_filled(kernel, max, start, seq![]);
        }
        let mut zero_finished: Vec<u64> = Vec::new();
        while self.active.len() < self.max_batch && self.pending.len() > 0
            invariant
                self.sessions_run_here(),
                slots_are_live(self@.active),
                self@.active.len() <= max,
                max >= 1,
                self.kernel() == kernel,
                self.max_batch() == max,
                kernel == old(self).kernel(),
                max == old(self).max_batch(),
                start == old(self)@,
                admitted(kernel, max, start, seq![]) == admitted(
                    kernel,
                    max,
                    self@,
                    zero_finished@,
                ),
            decreases self.pending@.len(),
        {
            let ghost before = self@;
            let ghost queue = self.pending@;
            let ghost running = self.active@;
            match self.pending.pop_front() {
                None => {},
                Some(p) => {
                    assert(requests(self.pending@) =~= before.pending.skip(1));
                    assert(before.pending[0] == p.request());
                    if p.max_new_tokens == 0 {
                        zero_finished.push(p.id);
                    } else {
                        match self.generator.start_session(p.prompt.as_slice(), Sampler::Greedy) {
                            Ok(session) => {
                                let active = Active {
                                    id: p.id,
                                    session,
                                    remaining: p.max_new_tokens,
                                    eos: p.eos,
                                };
                                let ghost slot = active.slot();
                                self.active.push_back(active);
                                assert(slots(self.active@) =~= before.active.push(slot));
                                assert(slot == slot_of(p.request(), session.state@));
                            },
                            Err(e) => {
                                return Err(e);
                            },
                        }
                    }
                },
            }
        }
        Ok(zero_finished)
    }

    /// One tick: admits queued requests, advances every generation in flight by one token, and
    /// retires those that finished.
    pub fn step(&mut self) -> (r: Result<Tick, FlipError>)
        requires
            old(self).wf(),
        ensures
            final(self).wf(),
            final(self).kernel() == old(self).kernel(),
            final(self).max_batch() == old(self).max_batch(),
            ({
                let (outcome, after) = ticked(old(self).kernel(), old(self).max_batch(), old(self)@);
                &&& final(self)@ == after
                &&& match outcome {
                    Ok(tick) => r matches Ok(t) && t@ == tick,
                    Err(e) => r matches Err(f) && f@ == e,
                }
            }),
    {
        let zero_finished = match self.fill_slots() {
            Ok(list) => list,
            Err(e) => {
                return Err(e);
            },
        };
        let ghost kernel = self.kernel();
        let ghost middle = self@;
        let ghost done = zero_finished@;
        proof {
            advancing_does_work(kernel, middle.active);
        }
        let mut tick = Tick::default();
        tick.finished = zero_finished;
        let mut running: VecDeque<Active<'a, K>> = VecDeque::new();
        std::mem::swap(&mut running, &mut self.active);
        let mut still_active: VecDeque<Active<'a, K>> = VecDeque::new();
        let ghost all = running@;
        let ghost mut i: int = 0;
        assert(slots(self.active@) =~= Seq::<Slot<StateView<K>>>::empty());
        assert(middle.active.take(0) =~= Seq::<Slot<StateView<K>>>::empty());
        assert(slots(still_active@) =~= Seq::<Slot<StateView<K>>>::empty());
        while running.len() > 0
            invariant
                0 <= i <= all.len(),
                running@ == all.skip(i),
                middle.active == slots(all),
                run_on(all, self.generator),
                run_on(still_active@, self.generator),
                slots_are_live(middle.active),
                self@.active == Seq::<Slot<StateView<K>>>::empty(),
                self@.pending == middle.pending,
                self.max_batch() == old(self).max_batch(),
                self.max_batch() >= 1,
                self.kernel() == kernel,
                kernel == old(self).kernel(),
                admitted(kernel, old(self).max_batch(), old(self)@, seq![]) == (
                    Ok::<Seq<u64>, ErrorView>(done),
                    middle,
                ),
                advanced_all(kernel, middle.active.take(i)) matches Ok((t, stay)) && {
                    &&& tick.produced@ == t.produced
                    &&& tick.finished@ == done + t.finished
                    &&& slots(still_active@) == stay
                },
                self.sessions_run_here(),
            decreases running@.len(),
        {
            let ghost stayed = slots(still_active@);
            let ghost finished = tick.finished@;
            assert(middle.active.take(i + 1).drop_last() =~= middle.active.take(i));
            assert(middle.active[i] == all[i].slot());
            assert(middle.active[i].remaining > 0);
            match running.pop_front() {
                None => {},
                Some(a) => {
                    let mut a = a;
                    assert(a == all[i]);
                    let ghost slot = a.slot();
                    match a.session.step() {
                        Err(e) => {
                            proof {
                                lemma_failure_stays(kernel, middle.active, i + 1);
                            }
                            return Err(e);
                        },
                        Ok(token) => {
                            tick.produced.push((a.id, token));
                            a.remaining = a.remaining - 1;
                            let stop = match a.eos {
                                Some(eos) => eos == token,
                                None => false,
                            };
                            if a.remaining == 0 || stop {
                                tick.finished.push(a.id);
                                assert(finishes(slot, token));
                                proof {
                                    let t = advanced_all(kernel, middle.active.take(i))->Ok_0.0;
                                    assert(finished.push(a.id) =~= done + t.finished.push(a.id));
                                }
                            } else {
                                let ghost kept = a.slot();
                                still_active.push_back(a);
                                assert(slots(still_active@) =~= stayed.push(kept));
                            }
                        },
                    }
                    proof {
                        i = i + 1;
                    }
                    assert(running@ =~= all.skip(i));
                },
            }
        }
        assert(middle.active.take(i) =~= middle.active);
        self.active = still_active;
        Ok(tick)
    }
}

proof fn lemma_failure_stays<K: ComputeKernel>(kernel: K, slots: Seq<Slot<StateView<K>>>, i: int)
    requires
        0 <= i <= slots.len(),
        advanced_all(kernel, slots.take(i)) is Err,
    ensures
        advanced_all(kernel, slots) is Err,
        advanced_all(kernel, slots)->Err_0 == advanced_all(kernel, slots.take(i))->Err_0,
    decreases slots.len(),
{
    if i == slots.len() {
        assert(slots.take(i) == slots);
    } else {
        assert(slots.drop_last().take(i) == slots.take(i));
        lemma_failure_stays(kernel, slots.drop_last(), i);
    }
}

/// Puts the tokens of a tick behind those collected so far.
fn collect(outputs: &mut HashMap<u64, Vec<u32>>, produced: &Vec<(u64, u32)>)
    ensures
        lists(final(outputs)@) == collected(lists(old(outputs)@), produced@),
{
    broadcast use vstd::std_specs::hash::group_hash_axioms;

    let ghost start = lists(outputs@);
    let mut i: usize = 0;
    assert(produced@.take(0) =~= Seq::<(u64, u32)>::empty());
    while i < produced.len()
        invariant
            i <= produced@.len(),
            lists(outputs@) == collected(start, produced@.take(i as int)),
            start == lists(old(outputs)@),
        decreases produced@.len() - i,
    {
        let (id, token) = produced[i];
        let ghost before = lists(outputs@);
        assert(produced@.take(i + 1).drop_last() =~= produced@.take(i as int));
        let mut tokens = match outputs.remove(&id) {
            Some(list) => list,
            None => Vec::new(),
        };
        assert(tokens@ == output_of(before, id));
        tokens.push(token);
        let ghost now = tokens@;
        outputs.insert(id, tokens);
        assert(lists(outputs@) =~= before.insert(id, now));
        i += 1;
    }
    assert(produced@.take(produced@.len() as int) =~= produced@);
}

/// Hands out the tokens of the requests that finished.
fn hand_out(
    outputs: &mut HashMap<u64, Vec<u32>>,
    finished: &Vec<u64>,
    results: &mut Vec<Finished>,
)
    ensures
        ({
            let (handed, left) = handed_out(lists(old(outputs)@), finished@);
            &&& lists(final(outputs)@) == left
            &&& results_of(final(results)@) == results_of(old(results)@) + handed
        }),
{
    broadcast use vstd::std_specs::hash::group_hash_axioms;

    let ghost start = lists(outputs@);
    let ghost first = results_of(results@);
    let mut i: usize = 0;
    assert(finished@.take(0) =~= Seq::<u64>::empty());
    while i < finished.len()
        invariant
            i <= finished@.len(),
            start == lists(old(outputs)@),
            first == results_of(old(results)@),
            lists(outputs@) == handed_out(start, finished@.take(i as int)).1,
            results_of(results@) == first + handed_out(start, finished@.take(i as int)).0,
        decreases finished@.len() - i,
    {
        let id = finished[i];
        let ghost before = lists(outputs@);
        let ghost sofar = results_of(results@);
        let ghost handed = handed_out(start, finished@.take(i as int)).0;
        assert(finished@.take(i + 1).drop_last() =~= finished@.take(i as int));
        let tokens = match outputs.remove(&id) {
            Some(list) => list,
            None => Vec::new(),
        };
        assert(tokens@ == output_of(before, id));
        assert(lists(outputs@) =~= before.remove(id));
        let ghost now = tokens@;
        results.push(Finished { id, tokens });
        assert(results_of(results@) =~= sofar.push((id, now)));
        assert(sofar.push((id, now)) =~= first + handed.push((id, now)));
        i += 1;
    }
    assert(finished@.take(finished@.len() as int) =~= finished@);
}

impl<'a, K: ComputeKernel> BatchScheduler<'a, K> {
    /// Ticks until every request has completed, and gives the results in the order of
    /// completion.
    pub fn run(&mut self) -> (r: Result<Vec<Finished>, FlipError>)
        requires
            old(self).wf(),
        ensures
            final(self).wf(),
            final(self).kernel() == old(self).kernel(),
            final(self).max_batch() == old(self).max_batch(),
            ({
                let (outcome, after) = ran(
                    old(self).kernel(),
                    old(self).max_batch(),
                    old(self)@,
                    Map::empty(),
                );
                &&& final(self)@ == after
                &&& match outcome {
                    Ok(results) => r matches Ok(v) && results_of(v@) == results,
                    Err(e) => r matches Err(f) && f@ == e,
                }
            }),
    {
        let ghost kernel = self.kernel();
        let ghost max = self.max_batch();
        let ghost whole = ran(kernel, max, self@, Map::empty());
        let mut outputs: HashMap<u64, Vec<u32>> = HashMap::new();
        let mut results: Vec<Finished> = Vec::new();
        assert(lists(outputs@) =~= Map::<u64, Seq<u32>>::empty());
        while self.has_work()
            invariant
                self.wf(),
                self.kernel() == kernel,
                self.max_batch() == max,
                kernel == old(self).kernel(),
                max == old(self).max_batch(),
                whole == ran(kernel, max, old(self)@, Map::empty()),
                ({
                    let (outcome, after) = ran(kernel, max, self@, lists(outputs@));
                    &&& whole.1 == after
                    &&& match outcome {
                        Ok(more) => whole.0 == Ok::<Seq<(u64, Seq<u32>)>, ErrorView>(
                            results_of(results@) + more,
                        ),
                        Err(e) => whole.0 == Err::<Seq<(u64, Seq<u32>)>, ErrorView>(e),
                    }
                }),
            decreases work_left(self@),
        {
            let ghost before = self@;
            let ghost held = lists(outputs@);
            let ghost first = results_of(results@);
            match self.step() {
                Err(e) => {
                    return Err(e);
                },
                Ok(tick) => {
                    proof {
                        tick_does_work(kernel, max, before);
                    }
                    collect(&mut outputs, &tick.produced);
                    let ghost handed = handed_out(lists(outputs@), tick.finished@).0;
                    hand_out(&mut outputs, &tick.finished, &mut results);
                    proof {
                        let rest = ran(kernel, max, self@, lists(outputs@)).0;
                        if rest is Ok {
                            assert(first + (handed + rest->Ok_0) =~= (first + handed)
                                + rest->Ok_0);
                        }
                    }
                },
            }
        }
        assert(results_of(results@) + Seq::<(u64, Seq<u32>)>::empty() =~= results_of(results@));
        Ok(results)
    }
}

} // verus!
