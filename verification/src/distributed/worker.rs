//! A worker: it owns a shard of the layers and answers requests to run them.
//!
//! The worker decides; who calls it reads frames, sends replies and runs the blocks.

use crate::distributed::protocol::{Message, MessageView};
use crate::error::{ErrorView, FlipError};
use crate::forward::block::{size_fault, BlockConfig, KvLayerCache, LayerTensors};
use crate::text::same_text;
use vstd::prelude::*;

verus! {

/// How many connections are served at once. Further ones are dropped.
pub const MAX_CONNECTIONS: usize = 64;

/// After how many seconds without a byte a connection is dropped.
pub const IO_TIMEOUT_SECS: u64 = 30;

/// Takes a new connection where fewer than the maximum are being served. Gives how many are then
/// being served.
pub fn accept_connection(live: usize) -> (r: Option<usize>)
    ensures
        r == (if live < MAX_CONNECTIONS {
            Some((live + 1) as usize)
        } else {
            None::<usize>
        }),
        r matches Some(n) ==> n <= MAX_CONNECTIONS,
        live < 64 ==> r == Some((live + 1) as usize),
        live >= 64 ==> r is None,
{
    if live >= MAX_CONNECTIONS {
        None
    } else {
        Some(live + 1)
    }
}

/// What running one block gives: the hidden state that comes out or why there is none, and the
/// history after it.
pub type BlockOutcome = (Result<Vec<u32>, FlipError>, KvLayerCache);

/// The weights and the histories of a worker's layers.
pub struct WorkerState {
    pub cfg: BlockConfig,
    pub layers: Vec<LayerTensors>,
    pub kv: Vec<KvLayerCache>,
}

impl WorkerState {
    /// Whether there is one history for each layer, and the width of histories can be computed.
    pub open spec fn wf(self) -> bool {
        &&& self.kv@.len() == self.layers@.len()
        &&& self.cfg.kv_width() <= usize::MAX
    }
}

/// Whether `used` are the histories that a run at `position` starts from: fresh ones at the start
/// of a sequence, else those that are there.
pub open spec fn starts_from(
    used: Seq<KvLayerCache>,
    held: Seq<KvLayerCache>,
    position: usize,
    kv_dim: nat,
) -> bool {
    &&& used.len() == held.len()
    &&& if position == 0 {
        forall|i: int| 0 <= i < used.len() ==> (#[trigger] used[i]).is_fresh(kv_dim)
    } else {
        used == held
    }
}

/// The hidden state that block `i` is given: that of the request, or what the block before it
/// gave.
pub open spec fn block_input(first: Vec<u32>, trace: Seq<BlockOutcome>, i: int) -> Vec<u32> {
    if i == 0 {
        first
    } else {
        trace[i - 1].0->Ok_0
    }
}

/// Whether entry `i` of `trace` is what running block `i` gave.
pub open spec fn block_gave<F: Fn(
    &BlockConfig,
    &LayerTensors,
    &Vec<u32>,
    KvLayerCache,
    usize,
) -> BlockOutcome>(
    block: F,
    cfg: BlockConfig,
    layers: Seq<LayerTensors>,
    used: Seq<KvLayerCache>,
    first: Vec<u32>,
    position: usize,
    trace: Seq<BlockOutcome>,
    i: int,
) -> bool {
    call_ensures(
        block,
        (&cfg, &layers[i], &block_input(first, trace, i), used[i], position),
        trace[i],
    )
}

/// Whether `trace` is what running the first blocks in order gave, each on what the one before
/// it gave and on its own history; only the last may have failed.
pub open spec fn blocks_ran<F: Fn(
    &BlockConfig,
    &LayerTensors,
    &Vec<u32>,
    KvLayerCache,
    usize,
) -> BlockOutcome>(
    block: F,
    cfg: BlockConfig,
    layers: Seq<LayerTensors>,
    used: Seq<KvLayerCache>,
    first: Vec<u32>,
    position: usize,
    trace: Seq<BlockOutcome>,
) -> bool {
    &&& trace.len() <= layers.len()
    &&& forall|i: int|
        0 <= i < trace.len() ==> #[trigger] block_gave(
            block,
            cfg,
            layers,
            used,
            first,
            position,
            trace,
            i,
        )
    &&& forall|i: int| 0 <= i < trace.len() - 1 ==> (#[trigger] trace[i]).0 is Ok
}

/// Whether what a block gives is as wide as what it was given.
pub open spec fn keeps_width<F: Fn(
    &BlockConfig,
    &LayerTensors,
    &Vec<u32>,
    KvLayerCache,
    usize,
) -> BlockOutcome>(block: F) -> bool {
    forall|
        cfg: &BlockConfig,
        layer: &LayerTensors,
        h: &Vec<u32>,
        kv: KvLayerCache,
        position: usize,
        outcome: BlockOutcome,
    | #[trigger]
        call_ensures(block, (cfg, layer, h, kv, position), outcome) ==> (outcome.0 matches Ok(out)
            ==> out@.len() == h@.len())
}

/// Whether `kv` are the histories after the blocks of `trace` ran.
pub open spec fn histories_after(
    kv: Seq<KvLayerCache>,
    used: Seq<KvLayerCache>,
    trace: Seq<BlockOutcome>,
) -> bool {
    &&& kv.len() == used.len()
    &&& forall|i: int|
        0 <= i < kv.len() ==> #[trigger] kv[i] == (if i < trace.len() {
            trace[i].1
        } else {
            used[i]
        })
}

/// Whether running a shard on `first` gave `last` and `r`, and took the worker from `before` to
/// `after`.
pub open spec fn shard_ran<F: Fn(
    &BlockConfig,
    &LayerTensors,
    &Vec<u32>,
    KvLayerCache,
    usize,
) -> BlockOutcome>(
    block: F,
    before: WorkerState,
    after: WorkerState,
    first: Vec<u32>,
    last: Vec<u32>,
    position: usize,
    r: Result<(), FlipError>,
) -> bool {
    exists|used: Seq<KvLayerCache>, trace: Seq<BlockOutcome>| #[trigger]
        shard_went(block, before, after, first, last, position, r, used, trace)
}

/// Whether a shard ran from the histories `used`, and its blocks gave `trace`.
pub open spec fn shard_went<F: Fn(
    &BlockConfig,
    &LayerTensors,
    &Vec<u32>,
    KvLayerCache,
    usize,
) -> BlockOutcome>(
    block: F,
    before: WorkerState,
    after: WorkerState,
    first: Vec<u32>,
    last: Vec<u32>,
    position: usize,
    r: Result<(), FlipError>,
    used: Seq<KvLayerCache>,
    trace: Seq<BlockOutcome>,
) -> bool {
    &&& starts_from(used, before.kv@, position, before.cfg.kv_width())
    &&& blocks_ran(block, before.cfg, before.layers@, used, first, position, trace)
    &&& histories_after(after.kv@, used, trace)
    &&& match r {
        Ok(()) => {
            &&& trace.len() == before.layers@.len()
            &&& trace.len() > 0 ==> trace.last().0 is Ok
            &&& last == block_input(first, trace, trace.len() as int)
        },
        Err(e) => {
            &&& trace.len() > 0
            &&& trace.last().0 == Err::<Vec<u32>, FlipError>(e)
            &&& last == block_input(first, trace, trace.len() - 1)
        },
    }
}

proof fn lemma_one_more_block<
    F: Fn(&BlockConfig, &LayerTensors, &Vec<u32>, KvLayerCache, usize) -> BlockOutcome,
>(
    block: F,
    cfg: BlockConfig,
    layers: Seq<LayerTensors>,
    used: Seq<KvLayerCache>,
    first: Vec<u32>,
    position: usize,
    trace: Seq<BlockOutcome>,
    outcome: BlockOutcome,
)
    requires
        blocks_ran(block, cfg, layers, used, first, position, trace),
        trace.len() < layers.len(),
        trace.len() > 0 ==> trace.last().0 is Ok,
        call_ensures(
            block,
            (
                &cfg,
                &layers[trace.len() as int],
                &block_input(first, trace, trace.len() as int),
                used[trace.len() as int],
                position,
            ),
            outcome,
        ),
    ensures
        blocks_ran(block, cfg, layers, used, first, position, trace.push(outcome)),
        block_input(first, trace.push(outcome), trace.len() as int) == block_input(
            first,
            trace,
            trace.len() as int,
        ),
{
    let longer = trace.push(outcome);
    assert forall|j: int| 0 <= j < longer.len() implies #[trigger] block_gave(
        block,
        cfg,
        layers,
        used,
        first,
        position,
        longer,
        j,
    ) by {
        assert(block_input(first, longer, j) == block_input(first, trace, j));
        if j < trace.len() {
            assert(block_gave(block, cfg, layers, used, first, position, trace, j));
            assert(longer[j] == trace[j]);
        }
    }
    assert forall|j: int| 0 <= j < longer.len() - 1 implies (#[trigger] longer[j]).0 is Ok by {
        assert(longer[j] == trace[j]);
    }
}

/// Running a shard and then, on what came out, another one is running all their layers in one go.
pub proof fn shards_compose<
    F: Fn(&BlockConfig, &LayerTensors, &Vec<u32>, KvLayerCache, usize) -> BlockOutcome,
>(
    block: F,
    cfg: BlockConfig,
    first: Vec<u32>,
    position: usize,
    layers: Seq<LayerTensors>,
    used: Seq<KvLayerCache>,
    trace: Seq<BlockOutcome>,
    more_layers: Seq<LayerTensors>,
    more_used: Seq<KvLayerCache>,
    more_trace: Seq<BlockOutcome>,
)
    requires
        used.len() == layers.len(),
        more_used.len() == more_layers.len(),
        blocks_ran(block, cfg, layers, used, first, position, trace),
        trace.len() == layers.len(),
        trace.len() > 0 ==> trace.last().0 is Ok,
        blocks_ran(
            block,
            cfg,
            more_layers,
            more_used,
            block_input(first, trace, trace.len() as int),
            position,
            more_trace,
        ),
    ensures
        blocks_ran(
            block,
            cfg,
            layers + more_layers,
            used + more_used,
            first,
            position,
            trace + more_trace,
        ),
        forall|i: int|
            0 <= i <= more_trace.len() ==> #[trigger] block_input(
                block_input(first, trace, trace.len() as int),
                more_trace,
                i,
            ) == block_input(first, trace + more_trace, trace.len() + i),
{
    let n = trace.len() as int;
    let middle = block_input(first, trace, n);
    let all = trace + more_trace;
    assert forall|i: int| 0 <= i <= more_trace.len() implies #[trigger] block_input(
        middle,
        more_trace,
        i,
    ) == block_input(first, all, n + i) by {
        if i > 0 {
            assert(all[n + i - 1] == more_trace[i - 1]);
        } else if n > 0 {
            assert(all[n - 1] == trace[n - 1]);
        }
    }
    assert forall|i: int| 0 <= i < all.len() implies #[trigger] block_gave(
        block,
        cfg,
        layers + more_layers,
        used + more_used,
        first,
        position,
        all,
        i,
    ) by {
        if i < n {
            assert(block_gave(block, cfg, layers, used, first, position, trace, i));
            assert(all[i] == trace[i]);
            assert(block_input(first, all, i) == block_input(first, trace, i));
        } else {
            let k = i - n;
            assert(block_gave(
                block,
                cfg,
                more_layers,
                more_used,
                middle,
                position,
                more_trace,
                k,
            ));
            assert(all[i] == more_trace[k]);
            assert(block_input(middle, more_trace, k) == block_input(first, all, n + k));
            assert((layers + more_layers)[i] == more_layers[k]);
            assert((used + more_used)[i] == more_used[k]);
        }
    }
    assert forall|i: int| 0 <= i < all.len() - 1 implies (#[trigger] all[i]).0 is Ok by {
        if i < n {
            assert(all[i] == trace[i]);
            assert(i < n - 1 ==> trace[i].0 is Ok);
        } else {
            assert(all[i] == more_trace[i - n]);
            assert(more_trace[i - n].0 is Ok);
        }
    }
}

/// Whether two outcomes say the same.
pub open spec fn same_result(
    a: Result<Vec<u32>, FlipError>,
    b: Result<Vec<u32>, FlipError>,
) -> bool {
    match (a, b) {
        (Ok(x), Ok(y)) => x@ == y@,
        (Err(e), Err(f)) => e@ == f@,
        _ => false,
    }
}

/// Whether what a block gives is a function of what it is given: the shape, the weights, the
/// contents of the hidden state and of the history, and the position.
pub open spec fn is_function<F: Fn(
    &BlockConfig,
    &LayerTensors,
    &Vec<u32>,
    KvLayerCache,
    usize,
) -> BlockOutcome>(block: F) -> bool {
    forall|
        cfg: &BlockConfig,
        layer: &LayerTensors,
        h: &Vec<u32>,
        kv: KvLayerCache,
        other_h: &Vec<u32>,
        other_kv: KvLayerCache,
        position: usize,
        a: BlockOutcome,
        b: BlockOutcome,
    |
        #![trigger
            call_ensures(block, (cfg, layer, h, kv, position), a),
            call_ensures(block, (cfg, layer, other_h, other_kv, position), b)
        ]
        {
            &&& call_ensures(block, (cfg, layer, h, kv, position), a)
            &&& call_ensures(block, (cfg, layer, other_h, other_kv, position), b)
            &&& h@ == other_h@
            &&& kv@ == other_kv@
        } ==> same_result(a.0, b.0) && a.1@ == b.1@
}

/// Whether two lists of histories hold the same.
pub open spec fn same_histories(a: Seq<KvLayerCache>, b: Seq<KvLayerCache>) -> bool {
    &&& a.len() == b.len()
    &&& forall|i: int| 0 <= i < a.len() ==> (#[trigger] a[i])@ == b[i]@
}

/// Two runs of the same blocks from the same histories go the same way, as far as both go.
proof fn lemma_same_steps<
    F: Fn(&BlockConfig, &LayerTensors, &Vec<u32>, KvLayerCache, usize) -> BlockOutcome,
>(
    block: F,
    cfg: BlockConfig,
    layers: Seq<LayerTensors>,
    position: usize,
    used: Seq<KvLayerCache>,
    first: Vec<u32>,
    trace: Seq<BlockOutcome>,
    other_used: Seq<KvLayerCache>,
    other_first: Vec<u32>,
    other_trace: Seq<BlockOutcome>,
    i: int,
)
    requires
        is_function(block),
        same_histories(used, other_used),
        used.len() == layers.len(),
        first@ == other_first@,
        blocks_ran(block, cfg, layers, used, first, position, trace),
        blocks_ran(block, cfg, layers, other_used, other_first, position, other_trace),
        0 <= i < trace.len(),
        i < other_trace.len(),
    ensures
        same_result(trace[i].0, other_trace[i].0),
        trace[i].1@ == other_trace[i].1@,
        block_input(first, trace, i)@ == block_input(other_first, other_trace, i)@,
    decreases i,
{
    if i > 0 {
        lemma_same_steps(
            block,
            cfg,
            layers,
            position,
            used,
            first,
            trace,
            other_used,
            other_first,
            other_trace,
            i - 1,
        );
        assert(trace[i - 1].0 is Ok);
        assert(other_trace[i - 1].0 is Ok);
    }
    assert(used[i]@ == other_used[i]@);
    assert(block_gave(block, cfg, layers, used, first, position, trace, i));
    assert(block_gave(block, cfg, layers, other_used, other_first, position, other_trace, i));
}

/// What a run gives depends on the shape, the weights, the hidden state, the position and the
/// histories; at position zero not even on those: a new sequence sees nothing of the one before
/// it. This holds of blocks that are functions of what they are given.
pub proof fn new_sequence_forgets<
    F: Fn(&BlockConfig, &LayerTensors, &Vec<u32>, KvLayerCache, usize) -> BlockOutcome,
>(
    block: F,
    position: usize,
    before: WorkerState,
    after: WorkerState,
    first: Vec<u32>,
    last: Vec<u32>,
    r: Result<(), FlipError>,
    other_before: WorkerState,
    other_after: WorkerState,
    other_first: Vec<u32>,
    other_last: Vec<u32>,
    other_r: Result<(), FlipError>,
)
    requires
        is_function(block),
        before.wf(),
        other_before.wf(),
        before.cfg == other_before.cfg,
        before.layers@ == other_before.layers@,
        first@ == other_first@,
        position == 0 || same_histories(before.kv@, other_before.kv@),
        shard_ran(block, before, after, first, last, position, r),
        shard_ran(block, other_before, other_after, other_first, other_last, position, other_r),
    ensures
        last@ == other_last@,
        same_histories(after.kv@, other_after.kv@),
        match (r, other_r) {
            (Ok(()), Ok(())) => true,
            (Err(e), Err(f)) => e@ == f@,
            _ => false,
        },
{
    let cfg = before.cfg;
    let layers = before.layers@;
    let (used, trace) = choose|used: Seq<KvLayerCache>, trace: Seq<BlockOutcome>|
        shard_went(block, before, after, first, last, position, r, used, trace);
    let (other_used, other_trace) = choose|
        used: Seq<KvLayerCache>,
        trace: Seq<BlockOutcome>,
    |
        shard_went(
            block,
            other_before,
            other_after,
            other_first,
            other_last,
            position,
            other_r,
            used,
            trace,
        );
    assert(same_histories(used, other_used)) by {
        if position == 0 {
            assert forall|i: int| 0 <= i < used.len() implies (#[trigger] used[i])@
                == other_used[i]@ by {
                assert(used[i].is_fresh(cfg.kv_width()));
                assert(other_used[i].is_fresh(cfg.kv_width()));
                assert(used[i].keys@ =~= other_used[i].keys@);
                assert(used[i].values@ =~= other_used[i].values@);
            }
        }
    }
    assert forall|i: int| 0 <= i < trace.len() && i < other_trace.len() implies {
        &&& same_result((#[trigger] trace[i]).0, other_trace[i].0)
        &&& trace[i].1@ == other_trace[i].1@
        &&& block_input(first, trace, i)@ == block_input(other_first, other_trace, i)@
    } by {
        lemma_same_steps(
            block,
            cfg,
            layers,
            position,
            used,
            first,
            trace,
            other_used,
            other_first,
            other_trace,
            i,
        );
    }
    if trace.len() > 0 && other_trace.len() > 0 {
        assert(same_result(trace[0].0, other_trace[0].0));
        let k = if trace.len() <= other_trace.len() {
            trace.len() - 1
        } else {
            other_trace.len() - 1
        };
        assert(same_result(trace[k].0, other_trace[k].0));
        assert(trace.len() == other_trace.len());
    }
    assert forall|i: int| 0 <= i < after.kv@.len() implies (#[trigger] after.kv@[i])@
        == other_after.kv@[i]@ by {
        assert(used[i]@ == other_used[i]@);
        if i < trace.len() {
            assert(trace[i].1@ == other_trace[i].1@);
        }
    }
}

proof fn lemma_one_more_history(
    kv: Seq<KvLayerCache>,
    used: Seq<KvLayerCache>,
    trace: Seq<BlockOutcome>,
    outcome: BlockOutcome,
)
    requires
        histories_after(kv, used, trace),
        trace.len() < kv.len(),
    ensures
        kv[trace.len() as int] == used[trace.len() as int],
        histories_after(
            kv.update(trace.len() as int, outcome.1),
            used,
            trace.push(outcome),
        ),
{
}

impl WorkerState {
    /// Runs one block on `hidden` and on its own history.
    fn run_block<
        F: Fn(&BlockConfig, &LayerTensors, &Vec<u32>, KvLayerCache, usize) -> BlockOutcome,
    >(&mut self, i: usize, hidden: &Vec<u32>, position: usize, decode_block: &F) -> (r: Result<
        Vec<u32>,
        FlipError,
    >)
        requires
            old(self).wf(),
            i < old(self).layers@.len(),
            call_requires(
                *decode_block,
                (
                    &old(self).cfg,
                    &old(self).layers@[i as int],
                    hidden,
                    old(self).kv@[i as int],
                    position,
                ),
            ),
        ensures
            final(self).wf(),
            final(self).cfg == old(self).cfg,
            final(self).layers == old(self).layers,
            exists|after: KvLayerCache|
                final(self).kv@ == old(self).kv@.update(i as int, after) && #[trigger] call_ensures(
                    *decode_block,
                    (
                        &old(self).cfg,
                        &old(self).layers@[i as int],
                        hidden,
                        old(self).kv@[i as int],
                        position,
                    ),
                    (r, after),
                ),
    {
        let ghost held = self.kv@;
        let mut cache = KvLayerCache::new(0);
        std::mem::swap(&mut cache, &mut self.kv[i]);
        assert(cache == held[i as int]);
        let (result, after) = decode_block(&self.cfg, &self.layers[i], hidden, cache, position);
        self.kv[i] = after;
        assert(self.kv@ =~= held.update(i as int, after));
        result
    }

    /// Runs the layers for one token: every block in order, each on what the one before it gave.
    /// At position zero, where a sequence starts, all histories are emptied first. A block that
    /// fails ends the run.
    pub fn run_shard<
        F: Fn(&BlockConfig, &LayerTensors, &Vec<u32>, KvLayerCache, usize) -> BlockOutcome,
    >(&mut self, hidden: &mut Vec<u32>, position: usize, decode_block: F) -> (r: Result<
        (),
        FlipError,
    >)
        requires
            old(self).wf(),
            forall|cfg: &BlockConfig, layer: &LayerTensors, h: &Vec<u32>, kv: KvLayerCache|
                call_requires(decode_block, (cfg, layer, h, kv, position)),
            keeps_width(decode_block),
        ensures
            final(self).wf(),
            final(hidden)@.len() == old(hidden)@.len(),
            final(self).cfg == old(self).cfg,
            final(self).layers == old(self).layers,
            shard_ran(
                decode_block,
                *old(self),
                *final(self),
                *old(hidden),
                *final(hidden),
                position,
                r,
            ),
    {
        let ghost first = *hidden;
        let ghost cfg = self.cfg;
        let ghost layers = self.layers@;
        let ghost held = self.kv@;
        if position == 0 {
            let mut i: usize = 0;
            while i < self.kv.len()
                invariant
                    self.wf(),
                    self.cfg == cfg,
                    self.cfg == old(self).cfg,
                    self.layers == old(self).layers,
                    i <= self.kv@.len(),
                    self.kv@.len() == held.len(),
                    forall|j: int|
                        0 <= j < i ==> (#[trigger] self.kv@[j]).is_fresh(cfg.kv_width()),
                decreases self.kv@.len() - i,
            {
                self.kv[i] = KvLayerCache::new(self.cfg.kv_dim());
                i += 1;
            }
        }
        let ghost used = self.kv@;
        let ghost mut trace: Seq<BlockOutcome> = Seq::empty();
        assert(starts_from(used, held, position, cfg.kv_width()));
        let mut i: usize = 0;
        while i < self.layers.len()
            invariant
                self.wf(),
                self.cfg == cfg,
                cfg == old(self).cfg,
                self.layers == old(self).layers,
                layers == old(self).layers@,
                held == old(self).kv@,
                first == *old(hidden),
                i <= layers.len(),
                used.len() == layers.len(),
                trace.len() == i,
                starts_from(used, held, position, cfg.kv_width()),
                blocks_ran(decode_block, cfg, layers, used, first, position, trace),
                histories_after(self.kv@, used, trace),
                i > 0 ==> trace.last().0 is Ok,
                *hidden == block_input(first, trace, i as int),
                forall|c: &BlockConfig, layer: &LayerTensors, h: &Vec<u32>, kv: KvLayerCache|
                    call_requires(decode_block, (c, layer, h, kv, position)),
                keeps_width(decode_block),
                hidden@.len() == old(hidden)@.len(),
            decreases layers.len() - i,
        {
            let ghost kv_before = self.kv@;
            let result = self.run_block(i, &*hidden, position, &decode_block);
            proof {
                let after = choose|after: KvLayerCache|
                    self.kv@ == kv_before.update(i as int, after) && #[trigger] call_ensures(
                        decode_block,
                        (
                            &cfg,
                            &layers[i as int],
                            &block_input(first, trace, i as int),
                            used[i as int],
                            position,
                        ),
                        (result, after),
                    );
                lemma_one_more_block(
                    decode_block,
                    cfg,
                    layers,
                    used,
                    first,
                    position,
                    trace,
                    (result, after),
                );
                lemma_one_more_history(kv_before, used, trace, (result, after));
                trace = trace.push((result, after));
            }
            match result {
                Ok(out) => {
                    *hidden = out;
                },
                Err(e) => {
                    assert(shard_went(
                        decode_block,
                        *old(self),
                        *self,
                        first,
                        *hidden,
                        position,
                        Err(e),
                        used,
                        trace,
                    ));
                    return Err(e);
                },
            }
            i += 1;
        }
        assert(shard_went(
            decode_block,
            *old(self),
            *self,
            first,
            *hidden,
            position,
            Ok(()),
            used,
            trace,
        ));
        Ok(())
    }
}

/// What reading a frame gave.
pub enum Incoming {
    /// A token that is to open the connection.
    Auth(String),
    Message(Message),
    /// Nothing: the connection ended, or the frame was bad.
    Unreadable,
}

/// What came in.
pub enum IncomingView {
    Auth(Seq<char>),
    Message(MessageView),
    Unreadable,
}

impl View for Incoming {
    type V = IncomingView;

    open spec fn view(&self) -> IncomingView {
        match self {
            Incoming::Auth(token) => IncomingView::Auth(token@),
            Incoming::Message(message) => IncomingView::Message(message@),
            Incoming::Unreadable => IncomingView::Unreadable,
        }
    }
}

/// What to do on a frame.
pub enum Action {
    /// Read the next frame.
    Wait,
    /// Send a message and read the next frame, or close where it cannot be sent.
    Send(Message),
    /// Run the shard, then send what [`shard_reply`] makes of the outcome.
    Run { position: usize, hidden: Vec<u32> },
    /// Send a message and close.
    SendAndClose(Message),
    /// Close.
    Close,
}

/// What is to be done.
pub enum ActionView {
    Wait,
    Send(MessageView),
    Run { position: usize, hidden: Seq<u32> },
    SendAndClose(MessageView),
    Close,
}

impl View for Action {
    type V = ActionView;

    open spec fn view(&self) -> ActionView {
        match self {
            Action::Wait => ActionView::Wait,
            Action::Send(message) => ActionView::Send(message@),
            Action::Run { position, hidden } => ActionView::Run {
                position: *position,
                hidden: hidden@,
            },
            Action::SendAndClose(message) => ActionView::SendAndClose(message@),
            Action::Close => ActionView::Close,
        }
    }
}

/// What to do on a frame, and whether the peer is let in after it. A peer that is not let in yet
/// must show the secret first. Then it may ask for runs, of hidden states of the right size, and
/// for signs of life.
pub open spec fn reaction(
    secret: Option<Seq<char>>,
    hidden_size: nat,
    let_in: bool,
    incoming: IncomingView,
) -> (ActionView, bool) {
    if !let_in {
        match incoming {
            IncomingView::Auth(token) if secret == Some(token) => (ActionView::Wait, true),
            _ => (ActionView::SendAndClose(MessageView::Error("unauthorized"@)), false),
        }
    } else {
        match incoming {
            IncomingView::Auth(_) => (ActionView::Wait, true),
            IncomingView::Message(MessageView::RunShard { position, hidden }) => if hidden.len()
                != hidden_size {
                (ActionView::SendAndClose(MessageView::Error("hidden size mismatch"@)), true)
            } else {
                (ActionView::Run { position: position as usize, hidden }, true)
            },
            IncomingView::Message(MessageView::Ping) => (ActionView::Send(MessageView::Pong), true),
            IncomingView::Message(_) => (ActionView::Wait, true),
            IncomingView::Unreadable => (ActionView::Close, true),
        }
    }
}

/// What is done on the frames of a connection, up to where it is closed.
pub open spec fn conversation(
    secret: Option<Seq<char>>,
    hidden_size: nat,
    let_in: bool,
    frames: Seq<IncomingView>,
) -> Seq<ActionView>
    decreases frames.len(),
{
    if frames.len() == 0 {
        seq![]
    } else {
        let (action, then) = reaction(secret, hidden_size, let_in, frames[0]);
        if action is Close || action is SendAndClose {
            seq![action]
        } else {
            seq![action] + conversation(secret, hidden_size, then, frames.skip(1))
        }
    }
}

/// Where a secret is required, a connection whose first frame does not show it is answered
/// "unauthorized" and closed, and nothing else is done for it.
pub proof fn strangers_are_refused(
    secret: Seq<char>,
    hidden_size: nat,
    frames: Seq<IncomingView>,
)
    requires
        frames.len() > 0,
        frames[0] != IncomingView::Auth(secret),
    ensures
        conversation(Some(secret), hidden_size, false, frames) == seq![
            ActionView::SendAndClose(MessageView::Error("unauthorized"@)),
        ],
{
}

/// A connection that shows the secret first is then served as any connection is where none is
/// required.
pub proof fn secret_lets_in(secret: Seq<char>, hidden_size: nat, frames: Seq<IncomingView>)
    requires
        frames.len() > 0,
        frames[0] == IncomingView::Auth(secret),
    ensures
        conversation(Some(secret), hidden_size, false, frames) == seq![ActionView::Wait]
            + conversation(None, hidden_size, true, frames.skip(1)),
{
    lemma_secret_is_asked_once(Some(secret), hidden_size, frames.skip(1));
}

proof fn lemma_secret_is_asked_once(
    secret: Option<Seq<char>>,
    hidden_size: nat,
    frames: Seq<IncomingView>,
)
    ensures
        conversation(secret, hidden_size, true, frames) == conversation(
            None,
            hidden_size,
            true,
            frames,
        ),
    decreases frames.len(),
{
    if frames.len() > 0 {
        lemma_secret_is_asked_once(secret, hidden_size, frames.skip(1));
    }
}

/// The reply to a run: the hidden state that came out, or what went wrong.
pub fn shard_reply(outcome: Result<(), String>, hidden: Vec<u32>) -> (r: Message)
    ensures
        r@ == (match outcome {
            Ok(()) => MessageView::ShardResult { hidden: hidden@ },
            Err(text) => MessageView::Error(text@),
        }),
{
    match outcome {
        Ok(()) => Message::ShardResult { hidden },
        Err(text) => Message::Error(text),
    }
}

/// A connection to a worker.
pub struct Connection {
    let_in: bool,
}

impl Connection {
    /// Whether the peer is let in.
    pub closed spec fn is_let_in(&self) -> bool {
        self.let_in
    }
}

/// The error for the first layer of a list with a tensor of the wrong size.
pub open spec fn layers_fault(cfg: BlockConfig, layers: Seq<LayerTensors>) -> Option<ErrorView>
    decreases layers.len(),
{
    if layers.len() == 0 {
        None
    } else {
        match layers_fault(cfg, layers.drop_last()) {
            Some(e) => Some(e),
            None => size_fault(layers.last().sized(cfg)),
        }
    }
}

proof fn lemma_fault_stays(cfg: BlockConfig, layers: Seq<LayerTensors>, i: int)
    requires
        0 <= i <= layers.len(),
        layers_fault(cfg, layers.take(i)) is Some,
    ensures
        layers_fault(cfg, layers) == layers_fault(cfg, layers.take(i)),
    decreases layers.len(),
{
    if i == layers.len() {
        assert(layers.take(i) == layers);
    } else {
        assert(layers.drop_last().take(i) == layers.take(i));
        lemma_fault_stays(cfg, layers.drop_last(), i);
    }
}

/// A worker that holds one shard of a model.
pub struct Worker {
    state: WorkerState,
    hidden_size: usize,
    secret: Option<String>,
}

impl Worker {
    /// The layers and their histories.
    pub closed spec fn state(&self) -> WorkerState {
        self.state
    }

    /// The size of the hidden states that it takes.
    pub closed spec fn hidden_size(&self) -> nat {
        self.hidden_size as nat
    }

    /// The secret that it requires of its peers.
    pub closed spec fn secret(&self) -> Option<Seq<char>> {
        match self.secret {
            Some(s) => Some(s@),
            None => None,
        }
    }

    /// A worker for `layers`, whose sizes are checked.
    pub fn new(cfg: BlockConfig, layers: Vec<LayerTensors>) -> (r: Result<Self, FlipError>)
        requires
            cfg.sizes_fit(),
        ensures
            match layers_fault(cfg, layers@) {
                None => r matches Ok(worker) && {
                    &&& worker.state().wf()
                    &&& worker.state().cfg == cfg
                    &&& worker.state().layers == layers
                    &&& forall|i: int|
                        0 <= i < layers@.len() ==> (#[trigger] worker.state().kv@[i]).is_fresh(
                            cfg.kv_width(),
                        )
                    &&& worker.hidden_size() == cfg.hidden_size
                    &&& worker.secret() is None
                },
                Some(e) => r matches Err(f) && f@ == e,
            },
    {
        let mut kv: Vec<KvLayerCache> = Vec::new();
        let mut i: usize = 0;
        assert(layers@.take(0) == Seq::<LayerTensors>::empty());
        while i < layers.len()
            invariant
                cfg.sizes_fit(),
                i <= layers@.len(),
                kv@.len() == i,
                layers_fault(cfg, layers@.take(i as int)) is None,
                forall|j: int| 0 <= j < i ==> (#[trigger] kv@[j]).is_fresh(cfg.kv_width()),
            decreases layers@.len() - i,
        {
            assert(layers@.take(i + 1).drop_last() == layers@.take(i as int));
            match layers[i].validate(&cfg) {
                Ok(()) => {},
                Err(e) => {
                    proof {
                        lemma_fault_stays(cfg, layers@, i + 1);
                    }
                    return Err(e);
                },
            }
            kv.push(KvLayerCache::new(cfg.kv_dim()));
            i += 1;
        }
        assert(layers@.take(layers@.len() as int) == layers@);
        Ok(
            Worker {
                state: WorkerState { cfg, layers, kv },
                hidden_size: cfg.hidden_size,
                secret: None,
            },
        )
    }

    /// Requires `secret` of every peer as its first frame; with none, every peer is let in.
    pub fn with_auth(self, secret: Option<String>) -> (r: Self)
        ensures
            r.state() == self.state(),
            r.hidden_size() == self.hidden_size(),
            r.secret() == (match secret {
                Some(s) => Some(s@),
                None => None,
            }),
    {
        Worker { state: self.state, hidden_size: self.hidden_size, secret }
    }

    /// A new connection: the peer is let in at once where no secret is required.
    pub fn connect(&self) -> (r: Connection)
        ensures
            r.is_let_in() == (self.secret() is None),
    {
        Connection { let_in: self.secret.is_none() }
    }

    /// Decides what to do on a frame.
    pub fn react(&self, connection: &mut Connection, incoming: Incoming) -> (r: Action)
        ensures
            (r@, final(connection).is_let_in()) == reaction(
                self.secret(),
                self.hidden_size(),
                old(connection).is_let_in(),
                incoming@,
            ),
            old(connection).is_let_in() ==> final(connection).is_let_in(),
            old(connection).is_let_in() ==> match incoming {
                Incoming::Message(Message::RunShard { position, hidden }) => if hidden@.len()
                    == self.hidden_size() {
                    &&& r matches Action::Run { position: at, hidden: on }
                    &&& position <= usize::MAX ==> at == position
                    &&& on@ == hidden@
                } else {
                    r matches Action::SendAndClose(Message::Error(text)) && text@
                        == "hidden size mismatch"@
                },
                Incoming::Message(Message::Ping) => r matches Action::Send(Message::Pong),
                Incoming::Unreadable => r is Close,
                _ => r is Wait,
            },
            !old(connection).is_let_in() ==> {
                let shown = incoming matches Incoming::Auth(token) && self.secret() == Some(token@);
                &&& final(connection).is_let_in() == shown
                &&& shown ==> r is Wait
                &&& !shown ==> (r matches Action::SendAndClose(Message::Error(text)) && text@
                    == "unauthorized"@)
            },
    {
        if !connection.let_in {
            let shown = match (&incoming, &self.secret) {
                (Incoming::Auth(token), Some(secret)) => same_text(token.as_str(), secret.as_str()),
                _ => false,
            };
            if shown {
                connection.let_in = true;
                return Action::Wait;
            }
            return Action::SendAndClose(Message::Error("unauthorized".to_string()));
        }
        match incoming {
            Incoming::Auth(_) => Action::Wait,
            Incoming::Message(Message::RunShard { position, hidden }) => {
                if hidden.len() != self.hidden_size {
                    Action::SendAndClose(Message::Error("hidden size mismatch".to_string()))
                } else {
                    Action::Run { position: position as usize, hidden }
                }
            },
            Incoming::Message(Message::Ping) => Action::Send(Message::Pong),
            Incoming::Message(_) => Action::Wait,
            Incoming::Unreadable => Action::Close,
        }
    }

    /// Runs the shard for one token.
    pub fn run_shard<
        F: Fn(&BlockConfig, &LayerTensors, &Vec<u32>, KvLayerCache, usize) -> BlockOutcome,
    >(&mut self, hidden: &mut Vec<u32>, position: usize, decode_block: F) -> (r: Result<
        (),
        FlipError,
    >)
        requires
            old(self).state().wf(),
            forall|cfg: &BlockConfig, layer: &LayerTensors, h: &Vec<u32>, kv: KvLayerCache|
                call_requires(decode_block, (cfg, layer, h, kv, position)),
            keeps_width(decode_block),
        ensures
            final(self).state().wf(),
            final(self).state().cfg == old(self).state().cfg,
            final(self).state().layers == old(self).state().layers,
            final(self).hidden_size() == old(self).hidden_size(),
            final(self).secret() == old(self).secret(),
            final(hidden)@.len() == old(hidden)@.len(),
            shard_ran(
                decode_block,
                old(self).state(),
                final(self).state(),
                *old(hidden),
                *final(hidden),
                position,
                r,
            ),
    {
        self.state.run_shard(hidden, position, decode_block)
    }
}

} // verus!
