//! How a worker answers its peers, and how it runs its layers.

use crate::distributed::protocol::{Message, MessageView};
use crate::distributed::worker::{
    block_gave, conversation, layers_fault, reaction, shard_ran, shard_went, Action, ActionView,
    BlockOutcome, Incoming, IncomingView, WorkerState, IO_TIMEOUT_SECS, MAX_CONNECTIONS,
};
use crate::error::FlipError;
use crate::forward::block::{size_fault, BlockConfig, KvLayerCache, LayerTensors};
use vstd::prelude::*;

verus! {

/// A peer that is let in, and asks for a run of a hidden state of the right size at a position,
/// gets that run: at the position that it names, be it the start of a sequence or any other that
/// can be counted to, and on the hidden state that it sent. It stays let in.
pub proof fn runs_are_run_as_asked(
    secret: Option<Seq<char>>,
    position: u64,
    hidden: Seq<u32>,
)
    requires
        position <= usize::MAX,
    ensures
        reaction(
            secret,
            hidden.len(),
            true,
            IncomingView::Message(MessageView::RunShard { position, hidden }),
        ) matches (ActionView::Run { position: at, hidden: on }, then) && {
            &&& at == position
            &&& on == hidden
            &&& then
        },
{
}

/// Runs at two positions differ: no two requests of a peer lead to the same run unless they name
/// the same position and the same hidden state.
pub proof fn runs_tell_requests_apart(
    secret: Option<Seq<char>>,
    hidden_size: nat,
    position: u64,
    hidden: Seq<u32>,
    other_position: u64,
    other_hidden: Seq<u32>,
)
    requires
        position <= usize::MAX,
        other_position <= usize::MAX,
        hidden.len() == hidden_size,
        other_hidden.len() == hidden_size,
        reaction(
            secret,
            hidden_size,
            true,
            IncomingView::Message(MessageView::RunShard { position, hidden }),
        ) == reaction(
            secret,
            hidden_size,
            true,
            IncomingView::Message(
                MessageView::RunShard { position: other_position, hidden: other_hidden },
            ),
        ),
    ensures
        position == other_position,
        hidden == other_hidden,
{
}

/// A run is only ever started for a peer that is let in and asked for it, with a hidden state of
/// the right size.
pub proof fn runs_are_asked_for(
    secret: Option<Seq<char>>,
    hidden_size: nat,
    let_in: bool,
    incoming: IncomingView,
)
    ensures
        reaction(secret, hidden_size, let_in, incoming).0 is Run ==> {
            &&& let_in
            &&& incoming matches IncomingView::Message(MessageView::RunShard { hidden, .. })
                && hidden.len() == hidden_size
        },
{
}

/// What a peer that is let in is answered on all else: a hidden state of the wrong size is
/// refused, a ping is answered by a pong, a connection that can no longer be read is closed, and
/// anything else is passed over. The peer stays let in.
pub proof fn peers_are_answered(
    secret: Option<Seq<char>>,
    hidden_size: nat,
    position: u64,
    hidden: Seq<u32>,
    text: Seq<char>,
)
    ensures
        hidden.len() != hidden_size ==> reaction(
            secret,
            hidden_size,
            true,
            IncomingView::Message(MessageView::RunShard { position, hidden }),
        ) == (ActionView::SendAndClose(MessageView::Error("hidden size mismatch"@)), true),
        reaction(secret, hidden_size, true, IncomingView::Message(MessageView::Ping)) == (
            ActionView::Send(MessageView::Pong),
            true,
        ),
        reaction(secret, hidden_size, true, IncomingView::Message(MessageView::Pong)) == (
            ActionView::Wait,
            true,
        ),
        reaction(
            secret,
            hidden_size,
            true,
            IncomingView::Message(MessageView::ShardResult { hidden }),
        ) == (ActionView::Wait, true),
        reaction(secret, hidden_size, true, IncomingView::Message(MessageView::Error(text))) == (
            ActionView::Wait,
            true,
        ),
        reaction(secret, hidden_size, true, IncomingView::Auth(text)) == (ActionView::Wait, true),
        reaction(secret, hidden_size, true, IncomingView::Unreadable) == (ActionView::Close, true),
{
}

/// A peer that is not let in yet is let in by the secret, and by nothing else: on anything else it
/// is told that it is not authorized, and the connection is closed.
pub proof fn secret_alone_lets_in(
    secret: Option<Seq<char>>,
    hidden_size: nat,
    incoming: IncomingView,
)
    ensures
        reaction(secret, hidden_size, false, incoming).1 <==> (secret matches Some(s) && incoming
            == IncomingView::Auth(s)),
        reaction(secret, hidden_size, false, incoming).1 ==> reaction(
            secret,
            hidden_size,
            false,
            incoming,
        ).0 is Wait,
        !reaction(secret, hidden_size, false, incoming).1 ==> reaction(
            secret,
            hidden_size,
            false,
            incoming,
        ).0 == ActionView::SendAndClose(MessageView::Error("unauthorized"@)),
{
}

/// A connection of a peer that is let in is served frame by frame, until one of them closes it.
pub proof fn frames_are_served_in_turn(
    secret: Option<Seq<char>>,
    hidden_size: nat,
    frame: IncomingView,
    rest: Seq<IncomingView>,
)
    ensures
        ({
            let action = reaction(secret, hidden_size, true, frame).0;
            let all = conversation(secret, hidden_size, true, seq![frame] + rest);
            if action is Close || action is SendAndClose {
                all == seq![action]
            } else {
                all == seq![action] + conversation(secret, hidden_size, true, rest)
            }
        }),
        conversation(secret, hidden_size, true, seq![]) == Seq::<ActionView>::empty(),
{
    let frames = seq![frame] + rest;
    assert(frames[0] == frame);
    assert(frames.skip(1) == rest);
}

/// A connection is given up after half a minute without a byte, and no more than 64 are served at
/// once.
pub proof fn connections_are_limited()
    ensures
        IO_TIMEOUT_SECS == 30,
        MAX_CONNECTIONS == 64,
{
}

/// The views of messages, of what comes in and of what is to be done hold what these hold.
pub proof fn views_hold_what_is_there(
    position: u64,
    at: usize,
    hidden: Vec<u32>,
    text: String,
    message: Message,
)
    ensures
        (Message::RunShard { position, hidden })@ == (MessageView::RunShard {
            position,
            hidden: hidden@,
        }),
        (Message::ShardResult { hidden })@ == (MessageView::ShardResult { hidden: hidden@ }),
        Message::Ping@ == MessageView::Ping,
        Message::Pong@ == MessageView::Pong,
        Message::Error(text)@ == MessageView::Error(text@),
        Incoming::Auth(text)@ == IncomingView::Auth(text@),
        Incoming::Message(message)@ == IncomingView::Message(message@),
        Incoming::Unreadable@ == IncomingView::Unreadable,
        (Action::Run { position: at, hidden })@ == (ActionView::Run {
            position: at,
            hidden: hidden@,
        }),
        Action::Send(message)@ == ActionView::Send(message@),
        Action::SendAndClose(message)@ == ActionView::SendAndClose(message@),
        Action::Wait@ == ActionView::Wait,
        Action::Close@ == ActionView::Close,
{
}

/// A run goes through the layers in order. The first block gets the hidden state of the request,
/// each other one what the block before it gave; each gets its own weights and its own history,
/// which is an empty one at the start of a sequence, and else the one that the worker holds. The
/// histories that come out are kept. The hidden state that comes out is what the last block gave;
/// where a block fails, its error ends the run, and the later blocks have not run.
pub proof fn blocks_run_in_order<
    F: Fn(&BlockConfig, &LayerTensors, &Vec<u32>, KvLayerCache, usize) -> BlockOutcome,
>(
    block: F,
    before: WorkerState,
    after: WorkerState,
    first: Vec<u32>,
    last: Vec<u32>,
    position: usize,
    r: Result<(), FlipError>,
) -> (ran: (Seq<KvLayerCache>, Seq<BlockOutcome>))
    requires
        before.wf(),
        shard_ran(block, before, after, first, last, position, r),
    ensures
        ({
            let used = ran.0;
            let trace = ran.1;
            let layers = before.layers@;
            &&& used.len() == layers.len()
            &&& position == 0 ==> forall|i: int|
                0 <= i < layers.len() ==> {
                    &&& (#[trigger] used[i]).keys@.len() == 0
                    &&& used[i].values@.len() == 0
                    &&& used[i].kv_dim == before.cfg.num_kv_heads * before.cfg.head_dim
                }
            &&& position != 0 ==> used == before.kv@
            &&& trace.len() <= layers.len()
            &&& trace.len() > 0 ==> call_ensures(
                block,
                (&before.cfg, &layers[0], &first, used[0], position),
                trace[0],
            )
            &&& forall|i: int|
                #![trigger layers[i]]
                0 < i < trace.len() ==> call_ensures(
                    block,
                    (&before.cfg, &layers[i], &trace[i - 1].0->Ok_0, used[i], position),
                    trace[i],
                )
            &&& forall|i: int| 0 <= i < trace.len() - 1 ==> (#[trigger] trace[i]).0 is Ok
            &&& after.kv@.len() == layers.len()
            &&& forall|i: int|
                0 <= i < trace.len() ==> #[trigger] after.kv@[i] == trace[i].1
            &&& forall|i: int|
                trace.len() <= i < layers.len() ==> #[trigger] after.kv@[i] == used[i]
            &&& r is Ok ==> {
                &&& trace.len() == layers.len()
                &&& layers.len() == 0 ==> last == first
                &&& layers.len() > 0 ==> trace.last().0 == Ok::<Vec<u32>, FlipError>(last)
            }
            &&& r matches Err(e) ==> {
                &&& trace.len() > 0
                &&& trace.last().0 == Err::<Vec<u32>, FlipError>(e)
            }
        }),
{
    let (used, trace) = choose|used: Seq<KvLayerCache>, trace: Seq<BlockOutcome>| #[trigger]
        shard_went(block, before, after, first, last, position, r, used, trace);
    let layers = before.layers@;
    if position == 0 {
        assert forall|i: int| 0 <= i < layers.len() implies {
            &&& (#[trigger] used[i]).keys@.len() == 0
            &&& used[i].values@.len() == 0
            &&& used[i].kv_dim == before.cfg.num_kv_heads * before.cfg.head_dim
        } by {
            assert(used[i].is_fresh(before.cfg.kv_width()));
        }
    }
    if trace.len() > 0 {
        assert(block_gave(block, before.cfg, layers, used, first, position, trace, 0));
    }
    assert forall|i: int|
        #![trigger layers[i]]
        0 < i < trace.len() implies call_ensures(
        block,
        (&before.cfg, &layers[i], &trace[i - 1].0->Ok_0, used[i], position),
        trace[i],
    ) by {
        assert(block_gave(block, before.cfg, layers, used, first, position, trace, i));
    }
    (used, trace)
}

/// A worker refuses its layers just where one of them has a tensor of the wrong size, and reports
/// the first such layer.
pub proof fn first_wrong_layer_is_reported(cfg: BlockConfig, layers: Seq<LayerTensors>)
    ensures
        layers_fault(cfg, layers) is None <==> forall|i: int|
            0 <= i < layers.len() ==> size_fault((#[trigger] layers[i]).sized(cfg)) is None,
        layers_fault(cfg, layers) matches Some(e) ==> exists|k: int|
            0 <= k < layers.len() && size_fault((#[trigger] layers[k]).sized(cfg)) == Some(e)
                && forall|i: int|
                0 <= i < k ==> size_fault((#[trigger] layers[i]).sized(cfg)) is None,
    decreases layers.len(),
{
    if layers.len() > 0 {
        let init = layers.drop_last();
        first_wrong_layer_is_reported(cfg, init);
        let n = init.len() as int;
        assert(forall|i: int| 0 <= i < n ==> init[i] == #[trigger] layers[i]);
        assert(layers[n] == layers.last());
        if layers_fault(cfg, init) is Some {
            let e = layers_fault(cfg, init)->Some_0;
            let k = choose|k: int|
                0 <= k < init.len() && size_fault((#[trigger] init[k]).sized(cfg)) == Some(e)
                    && forall|i: int|
                    0 <= i < k ==> size_fault((#[trigger] init[i]).sized(cfg)) is None;
            assert(size_fault(layers[k].sized(cfg)) == Some(e));
            assert forall|i: int| 0 <= i < k implies size_fault(
                (#[trigger] layers[i]).sized(cfg),
            ) is None by {
                assert(init[i] == layers[i]);
            }
        } else {
            assert forall|i: int| 0 <= i < n implies size_fault(
                (#[trigger] layers[i]).sized(cfg),
            ) is None by {
                assert(init[i] == layers[i]);
            }
        }
    }
}

} // verus!
