use flip::distributed::protocol::Message;
use flip::distributed::worker::{
    accept_connection, shard_reply, Action, Incoming, Worker, MAX_CONNECTIONS,
};
use flip::error::FlipError;
use flip::forward::{BlockConfig, KvLayerCache, LayerTensors};

fn cfg() -> BlockConfig {
    BlockConfig {
        hidden_size: 2,
        num_heads: 1,
        num_kv_heads: 1,
        head_dim: 2,
        intermediate_size: 3,
        rope_theta: 10000.0f32.to_bits(),
        rms_eps: 1e-5f32.to_bits(),
    }
}

fn layer(mark: u32) -> LayerTensors {
    LayerTensors {
        q_proj: vec![mark; 4],
        k_proj: vec![0; 4],
        v_proj: vec![0; 4],
        o_proj: vec![0; 4],
        gate_proj: vec![0; 6],
        up_proj: vec![0; 6],
        down_proj: vec![0; 6],
        input_layernorm: vec![0; 2],
        post_attention_layernorm: vec![0; 2],
    }
}

/// Adds the layer's mark and the length of the history; fails on mark 99.
fn block(
    _cfg: &BlockConfig,
    layer: &LayerTensors,
    hidden: &Vec<u32>,
    mut kv: KvLayerCache,
    position: usize,
) -> (Result<Vec<u32>, FlipError>, KvLayerCache) {
    let seen = kv.keys.len() as u32;
    kv.keys.push(position as u32);
    if layer.q_proj[0] == 99 {
        return (Err(FlipError::InvalidConfig("bad layer".to_string())), kv);
    }
    let out = hidden.iter().map(|h| h * 10 + layer.q_proj[0] + seen * 100).collect();
    (Ok(out), kv)
}

fn worker() -> Worker {
    Worker::new(cfg(), vec![layer(1), layer(2)]).unwrap()
}

#[test]
fn layers_are_checked() {
    let mut bad = layer(1);
    bad.up_proj.push(0);
    let e = Worker::new(cfg(), vec![layer(0), bad]).err().unwrap();
    assert!(matches!(e, FlipError::InvalidConfig(m)
        if m == "tensor \"up_proj\": expected 6 elements, got 7"));
    assert!(Worker::new(cfg(), vec![]).is_ok());
    assert!(cfg().check_sizes());
    let huge = BlockConfig { num_heads: usize::MAX, ..cfg() };
    assert!(!huge.check_sizes());
}

#[test]
fn blocks_run_in_order_and_histories_grow() {
    let mut w = worker();
    let mut hidden = vec![0, 5];
    w.run_shard(&mut hidden, 0, block).unwrap();
    assert_eq!(hidden, vec![12, 512]);
    let mut hidden = vec![0, 0];
    w.run_shard(&mut hidden, 1, block).unwrap();
    assert_eq!(hidden, vec![1112, 1112]);
    // A new sequence starts from empty histories.
    let mut hidden = vec![0, 5];
    w.run_shard(&mut hidden, 0, block).unwrap();
    assert_eq!(hidden, vec![12, 512]);
}

#[test]
fn a_failing_block_ends_the_run() {
    let mut w = Worker::new(cfg(), vec![layer(1), layer(99), layer(2)]).unwrap();
    let mut hidden = vec![0, 0];
    let e = w.run_shard(&mut hidden, 0, block).unwrap_err();
    assert!(matches!(e, FlipError::InvalidConfig(m) if m == "bad layer"));
    assert_eq!(hidden, vec![1, 1]);
}

#[test]
fn peers_must_show_the_secret() {
    let w = worker().with_auth(Some("s3".to_string()));
    for first in [
        Incoming::Auth("s4".to_string()),
        Incoming::Message(Message::Ping),
        Incoming::Message(Message::RunShard { position: 0, hidden: vec![1, 2] }),
        Incoming::Unreadable,
    ] {
        let mut c = w.connect();
        let action = w.react(&mut c, first);
        assert!(matches!(action, Action::SendAndClose(Message::Error(m)) if m == "unauthorized"));
    }
    let mut c = w.connect();
    assert!(matches!(w.react(&mut c, Incoming::Auth("s3".to_string())), Action::Wait));
    assert!(matches!(
        w.react(&mut c, Incoming::Message(Message::Ping)),
        Action::Send(Message::Pong)
    ));
    assert!(matches!(w.react(&mut c, Incoming::Auth("other".to_string())), Action::Wait));
}

#[test]
fn open_workers_serve_everyone() {
    let w = worker().with_auth(Some("x".to_string())).with_auth(None);
    let mut c = w.connect();
    let run = Message::RunShard { position: 7, hidden: vec![1, 2] };
    assert!(matches!(
        w.react(&mut c, Incoming::Message(run)),
        Action::Run { position: 7, hidden } if hidden == vec![1, 2]
    ));
    assert!(matches!(w.react(&mut c, Incoming::Message(Message::Pong)), Action::Wait));
    assert!(matches!(
        w.react(&mut c, Incoming::Message(Message::Error("e".to_string()))),
        Action::Wait
    ));
    let run = Message::RunShard { position: 7, hidden: vec![1] };
    assert!(matches!(
        w.react(&mut c, Incoming::Message(run)),
        Action::SendAndClose(Message::Error(m)) if m == "hidden size mismatch"
    ));
    assert!(matches!(w.react(&mut c, Incoming::Unreadable), Action::Close));
}

#[test]
fn replies_to_runs() {
    assert_eq!(
        shard_reply(Ok(()), vec![4, 5]),
        Message::ShardResult { hidden: vec![4, 5] }
    );
    assert_eq!(
        shard_reply(Err("broken".to_string()), vec![4]),
        Message::Error("broken".to_string())
    );
}

#[test]
fn connections_are_capped() {
    assert_eq!(accept_connection(0), Some(1));
    assert_eq!(accept_connection(MAX_CONNECTIONS - 1), Some(MAX_CONNECTIONS));
    assert_eq!(accept_connection(MAX_CONNECTIONS), None);
}

#[test]
fn shards_compose_to_the_whole_model() {
    let mut first = Worker::new(cfg(), vec![layer(1), layer(2)]).unwrap();
    let mut second = Worker::new(cfg(), vec![layer(3)]).unwrap();
    let mut whole = Worker::new(cfg(), vec![layer(1), layer(2), layer(3)]).unwrap();
    for position in [0, 1, 2, 0, 1] {
        let mut split = vec![position as u32, 4];
        let mut joined = split.clone();
        first.run_shard(&mut split, position, block).unwrap();
        second.run_shard(&mut split, position, block).unwrap();
        whole.run_shard(&mut joined, position, block).unwrap();
        assert_eq!(split, joined);
    }
}
