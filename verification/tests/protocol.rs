use flip::distributed::protocol::{
    decode, encode, floats_from_bytes, lengths_fit_in, payload_len, read_message, read_u64,
    write_message, Message, WireErrorKind,
};

fn bits(floats: &[f32]) -> Vec<u32> {
    floats.iter().map(|f| f.to_bits()).collect()
}

fn round_trip(msg: Message) {
    let mut buf = Vec::new();
    write_message(&mut buf, &msg).unwrap();
    let decoded = read_message(&mut &buf[..]).unwrap();
    assert_eq!(decoded, msg);
}

#[test]
fn messages_round_trip_exactly() {
    round_trip(Message::Ping);
    round_trip(Message::Pong);
    round_trip(Message::Error("boom".into()));
    round_trip(Message::RunShard {
        position: 7,
        hidden: bits(&[1.5, -2.25, 0.0, f32::MIN_POSITIVE, 12345.678]),
    });
    round_trip(Message::ShardResult {
        hidden: bits(&[-0.001, 42.0]),
    });
}

#[test]
fn floats_are_bit_exact() {
    // Tricky values that a text encoding could perturb.
    let floats = vec![0.1f32, 0.2, 0.3, 1.0 / 3.0, std::f32::consts::PI];
    let hidden = bits(&floats);
    let mut buf = Vec::new();
    write_message(&mut buf, &Message::ShardResult { hidden: hidden.clone() }).unwrap();
    let Message::ShardResult { hidden: got } = read_message(&mut &buf[..]).unwrap() else {
        panic!("wrong message");
    };
    assert_eq!(got, hidden); // exact bit equality
    let back: Vec<f32> = got.iter().map(|b| f32::from_bits(*b)).collect();
    assert_eq!(back, floats);
}

#[test]
fn payload_bytes() {
    assert_eq!(encode(&Message::Ping), vec![3]);
    assert_eq!(encode(&Message::Pong), vec![4]);
    assert_eq!(
        encode(&Message::Error("é".to_string())),
        vec![5, 2, 0, 0, 0, 0, 0, 0, 0, 0xC3, 0xA9]
    );
    assert_eq!(
        encode(&Message::RunShard { position: 0x0102, hidden: vec![0xAABBCCDD] }),
        vec![
            1, 2, 1, 0, 0, 0, 0, 0, 0, 1, 0, 0, 0, 0, 0, 0, 0, 0xDD, 0xCC, 0xBB, 0xAA
        ]
    );
    assert_eq!(
        encode(&Message::ShardResult { hidden: vec![] }),
        vec![2, 0, 0, 0, 0, 0, 0, 0, 0]
    );
}

#[test]
fn bad_payloads_are_refused() {
    let e = decode(&[]).unwrap_err();
    assert_eq!((e.kind, e.message.as_str()), (WireErrorKind::InvalidData, "empty frame"));
    let e = decode(&[77]).unwrap_err();
    assert_eq!(
        (e.kind, e.message.as_str()),
        (WireErrorKind::InvalidData, "unknown message tag 77")
    );
    let e = decode(&[1, 0, 0]).unwrap_err();
    assert_eq!((e.kind, e.message.as_str()), (WireErrorKind::UnexpectedEof, "short u64"));
    let e = decode(&[5, 0, 0]).unwrap_err();
    assert_eq!((e.kind, e.message.as_str()), (WireErrorKind::UnexpectedEof, "short u64"));
    let e = decode(&[2, 1, 0, 0, 0, 0, 0, 0, 0, 9]).unwrap_err();
    assert_eq!(
        (e.kind, e.message.as_str()),
        (WireErrorKind::UnexpectedEof, "short float payload")
    );
}

#[test]
fn error_text_may_be_cut_short_and_bad() {
    let m = decode(&[5, 9, 0, 0, 0, 0, 0, 0, 0, b'n', b'o', 0xFF]).unwrap();
    assert_eq!(m, Message::Error("no\u{FFFD}".to_string()));
    // What follows the message is not looked at.
    assert_eq!(decode(&[3, 1, 2]).unwrap(), Message::Ping);
    assert_eq!(
        decode(&[5, 1, 0, 0, 0, 0, 0, 0, 0, b'n', b'o']).unwrap(),
        Message::Error("n".to_string())
    );
}

#[test]
fn frames_are_read_one_after_the_other() {
    let mut buf = Vec::new();
    write_message(&mut buf, &Message::Ping).unwrap();
    write_message(&mut buf, &Message::Error("x".to_string())).unwrap();
    assert_eq!(buf[..5], [1, 0, 0, 0, 3]);
    let mut r = &buf[..];
    assert_eq!(read_message(&mut r).unwrap(), Message::Ping);
    assert_eq!(read_message(&mut r).unwrap(), Message::Error("x".to_string()));
    assert!(r.is_empty());
    let e = read_message(&mut r).unwrap_err();
    assert_eq!(e.kind, WireErrorKind::UnexpectedEof);
    let mut short = &buf[..4];
    let e = read_message(&mut short).unwrap_err();
    assert_eq!(e.message, "failed to fill whole buffer");
    assert_eq!(payload_len(&[1, 2, 0, 0]), 513);
}

#[test]
fn lengths_beyond_memory_are_told() {
    let huge = [2, 255, 255, 255, 255, 255, 255, 255, 255];
    assert!(!lengths_fit_in(&huge));
    let mut error = huge;
    error[0] = 5;
    assert!(!lengths_fit_in(&error));
    let mut run = [0u8; 17];
    run[0] = 1;
    run[16] = 255;
    assert!(!lengths_fit_in(&run));
    assert!(lengths_fit_in(&[]));
    assert!(lengths_fit_in(&encode(&Message::ShardResult { hidden: vec![1, 2] })));
    let mut cursor = 1;
    assert_eq!(read_u64(&huge, &mut cursor).unwrap(), u64::MAX);
    assert_eq!(cursor, 9);
    assert!(read_u64(&huge, &mut cursor).is_err());
    assert_eq!(cursor, 9);
}

#[test]
fn cursors_beyond_the_buffer_are_answered() {
    let buf = [1, 0, 0, 0, 0, 0, 0, 0, 9, 8, 7, 6];
    let mut cursor = 1000;
    let e = read_u64(&buf, &mut cursor).unwrap_err();
    assert_eq!((e.kind, e.message.as_str()), (WireErrorKind::UnexpectedEof, "short u64"));
    assert_eq!(cursor, 1000);
    let e = floats_from_bytes(&buf, &mut cursor).unwrap_err();
    assert_eq!((e.kind, e.message.as_str()), (WireErrorKind::UnexpectedEof, "short u64"));
    assert_eq!(cursor, 1000);
    let mut cursor = 0;
    assert_eq!(floats_from_bytes(&buf, &mut cursor).unwrap(), vec![0x06070809]);
    assert_eq!(cursor, 12);
    let mut cursor = 0;
    assert!(floats_from_bytes(&buf[..11], &mut cursor).is_err());
    assert_eq!(cursor, 8);
}
