//! The wire protocol: length-prefixed binary frames.
//!
//! A frame is the length of its payload in four bytes, then the payload. The payload's first byte
//! says what message it is; the fields of the message follow. Hidden states are the raw bits of
//! their 32-bit floats, so that they arrive as they were sent.

use crate::distributed::bytes::{
    get_le, le_bytes, le_value, lemma_word_ranges, number_is_in_range, number_reads_back, put_le,
};
use crate::text::{decimal, decimal_text, lossy_utf8, text_of_bytes};
use vstd::prelude::*;
use vstd::slice::slice_subrange;
use vstd::utf8::{encode_utf8, encode_utf8_decode_utf8, encode_utf8_valid_utf8};

verus! {

pub const TAG_RUN_SHARD: u8 = 1;

pub const TAG_SHARD_RESULT: u8 = 2;

pub const TAG_PING: u8 = 3;

pub const TAG_PONG: u8 = 4;

pub const TAG_ERROR: u8 = 5;

/// A protocol message. Hidden states are the bits of 32-bit floats.
#[derive(Debug, Clone, PartialEq)]
pub enum Message {
    /// Master to worker: run your layers for one token.
    RunShard { position: u64, hidden: Vec<u32> },
    /// Worker to master: the hidden state that came out.
    ShardResult { hidden: Vec<u32> },
    /// Are you there?
    Ping,
    /// Yes.
    Pong,
    /// What went wrong.
    Error(String),
}

/// What a message says.
pub enum MessageView {
    RunShard { position: u64, hidden: Seq<u32> },
    ShardResult { hidden: Seq<u32> },
    Ping,
    Pong,
    Error(Seq<char>),
}

impl View for Message {
    type V = MessageView;

    open spec fn view(&self) -> MessageView {
        match self {
            Message::RunShard { position, hidden } => MessageView::RunShard {
                position: *position,
                hidden: hidden@,
            },
            Message::ShardResult { hidden } => MessageView::ShardResult { hidden: hidden@ },
            Message::Ping => MessageView::Ping,
            Message::Pong => MessageView::Pong,
            Message::Error(text) => MessageView::Error(text@),
        }
    }
}

/// What kind of fault a frame has.
#[derive(Debug, Clone, Copy, PartialEq, Eq, Structural)]
pub enum WireErrorKind {
    /// It ends too early.
    UnexpectedEof,
    /// It is no message.
    InvalidData,
}

/// Why a frame could not be read.
#[derive(Debug)]
pub struct WireError {
    pub kind: WireErrorKind,
    pub message: String,
}

/// What a fault says.
pub struct WireFault {
    pub kind: WireErrorKind,
    pub message: Seq<char>,
}

impl View for WireError {
    type V = WireFault;

    open spec fn view(&self) -> WireFault {
        WireFault { kind: self.kind, message: self.message@ }
    }
}

/// A fault where the bytes end too early.
pub open spec fn too_short(message: Seq<char>) -> WireFault {
    WireFault { kind: WireErrorKind::UnexpectedEof, message }
}

/// A fault where the bytes are no message.
pub open spec fn invalid(message: Seq<char>) -> WireFault {
    WireFault { kind: WireErrorKind::InvalidData, message }
}

/// The bytes of the bits of floats.
pub open spec fn bits_bytes(hidden: Seq<u32>) -> Seq<u8>
    decreases hidden.len(),
{
    if hidden.len() == 0 {
        seq![]
    } else {
        bits_bytes(hidden.drop_last()) + le_bytes(hidden.last() as nat, 4)
    }
}

/// A hidden state: how many floats it has, then their bits.
pub open spec fn hidden_bytes(hidden: Seq<u32>) -> Seq<u8> {
    le_bytes(hidden.len(), 8) + bits_bytes(hidden)
}

/// The payload of a message.
pub open spec fn payload_of(message: MessageView) -> Seq<u8> {
    match message {
        MessageView::RunShard { position, hidden } => seq![TAG_RUN_SHARD] + le_bytes(
            position as nat,
            8,
        ) + hidden_bytes(hidden),
        MessageView::ShardResult { hidden } => seq![TAG_SHARD_RESULT] + hidden_bytes(hidden),
        MessageView::Ping => seq![TAG_PING],
        MessageView::Pong => seq![TAG_PONG],
        MessageView::Error(text) => seq![TAG_ERROR] + le_bytes(encode_utf8(text).len(), 8)
            + encode_utf8(text),
    }
}

/// The 64-bit number at `at`.
pub open spec fn word_at(buf: Seq<u8>, at: int) -> nat {
    le_value(buf.subrange(at, at + 8))
}

/// The hidden state at `at`, or what is missing of it.
pub open spec fn hidden_at(buf: Seq<u8>, at: int) -> Result<Seq<u32>, WireFault> {
    let n = word_at(buf, at);
    if at + 8 > buf.len() {
        Err(too_short("short u64"@))
    } else if at + 8 + 4 * n > buf.len() {
        Err(too_short("short float payload"@))
    } else {
        Ok(
            Seq::new(
                n,
                |i: int| le_value(buf.subrange(at + 8 + 4 * i, at + 12 + 4 * i)) as u32,
            ),
        )
    }
}

/// The message of a payload, or its fault. What follows the message is not looked at.
pub open spec fn message_of(payload: Seq<u8>) -> Result<MessageView, WireFault> {
    if payload.len() == 0 {
        Err(invalid("empty frame"@))
    } else if payload[0] == TAG_RUN_SHARD {
        if payload.len() < 9 {
            Err(too_short("short u64"@))
        } else {
            match hidden_at(payload, 9) {
                Ok(hidden) => Ok(
                    MessageView::RunShard { position: word_at(payload, 1) as u64, hidden },
                ),
                Err(e) => Err(e),
            }
        }
    } else if payload[0] == TAG_SHARD_RESULT {
        match hidden_at(payload, 1) {
            Ok(hidden) => Ok(MessageView::ShardResult { hidden }),
            Err(e) => Err(e),
        }
    } else if payload[0] == TAG_PING {
        Ok(MessageView::Ping)
    } else if payload[0] == TAG_PONG {
        Ok(MessageView::Pong)
    } else if payload[0] == TAG_ERROR {
        if payload.len() < 9 {
            Err(too_short("short u64"@))
        } else {
            let end = 9 + word_at(payload, 1);
            Ok(
                MessageView::Error(
                    lossy_utf8(
                        payload.subrange(
                            9,
                            if end <= payload.len() {
                                end as int
                            } else {
                                payload.len() as int
                            },
                        ),
                    ),
                ),
            )
        }
    } else {
        Err(invalid("unknown message tag "@ + decimal(payload[0] as nat)))
    }
}

/// Whether the lengths that a payload states can be computed with: where they can not, there is
/// no end of the message to compare with the end of the payload.
pub open spec fn lengths_fit(payload: Seq<u8>) -> bool {
    &&& payload.len() >= 17 && payload[0] == TAG_RUN_SHARD ==> 17 + 4 * word_at(payload, 9)
        <= usize::MAX
    &&& payload.len() >= 9 && payload[0] == TAG_SHARD_RESULT ==> 9 + 4 * word_at(payload, 1)
        <= usize::MAX
    &&& payload.len() >= 9 && payload[0] == TAG_ERROR ==> 9 + word_at(payload, 1) <= usize::MAX
}

/// A message's frame: the length of its payload, of which the lowest four bytes are sent, and
/// the payload.
pub open spec fn frame_of(message: MessageView) -> Seq<u8> {
    le_bytes(payload_of(message).len(), 4) + payload_of(message)
}

/// The bits of a hidden state are read back from where they were written.
proof fn lemma_bits_read_back(
    before: Seq<u8>,
    hidden: Seq<u32>,
    after: Seq<u8>,
    i: int,
)
    requires
        0 <= i < hidden.len(),
    ensures
        bits_bytes(hidden).len() == 4 * hidden.len(),
        ({
            let buf = before + bits_bytes(hidden) + after;
            let at = before.len() + 4 * i;
            le_value(buf.subrange(at, at + 4)) == hidden[i]
        }),
    decreases hidden.len(),
{
    lemma_bits_len(hidden);
    lemma_bits_len(hidden.drop_last());
    let init = bits_bytes(hidden.drop_last());
    let word = le_bytes(hidden.last() as nat, 4);
    let buf = before + bits_bytes(hidden) + after;
    number_reads_back(hidden.last() as nat, 4);
    lemma_word_ranges();
    if i == hidden.len() - 1 {
        let at = before.len() + 4 * i;
        assert(buf.subrange(at, at + 4) == word);
    } else {
        lemma_bits_read_back(before, hidden.drop_last(), word + after, i);
        assert(buf == before + init + (word + after));
    }
}

proof fn lemma_bits_len(hidden: Seq<u32>)
    ensures
        bits_bytes(hidden).len() == 4 * hidden.len(),
    decreases hidden.len(),
{
    if hidden.len() > 0 {
        lemma_bits_len(hidden.drop_last());
        number_reads_back(hidden.last() as nat, 4);
    }
}

/// A hidden state is read back from where it was written.
proof fn lemma_hidden_reads_back(before: Seq<u8>, hidden: Seq<u32>)
    requires
        hidden.len() <= u64::MAX,
    ensures
        hidden_at(before + hidden_bytes(hidden), before.len() as int) == Ok::<
            Seq<u32>,
            WireFault,
        >(hidden),
        word_at(before + hidden_bytes(hidden), before.len() as int) == hidden.len(),
        hidden_bytes(hidden).len() == 8 + 4 * hidden.len(),
{
    let at = before.len() as int;
    let count = le_bytes(hidden.len(), 8);
    let buf = before + hidden_bytes(hidden);
    number_reads_back(hidden.len(), 8);
    lemma_word_ranges();
    lemma_bits_len(hidden);
    assert(buf.subrange(at, at + 8) == count);
    let got = Seq::new(
        hidden.len(),
        |i: int| le_value(buf.subrange(at + 8 + 4 * i, at + 12 + 4 * i)) as u32,
    );
    assert forall|i: int| 0 <= i < hidden.len() implies got[i] == hidden[i] by {
        lemma_bits_read_back(before + count, hidden, Seq::empty(), i);
        assert((before + count) + bits_bytes(hidden) + Seq::<u8>::empty() == buf);
        assert((before + count).len() + 4 * i == at + 8 + 4 * i);
    }
    assert(got == hidden);
}

/// Decoding gives back the message that was encoded, bit for bit.
pub proof fn decoding_gives_back(message: MessageView)
    requires
        payload_of(message).len() <= u64::MAX,
    ensures
        message_of(payload_of(message)) == Ok::<MessageView, WireFault>(message),
        payload_of(message).len() <= usize::MAX ==> lengths_fit(payload_of(message)),
{
    let payload = payload_of(message);
    lemma_word_ranges();
    match message {
        MessageView::RunShard { position, hidden } => {
            lemma_bits_len(hidden);
            number_reads_back(position as nat, 8);
            number_reads_back(hidden.len(), 8);
            let before = seq![TAG_RUN_SHARD] + le_bytes(position as nat, 8);
            assert(payload.subrange(1, 9) == le_bytes(position as nat, 8));
            lemma_hidden_reads_back(before, hidden);
            assert(payload == before + hidden_bytes(hidden));
        },
        MessageView::ShardResult { hidden } => {
            lemma_bits_len(hidden);
            number_reads_back(hidden.len(), 8);
            lemma_hidden_reads_back(seq![TAG_SHARD_RESULT], hidden);
        },
        MessageView::Error(text) => {
            let bytes = encode_utf8(text);
            number_reads_back(bytes.len(), 8);
            assert(payload.subrange(1, 9) == le_bytes(bytes.len(), 8));
            assert(payload.subrange(9, payload.len() as int) == bytes);
            encode_utf8_valid_utf8(text);
            encode_utf8_decode_utf8(text);
        },
        _ => {},
    }
}

fn eof(message: &str) -> (r: WireError)
    ensures
        r@ == too_short(message@),
{
    WireError { kind: WireErrorKind::UnexpectedEof, message: message.to_string() }
}

/// Appends a hidden state.
pub fn floats_to_bytes(v: &[u32], out: &mut Vec<u8>)
    ensures
        final(out)@ == old(out)@ + hidden_bytes(v@),
{
    let ghost start = out@;
    let ghost count = le_bytes(v@.len(), 8);
    put_le(out, v.len() as u64, 8);
    let mut i: usize = 0;
    assert(v@.take(0) == Seq::<u32>::empty());
    assert(start + count + Seq::<u8>::empty() == out@);
    while i < v.len()
        invariant
            i <= v@.len(),
            out@ == start + count + bits_bytes(v@.take(i as int)),
        decreases v@.len() - i,
    {
        assert(v@.take(i + 1).drop_last() == v@.take(i as int));
        let ghost before = out@;
        let ghost word = le_bytes(v@[i as int] as nat, 4);
        let ghost init = bits_bytes(v@.take(i as int));
        put_le(out, v[i] as u64, 4);
        assert(start + count + init + word == start + count + (init + word));
        i += 1;
    }
    assert(v@.take(v@.len() as int) == v@);
    assert(start + count + bits_bytes(v@) == start + (count + bits_bytes(v@)));
}

/// Reads a 64-bit number and moves the cursor behind it. Where the buffer ends too early the
/// cursor stays.
pub fn read_u64(buf: &[u8], cursor: &mut usize) -> (r: Result<u64, WireError>)
    requires
        *old(cursor) + 8 <= usize::MAX,
    ensures
        match r {
            Ok(x) => {
                &&& *old(cursor) + 8 <= buf@.len()
                &&& x == word_at(buf@, *old(cursor) as int)
                &&& *final(cursor) == *old(cursor) + 8
            },
            Err(e) => {
                &&& *old(cursor) + 8 > buf@.len()
                &&& e@ == too_short("short u64"@)
                &&& *final(cursor) == *old(cursor)
            },
        },
{
    if *cursor + 8 > buf.len() {
        return Err(eof("short u64"));
    }
    let x = get_le(buf, *cursor, 8);
    *cursor = *cursor + 8;
    Ok(x)
}

/// Reads a hidden state and moves the cursor behind it. Where the values are not all there the
/// cursor stays behind their number.
pub fn floats_from_bytes(buf: &[u8], cursor: &mut usize) -> (r: Result<Vec<u32>, WireError>)
    requires
        *old(cursor) + 8 <= usize::MAX,
        *old(cursor) + 8 <= buf@.len() ==> *old(cursor) + 8 + 4 * word_at(
            buf@,
            *old(cursor) as int,
        ) <= usize::MAX,
    ensures
        match hidden_at(buf@, *old(cursor) as int) {
            Ok(hidden) => {
                &&& r matches Ok(v) && v@ == hidden
                &&& *final(cursor) == *old(cursor) + 8 + 4 * hidden.len()
            },
            Err(fault) => {
                &&& r matches Err(e) && e@ == fault
                &&& *final(cursor) == *old(cursor) + if *old(cursor) + 8 <= buf@.len() {
                    8int
                } else {
                    0int
                }
            },
        },
{
    let ghost start = *cursor;
    let count = match read_u64(buf, cursor) {
        Ok(x) => x,
        Err(e) => {
            return Err(e);
        },
    };
    let n = count as usize;
    let need = n * 4;
    if *cursor + need > buf.len() {
        return Err(eof("short float payload"));
    }
    let mut v: Vec<u32> = Vec::new();
    let ghost hidden = hidden_at(buf@, start as int)->Ok_0;
    let mut i: usize = 0;
    while i < n
        invariant
            i <= n,
            n == hidden.len(),
            hidden_at(buf@, start as int) == Ok::<Seq<u32>, WireFault>(hidden),
            start == *old(cursor),
            *cursor == start + 8 + 4 * i,
            start + 8 + 4 * n <= buf@.len(),
            v@ == hidden.take(i as int),
        decreases n - i,
    {
        let ghost at = *cursor as int;
        let word = get_le(buf, *cursor, 4);
        proof {
            number_is_in_range(buf@.subrange(at, at + 4));
            lemma_word_ranges();
        }
        assert(buf@.subrange(at, at + 4) == buf@.subrange(start + 8 + 4 * i, start + 12 + 4 * i));
        v.push(word as u32);
        assert(v@ == hidden.take(i + 1));
        let len = buf.len();
        assert(at + 4 <= len);
        *cursor = *cursor + 4;
        i += 1;
    }
    assert(hidden.take(n as int) == hidden);
    Ok(v)
}

/// Encodes a message into its payload.
pub fn encode(msg: &Message) -> (r: Vec<u8>)
    ensures
        r@ == payload_of(msg@),
{
    let mut out: Vec<u8> = Vec::new();
    match msg {
        Message::RunShard { position, hidden } => {
            out.push(TAG_RUN_SHARD);
            put_le(&mut out, *position, 8);
            assert(out@ == seq![TAG_RUN_SHARD] + le_bytes(*position as nat, 8));
            floats_to_bytes(hidden.as_slice(), &mut out);
        },
        Message::ShardResult { hidden } => {
            out.push(TAG_SHARD_RESULT);
            assert(out@ == seq![TAG_SHARD_RESULT]);
            floats_to_bytes(hidden.as_slice(), &mut out);
        },
        Message::Ping => {
            out.push(TAG_PING);
            assert(out@ == seq![TAG_PING]);
        },
        Message::Pong => {
            out.push(TAG_PONG);
            assert(out@ == seq![TAG_PONG]);
        },
        Message::Error(text) => {
            out.push(TAG_ERROR);
            let bytes = text.as_str().as_bytes();
            put_le(&mut out, bytes.len() as u64, 8);
            assert(out@ == seq![TAG_ERROR] + le_bytes(bytes@.len(), 8));
            out.extend_from_slice(bytes);
            assert(out@ == payload_of(msg@));
        },
    }
    out
}

/// Tests whether the lengths that a payload states can be computed with.
pub fn lengths_fit_in(payload: &[u8]) -> (r: bool)
    ensures
        r == lengths_fit(payload@),
{
    if payload.len() == 0 {
        return true;
    }
    let tag = payload[0];
    if tag == TAG_RUN_SHARD && payload.len() >= 17 {
        let n = get_le(payload, 9, 8);
        n <= ((usize::MAX - 17) / 4) as u64
    } else if tag == TAG_SHARD_RESULT && payload.len() >= 9 {
        let n = get_le(payload, 1, 8);
        n <= ((usize::MAX - 9) / 4) as u64
    } else if tag == TAG_ERROR && payload.len() >= 9 {
        let n = get_le(payload, 1, 8);
        n <= (usize::MAX - 9) as u64
    } else {
        true
    }
}

/// Decodes a message from its payload.
pub fn decode(payload: &[u8]) -> (r: Result<Message, WireError>)
    requires
        lengths_fit(payload@),
    ensures
        match message_of(payload@) {
            Ok(message) => r matches Ok(m) && m@ == message,
            Err(fault) => r matches Err(e) && e@ == fault,
        },
{
    if payload.len() == 0 {
        return Err(
            WireError { kind: WireErrorKind::InvalidData, message: "empty frame".to_string() },
        );
    }
    let tag = payload[0];
    let mut cursor: usize = 1;
    if tag == TAG_RUN_SHARD {
        let position = match read_u64(payload, &mut cursor) {
            Ok(x) => x,
            Err(e) => {
                return Err(e);
            },
        };
        match floats_from_bytes(payload, &mut cursor) {
            Ok(hidden) => Ok(Message::RunShard { position, hidden }),
            Err(e) => Err(e),
        }
    } else if tag == TAG_SHARD_RESULT {
        match floats_from_bytes(payload, &mut cursor) {
            Ok(hidden) => Ok(Message::ShardResult { hidden }),
            Err(e) => Err(e),
        }
    } else if tag == TAG_PING {
        Ok(Message::Ping)
    } else if tag == TAG_PONG {
        Ok(Message::Pong)
    } else if tag == TAG_ERROR {
        let count = match read_u64(payload, &mut cursor) {
            Ok(x) => x,
            Err(e) => {
                return Err(e);
            },
        };
        let end = cursor + count as usize;
        let end = if end <= payload.len() {
            end
        } else {
            payload.len()
        };
        Ok(Message::Error(text_of_bytes(slice_subrange(payload, cursor, end))))
    } else {
        let mut message = "unknown message tag ".to_string();
        let number = decimal_text(tag as u64);
        message.append(number.as_str());
        Err(WireError { kind: WireErrorKind::InvalidData, message })
    }
}

/// Appends a message's frame to `w`.
pub fn write_message(w: &mut Vec<u8>, msg: &Message) -> (r: Result<(), WireError>)
    ensures
        r is Ok,
        final(w)@ == old(w)@ + frame_of(msg@),
{
    let ghost start = w@;
    let payload = encode(msg);
    put_le(w, payload.len() as u64, 4);
    w.extend_from_slice(payload.as_slice());
    assert(w@ == start + frame_of(msg@));
    Ok(())
}

/// The length of the payload that a frame starting with `header` has.
pub fn payload_len(header: &[u8]) -> (r: usize)
    requires
        header@.len() == 4,
    ensures
        r == le_value(header@),
{
    proof {
        number_is_in_range(header@);
        lemma_word_ranges();
    }
    assert(header@.subrange(0, 4) == header@);
    get_le(header, 0, 4) as usize
}

/// What reading a frame off `bytes` gives: the message or the fault, and what is left. A frame
/// that ends too early is taken off to its end.
pub open spec fn read_off(bytes: Seq<u8>) -> (Result<MessageView, WireFault>, Seq<u8>) {
    let len = le_value(bytes.take(4)) as int;
    if bytes.len() < 4 || bytes.len() < 4 + len {
        (Err(too_short("failed to fill whole buffer"@)), seq![])
    } else {
        (message_of(bytes.subrange(4, 4 + len)), bytes.skip(4 + len))
    }
}

/// Whether reading a frame off `bytes` meets only lengths that can be computed with.
pub open spec fn frame_fits(bytes: Seq<u8>) -> bool {
    let len = le_value(bytes.take(4)) as int;
    bytes.len() >= 4 && bytes.len() >= 4 + len ==> lengths_fit(bytes.subrange(4, 4 + len))
}

/// Reads a frame off the front of `r`.
pub fn read_message(r: &mut &[u8]) -> (out: Result<Message, WireError>)
    requires
        frame_fits(old(r)@),
    ensures
        final(r)@ == read_off(old(r)@).1,
        match read_off(old(r)@).0 {
            Ok(message) => out matches Ok(m) && m@ == message,
            Err(fault) => out matches Err(e) && e@ == fault,
        },
{
    let bytes: &[u8] = *r;
    let n = bytes.len();
    if n < 4 {
        *r = slice_subrange(bytes, n, n);
        assert(r@ == Seq::<u8>::empty());
        return Err(eof("failed to fill whole buffer"));
    }
    assert(bytes@.subrange(0, 4) == bytes@.take(4));
    let len = payload_len(slice_subrange(bytes, 0, 4));
    if n - 4 < len {
        *r = slice_subrange(bytes, n, n);
        assert(r@ == Seq::<u8>::empty());
        return Err(eof("failed to fill whole buffer"));
    }
    *r = slice_subrange(bytes, 4 + len, n);
    assert(bytes@.subrange(4 + len, n as int) == bytes@.skip(4 + len));
    decode(slice_subrange(bytes, 4, 4 + len))
}

/// Reading gives back the message that was written, and what follows it, where the payload's
/// length fits in the frame's four bytes.
pub proof fn reading_gives_back(message: MessageView, rest: Seq<u8>)
    requires
        payload_of(message).len() <= u32::MAX,
    ensures
        read_off(frame_of(message) + rest) == (Ok::<MessageView, WireFault>(message), rest),
        frame_fits(frame_of(message) + rest),
{
    let payload = payload_of(message);
    let header = le_bytes(payload.len(), 4);
    let bytes = frame_of(message) + rest;
    number_reads_back(payload.len(), 4);
    lemma_word_ranges();
    decoding_gives_back(message);
    assert(bytes.take(4) == header);
    assert(bytes.subrange(4, 4 + payload.len() as int) == payload);
    assert(bytes.skip(4 + payload.len() as int) == rest);
}

} // verus!
