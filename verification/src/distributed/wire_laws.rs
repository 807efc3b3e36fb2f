//! The bytes of the wire, one by one.

use crate::distributed::bytes::{
    le_bytes, le_value, lemma_word_ranges, number_is_in_range, number_reads_back,
};
use crate::distributed::protocol::{
    bits_bytes, frame_fits, frame_of, hidden_at, lengths_fit, message_of, payload_of, read_off,
    word_at, MessageView, WireErrorKind, WireFault,
};
use crate::text::{decimal, lossy_utf8};
use vstd::prelude::*;
use vstd::utf8::encode_utf8;

verus! {

/// Numbers are written with their lowest byte first.
pub proof fn numbers_are_written_lowest_first(x: nat)
    ensures
        le_bytes(x, 4) == seq![
            (x % 256) as u8,
            (x / 0x100 % 256) as u8,
            (x / 0x1_0000 % 256) as u8,
            (x / 0x100_0000 % 256) as u8,
        ],
        le_bytes(x, 8) == seq![
            (x % 256) as u8,
            (x / 0x100 % 256) as u8,
            (x / 0x1_0000 % 256) as u8,
            (x / 0x100_0000 % 256) as u8,
            (x / 0x1_0000_0000 % 256) as u8,
            (x / 0x100_0000_0000 % 256) as u8,
            (x / 0x1_0000_0000_0000 % 256) as u8,
            (x / 0x100_0000_0000_0000 % 256) as u8,
        ],
{
    reveal_with_fuel(le_bytes, 9);
    let four = le_bytes(x, 4);
    let eight = le_bytes(x, 8);
    assert(four.len() == 4);
    assert(eight.len() == 8);
    assert(x / 256 / 256 == x / 0x1_0000);
    assert(x / 256 / 256 / 256 == x / 0x100_0000);
    assert(x / 256 / 256 / 256 / 256 == x / 0x1_0000_0000);
    assert(x / 256 / 256 / 256 / 256 / 256 == x / 0x100_0000_0000);
    assert(x / 256 / 256 / 256 / 256 / 256 / 256 == x / 0x1_0000_0000_0000);
    assert(x / 256 / 256 / 256 / 256 / 256 / 256 / 256 == x / 0x100_0000_0000_0000);
}

/// Numbers are read with their lowest byte first.
pub proof fn numbers_are_read_lowest_first(b: Seq<u8>)
    ensures
        b.len() == 4 ==> le_value(b) == b[0] + 0x100 * b[1] + 0x1_0000 * b[2] + 0x100_0000 * b[3],
        b.len() == 8 ==> le_value(b) == b[0] + 0x100 * b[1] + 0x1_0000 * b[2] + 0x100_0000 * b[3]
            + 0x1_0000_0000 * b[4] + 0x100_0000_0000 * b[5] + 0x1_0000_0000_0000 * b[6]
            + 0x100_0000_0000_0000 * b[7],
{
    reveal_with_fuel(le_value, 9);
    if b.len() == 4 || b.len() == 8 {
        assert(b.skip(1).skip(1) == b.skip(2));
        assert(b.skip(2).skip(1) == b.skip(3));
        assert(b.skip(3).skip(1) == b.skip(4));
        if b.len() == 8 {
            assert(b.skip(4).skip(1) == b.skip(5));
            assert(b.skip(5).skip(1) == b.skip(6));
            assert(b.skip(6).skip(1) == b.skip(7));
            assert(b.skip(7).skip(1) == b.skip(8));
        }
    }
}

/// The values of a hidden state are written one after the other, in four bytes each.
pub proof fn values_are_written_in_order(hidden: Seq<u32>)
    ensures
        bits_bytes(hidden).len() == 4 * hidden.len(),
        forall|i: int|
            #![trigger hidden[i]]
            0 <= i < hidden.len() ==> bits_bytes(hidden).subrange(4 * i, 4 * i + 4) == le_bytes(
                hidden[i] as nat,
                4,
            ),
    decreases hidden.len(),
{
    if hidden.len() > 0 {
        let init = hidden.drop_last();
        let before = bits_bytes(init);
        let word = le_bytes(hidden.last() as nat, 4);
        values_are_written_in_order(init);
        number_reads_back(hidden.last() as nat, 4);
        assert forall|i: int|
            #![trigger hidden[i]]
            0 <= i < hidden.len() implies bits_bytes(hidden).subrange(4 * i, 4 * i + 4) == le_bytes(
            hidden[i] as nat,
            4,
        ) by {
            if i < init.len() {
                assert(init[i] == hidden[i]);
                assert((before + word).subrange(4 * i, 4 * i + 4) == before.subrange(
                    4 * i,
                    4 * i + 4,
                ));
            } else {
                assert((before + word).subrange(4 * i, 4 * i + 4) == word);
            }
        }
    }
}

/// What the payload of each message is: its number, then its fields. A position and a length take
/// eight bytes each.
pub proof fn payloads_are_numbered(position: u64, hidden: Seq<u32>, text: Seq<char>)
    ensures
        payload_of(MessageView::RunShard { position, hidden }) == seq![1u8] + le_bytes(
            position as nat,
            8,
        ) + le_bytes(hidden.len(), 8) + bits_bytes(hidden),
        payload_of(MessageView::ShardResult { hidden }) == seq![2u8] + le_bytes(hidden.len(), 8)
            + bits_bytes(hidden),
        payload_of(MessageView::Ping) == seq![3u8],
        payload_of(MessageView::Pong) == seq![4u8],
        payload_of(MessageView::Error(text)) == seq![5u8] + le_bytes(encode_utf8(text).len(), 8)
            + encode_utf8(text),
{
}

/// What payloads without further fields mean, and which are no messages.
pub proof fn plain_payloads_are_read(payload: Seq<u8>)
    ensures
        payload.len() == 0 ==> message_of(payload) == Err::<MessageView, WireFault>(
            WireFault { kind: WireErrorKind::InvalidData, message: "empty frame"@ },
        ),
        payload.len() > 0 && payload[0] == 3 ==> message_of(payload) == Ok::<
            MessageView,
            WireFault,
        >(MessageView::Ping),
        payload.len() > 0 && payload[0] == 4 ==> message_of(payload) == Ok::<
            MessageView,
            WireFault,
        >(MessageView::Pong),
        payload.len() > 0 && (payload[0] == 0 || payload[0] > 5) ==> message_of(payload) == Err::<
            MessageView,
            WireFault,
        >(
            WireFault {
                kind: WireErrorKind::InvalidData,
                message: "unknown message tag "@ + decimal(payload[0] as nat),
            },
        ),
{
}

/// How the values of a hidden state are read, wherever they stand: their number in eight bytes, and
/// then as many of them in four bytes each.
pub proof fn values_are_read_in_order(buf: Seq<u8>, at: int)
    requires
        0 <= at,
    ensures
        word_at(buf, at) == le_value(buf.subrange(at, at + 8)),
        ({
            let n = le_value(buf.subrange(at, at + 8));
            let whole = at + 8 <= buf.len() && at + 8 + 4 * n <= buf.len();
            &&& at + 8 > buf.len() ==> hidden_at(buf, at) == Err::<Seq<u32>, WireFault>(
                WireFault { kind: WireErrorKind::UnexpectedEof, message: "short u64"@ },
            )
            &&& at + 8 <= buf.len() && !whole ==> hidden_at(buf, at) == Err::<Seq<u32>, WireFault>(
                WireFault { kind: WireErrorKind::UnexpectedEof, message: "short float payload"@ },
            )
            &&& whole ==> {
                &&& hidden_at(buf, at) matches Ok(hidden)
                &&& hidden.len() == n
                &&& forall|i: int|
                    0 <= i < n ==> #[trigger] hidden[i] == le_value(
                        buf.subrange(at + 8 + 4 * i, at + 12 + 4 * i),
                    )
            }
        }),
{
    lemma_word_ranges();
    let n = le_value(buf.subrange(at, at + 8));
    if at + 8 <= buf.len() && at + 8 + 4 * n <= buf.len() {
        let hidden = hidden_at(buf, at)->Ok_0;
        assert forall|i: int| 0 <= i < n implies #[trigger] hidden[i] == le_value(
            buf.subrange(at + 8 + 4 * i, at + 12 + 4 * i),
        ) by {
            number_is_in_range(buf.subrange(at + 8 + 4 * i, at + 12 + 4 * i));
        }
    }
}

/// How a request to run is read: the position in eight bytes, the number of values in eight, and
/// as many values in four bytes each. One that ends too early is a fault that says what is missing.
pub proof fn run_requests_are_read(payload: Seq<u8>)
    requires
        payload.len() > 0,
        payload[0] == 1,
    ensures
        ({
            let n = le_value(payload.subrange(9, 17));
            let whole = payload.len() >= 17 && payload.len() >= 17 + 4 * n;
            &&& payload.len() < 17 ==> message_of(payload) == Err::<MessageView, WireFault>(
                WireFault { kind: WireErrorKind::UnexpectedEof, message: "short u64"@ },
            )
            &&& payload.len() >= 17 && !whole ==> message_of(payload) == Err::<
                MessageView,
                WireFault,
            >(WireFault { kind: WireErrorKind::UnexpectedEof, message: "short float payload"@ })
            &&& whole ==> {
                &&& message_of(payload) matches Ok(MessageView::RunShard { position, hidden })
                &&& position == le_value(payload.subrange(1, 9))
                &&& hidden.len() == n
                &&& forall|i: int|
                    0 <= i < n ==> #[trigger] hidden[i] == le_value(
                        payload.subrange(17 + 4 * i, 21 + 4 * i),
                    )
            }
        }),
{
    lemma_word_ranges();
    if payload.len() >= 17 {
        number_is_in_range(payload.subrange(1, 9));
        let n = le_value(payload.subrange(9, 17));
        if payload.len() >= 17 + 4 * n {
            let hidden = message_of(payload)->Ok_0->RunShard_hidden;
            assert forall|i: int| 0 <= i < n implies #[trigger] hidden[i] == le_value(
                payload.subrange(17 + 4 * i, 21 + 4 * i),
            ) by {
                assert(payload.subrange(9 + 8 + 4 * i, 9 + 12 + 4 * i) == payload.subrange(
                    17 + 4 * i,
                    21 + 4 * i,
                ));
                number_is_in_range(payload.subrange(17 + 4 * i, 21 + 4 * i));
            }
        }
    }
}

/// How a hidden state that comes back is read: the number of values in eight bytes, and as many
/// values in four bytes each.
pub proof fn shard_results_are_read(payload: Seq<u8>)
    requires
        payload.len() > 0,
        payload[0] == 2,
    ensures
        ({
            let n = le_value(payload.subrange(1, 9));
            let whole = payload.len() >= 9 && payload.len() >= 9 + 4 * n;
            &&& payload.len() < 9 ==> message_of(payload) == Err::<MessageView, WireFault>(
                WireFault { kind: WireErrorKind::UnexpectedEof, message: "short u64"@ },
            )
            &&& payload.len() >= 9 && !whole ==> message_of(payload) == Err::<
                MessageView,
                WireFault,
            >(WireFault { kind: WireErrorKind::UnexpectedEof, message: "short float payload"@ })
            &&& whole ==> {
                &&& message_of(payload) matches Ok(MessageView::ShardResult { hidden })
                &&& hidden.len() == n
                &&& forall|i: int|
                    0 <= i < n ==> #[trigger] hidden[i] == le_value(
                        payload.subrange(9 + 4 * i, 13 + 4 * i),
                    )
            }
        }),
{
    lemma_word_ranges();
    if payload.len() >= 9 {
        let n = le_value(payload.subrange(1, 9));
        if payload.len() >= 9 + 4 * n {
            let hidden = message_of(payload)->Ok_0->ShardResult_hidden;
            assert forall|i: int| 0 <= i < n implies #[trigger] hidden[i] == le_value(
                payload.subrange(9 + 4 * i, 13 + 4 * i),
            ) by {
                assert(payload.subrange(1 + 8 + 4 * i, 1 + 12 + 4 * i) == payload.subrange(
                    9 + 4 * i,
                    13 + 4 * i,
                ));
                number_is_in_range(payload.subrange(9 + 4 * i, 13 + 4 * i));
            }
        }
    }
}

/// How a report of what went wrong is read: the length of its text in eight bytes, and the text.
/// A text that ends too early is taken as far as it goes.
pub proof fn reports_are_read(payload: Seq<u8>)
    requires
        payload.len() > 0,
        payload[0] == 5,
    ensures
        payload.len() < 9 ==> message_of(payload) == Err::<MessageView, WireFault>(
            WireFault { kind: WireErrorKind::UnexpectedEof, message: "short u64"@ },
        ),
        payload.len() >= 9 ==> {
            let n = le_value(payload.subrange(1, 9));
            let text = payload.skip(9);
            message_of(payload) == Ok::<MessageView, WireFault>(
                MessageView::Error(
                    lossy_utf8(
                        if n <= text.len() {
                            text.take(n as int)
                        } else {
                            text
                        },
                    ),
                ),
            )
        },
{
    if payload.len() >= 9 {
        let n = le_value(payload.subrange(1, 9));
        let text = payload.skip(9);
        if n <= text.len() {
            assert(payload.subrange(9, 9 + n as int) == text.take(n as int));
        } else {
            assert(payload.subrange(9, payload.len() as int) == text);
        }
    }
}

/// A frame is the length of a payload in four bytes, and the payload.
pub proof fn frames_start_with_lengths(message: MessageView)
    ensures
        frame_of(message).len() == 4 + payload_of(message).len(),
        frame_of(message).take(4) == le_bytes(payload_of(message).len(), 4),
        frame_of(message).skip(4) == payload_of(message),
{
    number_reads_back(payload_of(message).len(), 4);
}

/// Reading a frame off some bytes takes its four bytes of length and as many bytes as these say;
/// what follows is left. Where that many are not there nothing is left, and that is the fault.
pub proof fn frames_are_read_off(bytes: Seq<u8>)
    ensures
        ({
            let n = le_value(bytes.take(4)) as int;
            let whole = bytes.len() >= 4 && bytes.len() >= 4 + n;
            &&& whole ==> read_off(bytes) == (message_of(bytes.skip(4).take(n)), bytes.skip(4 + n))
            &&& !whole ==> read_off(bytes).1.len() == 0 && read_off(bytes).0 == Err::<
                MessageView,
                WireFault,
            >(
                WireFault {
                    kind: WireErrorKind::UnexpectedEof,
                    message: "failed to fill whole buffer"@,
                },
            )
            &&& whole ==> (frame_fits(bytes) <==> lengths_fit(bytes.skip(4).take(n)))
            &&& !whole ==> frame_fits(bytes)
        }),
{
    let n = le_value(bytes.take(4)) as int;
    if bytes.len() >= 4 && bytes.len() >= 4 + n {
        assert(bytes.skip(4).take(n) == bytes.subrange(4, 4 + n));
    }
}

/// A payload's lengths can be computed with unless one of them reaches beyond what can be counted:
/// whatever payload is short enough to be there whole can be read.
pub proof fn whole_payloads_can_be_read(payload: Seq<u8>)
    requires
        payload.len() <= usize::MAX,
    ensures
        message_of(payload) is Ok && !(message_of(payload)->Ok_0 is Error) ==> lengths_fit(payload),
        payload.len() < 9 ==> lengths_fit(payload),
{
}

} // verus!
