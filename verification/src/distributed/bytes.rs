//! Little-endian numbers.

use vstd::prelude::*;

verus! {

/// The lowest `width` bytes of `x`, the lowest first.
pub open spec fn le_bytes(x: nat, width: nat) -> Seq<u8>
    decreases width,
{
    if width == 0 {
        seq![]
    } else {
        seq![(x % 256) as u8] + le_bytes(x / 256, (width - 1) as nat)
    }
}

/// The number that bytes spell, the lowest first.
pub open spec fn le_value(bytes: Seq<u8>) -> nat
    decreases bytes.len(),
{
    if bytes.len() == 0 {
        0
    } else {
        bytes[0] as nat + 256 * le_value(bytes.skip(1))
    }
}

/// How many numbers fit in `width` bytes.
pub open spec fn le_range(width: nat) -> nat
    decreases width,
{
    if width == 0 {
        1
    } else {
        256 * le_range((width - 1) as nat)
    }
}

/// As many bytes as asked for spell a number, and it is read back where it fits.
pub proof fn number_reads_back(x: nat, width: nat)
    ensures
        le_bytes(x, width).len() == width,
        x < le_range(width) ==> le_value(le_bytes(x, width)) == x,
    decreases width,
{
    if width > 0 {
        number_reads_back(x / 256, (width - 1) as nat);
        let rest = le_bytes(x / 256, (width - 1) as nat);
        assert((seq![(x % 256) as u8] + rest).skip(1) == rest);
    }
}

/// Bytes spell a number below their range.
pub proof fn number_is_in_range(bytes: Seq<u8>)
    ensures
        le_value(bytes) < le_range(bytes.len()),
    decreases bytes.len(),
{
    if bytes.len() > 0 {
        number_is_in_range(bytes.skip(1));
    }
}

proof fn lemma_ranges(width: nat)
    requires
        width <= 8,
    ensures
        le_range(width) <= 0x1_0000_0000_0000_0000,
        width <= 7 ==> le_range(width) <= 0x100_0000_0000_0000,
        le_range(4) == 0x1_0000_0000,
        le_range(8) == 0x1_0000_0000_0000_0000,
{
    reveal_with_fuel(le_range, 9);
}

/// The ranges of four and of eight bytes.
pub proof fn lemma_word_ranges()
    ensures
        le_range(4) == 0x1_0000_0000,
        le_range(8) == 0x1_0000_0000_0000_0000,
{
    lemma_ranges(8);
}

/// Appends the lowest `width` bytes of `x`.
pub fn put_le(out: &mut Vec<u8>, x: u64, width: usize)
    ensures
        final(out)@ == old(out)@ + le_bytes(x as nat, width as nat),
{
    let ghost start = out@;
    let mut rest: u64 = x;
    let mut left: usize = width;
    while left > 0
        invariant
            start == old(out)@,
            start + le_bytes(x as nat, width as nat) == out@ + le_bytes(rest as nat, left as nat),
        decreases left,
    {
        let ghost before = out@;
        let ghost tail = le_bytes((rest / 256) as nat, (left - 1) as nat);
        let b = (rest % 256) as u8;
        out.push(b);
        assert(before + (seq![b] + tail) == out@ + tail);
        rest = rest / 256;
        left = left - 1;
    }
    assert(out@ + Seq::<u8>::empty() == out@);
}

/// Reads the number that `width` bytes spell.
pub fn get_le(buf: &[u8], at: usize, width: usize) -> (r: u64)
    requires
        width <= 8,
        at + width <= buf@.len(),
    ensures
        r == le_value(buf@.subrange(at as int, at + width)),
{
    let len = buf.len();
    let mut value: u64 = 0;
    let mut i: usize = width;
    while i > 0
        invariant
            len == buf@.len(),
            i <= width <= 8,
            at + width <= buf@.len(),
            value == le_value(buf@.subrange(at + i, at + width)),
        decreases i,
    {
        let ghost tail = buf@.subrange(at + i, at + width);
        let ghost all = buf@.subrange(at + i - 1, at + width);
        proof {
            number_is_in_range(tail);
            lemma_ranges(tail.len());
            assert(all.skip(1) == tail);
            assert(at + i <= len);
        }
        i = i - 1;
        value = value * 256 + buf[at + i] as u64;
    }
    value
}

} // verus!
