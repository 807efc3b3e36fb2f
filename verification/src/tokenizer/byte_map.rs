//! The reversible mapping between bytes and printable characters.
//!
//! Bytes that print map to the character with the same code; the rest map to the code points
//! from 256 on, in order, so that all 256 bytes become distinct printable characters (a space
//! becomes U+0120).

use std::collections::HashMap;
use vstd::prelude::*;

verus! {

/// Whether byte `b` stands for itself.
pub open spec fn is_printable(b: u8) -> bool {
    0x21 <= b <= 0x7e || 0xa1 <= b <= 0xac || 0xae <= b
}

/// The number of bytes below `b` that do not stand for themselves.
pub open spec fn remapped_below(b: nat) -> nat
    decreases b,
{
    if b == 0 {
        0
    } else {
        remapped_below((b - 1) as nat) + if is_printable((b - 1) as u8) {
            0nat
        } else {
            1nat
        }
    }
}

/// The character that stands for byte `b`.
pub open spec fn byte_char(b: u8) -> char {
    if is_printable(b) {
        b as char
    } else {
        (256 + remapped_below(b as nat)) as char
    }
}

/// The characters that stand for `bytes`.
pub open spec fn byte_chars(bytes: Seq<u8>) -> Seq<char> {
    Seq::new(bytes.len(), |i: int| byte_char(bytes[i]))
}

/// The characters that stand for some byte.
pub open spec fn is_byte_char(c: char) -> bool {
    exists|b: u8| #[trigger] byte_char(b) == c
}

/// The byte that `c` stands for.
pub open spec fn char_byte(c: char) -> u8 {
    choose|b: u8| #[trigger] byte_char(b) == c
}

/// `remapped_below` in closed form.
proof fn lemma_remapped_below(b: nat)
    requires
        b <= 256,
    ensures
        b <= 0x21 ==> remapped_below(b) == b,
        0x21 <= b <= 0x7f ==> remapped_below(b) == 33,
        0x7f <= b <= 0xa1 ==> remapped_below(b) == b - 94,
        0xa1 <= b <= 0xad ==> remapped_below(b) == 67,
        0xae <= b ==> remapped_below(b) == 68,
    decreases b,
{
    if b > 0 {
        lemma_remapped_below((b - 1) as nat);
    }
}

/// Distinct bytes are stood for by distinct characters.
pub proof fn byte_char_is_injective(a: u8, b: u8)
    ensures
        byte_char(a) == byte_char(b) ==> a == b,
{
    lemma_remapped_below(a as nat);
    lemma_remapped_below(b as nat);
}

/// Which character stands for which byte: a byte that prints stands for itself; the others are
/// moved, in order, to the places from 256 on.
pub proof fn bytes_have_these_characters(b: u8)
    ensures
        0x21 <= b <= 0x7e || 0xa1 <= b <= 0xac || 0xae <= b ==> byte_char(b) as u32 == b,
        b <= 0x20 ==> byte_char(b) as u32 == 256 + b,
        0x7f <= b <= 0xa0 ==> byte_char(b) as u32 == 256 + 33 + (b - 0x7f),
        b == 0xad ==> byte_char(b) as u32 == 256 + 67,
{
    lemma_remapped_below(b as nat);
}

/// The characters that stand for bytes are no spaces and no control characters.
pub proof fn byte_chars_are_visible(b: u8)
    ensures
        ({
            let c = byte_char(b) as u32;
            ||| 0x21 <= c <= 0x7e
            ||| 0xa1 <= c <= 0xac
            ||| 0xae <= c < 0x144
        }),
{
    lemma_remapped_below(b as nat);
}

/// The byte that stands behind a byte's character is that byte.
pub proof fn char_byte_inverts_byte_char(b: u8)
    ensures
        is_byte_char(byte_char(b)),
        char_byte(byte_char(b)) == b,
{
    byte_char_is_injective(char_byte(byte_char(b)), b);
}

/// What a table from code points to bytes must hold to invert [`byte_char`].
pub open spec fn inverts_byte_char(table: Map<u32, u8>) -> bool {
    &&& forall|b: u8| table.contains_key(#[trigger] byte_char(b) as u32) && table[byte_char(b) as u32] == b
    &&& forall|k: u32| #[trigger]
        table.contains_key(k) ==> exists|b: u8| #[trigger] byte_char(b) as u32 == k
}

/// Looks a character up in a table that inverts [`byte_char`].
pub proof fn lookup_is_char_byte(table: Map<u32, u8>, c: char)
    requires
        inverts_byte_char(table),
    ensures
        table.contains_key(c as u32) == is_byte_char(c),
        is_byte_char(c) ==> table[c as u32] == char_byte(c),
{
    if is_byte_char(c) {
        let b = char_byte(c);
        assert(byte_char(b) == c);
    }
    if table.contains_key(c as u32) {
        let b = choose|b: u8| #[trigger] byte_char(b) as u32 == c as u32;
        assert(byte_char(b) == c);
    }
}

/// Builds the mapping: the character of each byte, and the byte of each such character's code
/// point.
pub fn byte_to_unicode() -> (r: ([char; 256], HashMap<u32, u8>))
    ensures
        forall|b: u8| #[trigger] r.0@[b as int] == byte_char(b),
        inverts_byte_char(r.1@),
{
    let mut encoder = ['\0'; 256];
    let mut decoder: HashMap<u32, u8> = HashMap::new();
    let mut n: u32 = 0;
    let mut i: usize = 0;
    while i < 256
        invariant
            i <= 256,
            n == remapped_below(i as nat),
            n <= i,
            forall|b: u8| b < i ==> #[trigger] encoder@[b as int] == byte_char(b),
            forall|b: u8|
                b < i ==> decoder@.contains_key(#[trigger] byte_char(b) as u32)
                    && decoder@[byte_char(b) as u32] == b,
            forall|k: u32| #[trigger]
                decoder@.contains_key(k) ==> exists|b: u8|
                    b < i && #[trigger] byte_char(b) as u32 == k,
        decreases 256 - i,
    {
        let b = i as u8;
        let ch = if (b >= 0x21 && b <= 0x7e) || (b >= 0xa1 && b <= 0xac) || b >= 0xae {
            b as char
        } else {
            proof {
                lemma_remapped_below(i as nat);
            }
            let code: u16 = 256 + n as u16;
            n += 1;
            code_point(code)
        };
        assert(ch == byte_char(b));
        let ghost before = decoder@;
        encoder[i] = ch;
        decoder.insert(ch as u32, b);
        proof {
            assert forall|c: u8| c < i + 1 implies decoder@.contains_key(
                #[trigger] byte_char(c) as u32,
            ) && decoder@[byte_char(c) as u32] == c by {
                byte_char_is_injective(c, b);
            }
            assert forall|k: u32| #[trigger] decoder@.contains_key(k) implies exists|c: u8|
                c < i + 1 && #[trigger] byte_char(c) as u32 == k by {
                if k == ch as u32 {
                    assert(byte_char(b) as u32 == k);
                } else {
                    assert(before.contains_key(k));
                }
            }
        }
        i += 1;
    }
    (encoder, decoder)
}

/// The character with code point `code`.
fn code_point(code: u16) -> (r: char)
    requires
        code < 0xd800,
    ensures
        r == code as char,
{
    match char::from_u32(code as u32) {
        Some(c) => {
            proof {
                vstd::utf8::char_u32_cast(c, code as u32);
            }
            c
        },
        None => '\0',
    }
}

/// `char::from_u32` gives the character with a code point, for every Unicode scalar value.
pub assume_specification[ char::from_u32 ](i: u32) -> (r: Option<char>)
    ensures
        r is Some <==> (i < 0xd800 || 0xe000 <= i <= 0x10ffff),
        r matches Some(c) ==> c as u32 == i,
;

} // verus!
