//! Readers of the small grammars around a vocabulary: text chunks, merge rules and byte pieces.

use crate::text::{chars_of, is_white, is_white_space, string_of};
use crate::tokenizer::bpe::{joined, joined_of_one, joined_of_sum, text_pairs, texts};
use vstd::prelude::*;

verus! {

/// `text` cut before every space, so that a space attaches to what follows it.
pub open spec fn chunks(text: Seq<char>) -> Seq<Seq<char>>
    decreases text.len(),
{
    if text.len() == 0 {
        seq![]
    } else {
        let before = chunks(text.drop_last());
        let c = text.last();
        if c == ' ' || before.len() == 0 {
            before.push(seq![c])
        } else {
            before.drop_last().push(before.last().push(c))
        }
    }
}

/// Cutting into chunks keeps the text; no chunk is empty, every chunk but the first starts with
/// a space, and no chunk has a space further in.
pub proof fn chunking_keeps_text(text: Seq<char>)
    ensures
        joined(chunks(text)) == text,
        forall|i: int| 0 <= i < chunks(text).len() ==> (#[trigger] chunks(text)[i]).len() > 0,
        forall|i: int| 1 <= i < chunks(text).len() ==> (#[trigger] chunks(text)[i])[0] == ' ',
        forall|i: int, j: int|
            0 <= i < chunks(text).len() && 1 <= j < chunks(text)[i].len()
                ==> #[trigger] chunks(text)[i][j] != ' ',
    decreases text.len(),
{
    if text.len() > 0 {
        let before = chunks(text.drop_last());
        let c = text.last();
        chunking_keeps_text(text.drop_last());
        if c == ' ' || before.len() == 0 {
            joined_of_sum(before, seq![seq![c]]);
            assert(before + seq![seq![c]] == before.push(seq![c]));
            joined_of_one(seq![c]);
            assert(text.drop_last() + seq![c] == text);
        } else {
            let head = before.drop_last();
            let tail = before.last();
            joined_of_sum(head, seq![tail]);
            joined_of_sum(head, seq![tail.push(c)]);
            assert(head + seq![tail] == before);
            assert(head + seq![tail.push(c)] == head.push(tail.push(c)));
            joined_of_one(tail);
            joined_of_one(tail.push(c));
            assert(joined(head) + tail == text.drop_last());
            assert(joined(head) + tail.push(c) == (joined(head) + tail).push(c));
            assert(text.drop_last().push(c) == text);
        }
    }
}

/// Cuts `text` before every space.
pub fn pretokenize(text: &str) -> (r: Vec<String>)
    ensures
        texts(r@) == chunks(text@),
{
    let chars = chars_of(text);
    let mut done: Vec<String> = Vec::new();
    let mut cur = String::new();
    let mut i: usize = 0;
    assert(text@.take(0) == Seq::<char>::empty());
    while i < chars.len()
        invariant
            i <= chars@.len(),
            chars@ == text@,
            i == 0 ==> cur@.len() == 0 && done@.len() == 0,
            i > 0 ==> cur@.len() > 0,
            chunks(text@.take(i as int)) == (if i == 0 {
                seq![]
            } else {
                texts(done@).push(cur@)
            }),
        decreases chars@.len() - i,
    {
        let ch = chars[i];
        let ghost before = texts(done@).push(cur@);
        assert(text@.take(i + 1).drop_last() == text@.take(i as int));
        assert(text@.take(i + 1).last() == ch);
        if ch == ' ' && i > 0 {
            done.push(cur);
            assert(texts(done@) == before);
            cur = String::new();
            cur.push(ch);
            assert(cur@ == seq![ch]);
        } else {
            cur.push(ch);
            if i == 0 {
                assert(cur@ == seq![ch]);
                assert(texts(done@).push(cur@) == Seq::<Seq<char>>::empty().push(seq![ch]));
            } else {
                assert(before.drop_last() == texts(done@));
            }
        }
        i += 1;
    }
    assert(text@.take(text@.len() as int) == text@);
    if i > 0 {
        let ghost all = texts(done@).push(cur@);
        done.push(cur);
        assert(texts(done@) == all);
    } else {
        assert(texts(done@) == Seq::<Seq<char>>::empty());
    }
    done
}

/// The number of characters at the start of `s` for which white space is `white`.
pub open spec fn run_len(s: Seq<char>, white: bool) -> nat
    decreases s.len(),
{
    if s.len() == 0 || is_white(s[0]) != white {
        0
    } else {
        1 + run_len(s.skip(1), white)
    }
}

/// The first two words of `s`, where it has two.
pub open spec fn first_two_words(s: Seq<char>) -> Option<(Seq<char>, Seq<char>)> {
    let a = s.skip(run_len(s, true) as int);
    let first = a.take(run_len(a, false) as int);
    let rest = a.skip(run_len(a, false) as int);
    let b = rest.skip(run_len(rest, true) as int);
    let second = b.take(run_len(b, false) as int);
    if first.len() > 0 && second.len() > 0 {
        Some((first, second))
    } else {
        None
    }
}

/// The end of the run of characters that starts at `from` and for which white space is `white`.
fn run_end(chars: &Vec<char>, from: usize, to: usize, white: bool) -> (r: usize)
    requires
        from <= to <= chars@.len(),
    ensures
        from <= r <= to,
        r - from == run_len(chars@.subrange(from as int, to as int), white),
{
    let ghost s = chars@.subrange(from as int, to as int);
    let mut i: usize = from;
    assert(s.skip(0) == s);
    while i < to && is_white_space(chars[i]) == white
        invariant
            from <= i <= to <= chars@.len(),
            s == chars@.subrange(from as int, to as int),
            run_len(s, white) == (i - from) + run_len(s.skip(i - from), white),
        decreases to - i,
    {
        assert(s.skip(i - from)[0] == chars@[i as int]);
        assert(s.skip(i - from).skip(1) == s.skip(i - from + 1));
        i += 1;
    }
    assert(i < to ==> s.skip(i - from)[0] == chars@[i as int]);
    i
}

/// Reads the first two words of `chars[from..to]`.
fn two_words(chars: &Vec<char>, from: usize, to: usize) -> (r: Option<(String, String)>)
    requires
        from <= to <= chars@.len(),
    ensures
        first_two_words(chars@.subrange(from as int, to as int)) == (match r {
            Some((a, b)) => Some((a@, b@)),
            None => None,
        }),
{
    let ghost s = chars@.subrange(from as int, to as int);
    let a = run_end(chars, from, to, true);
    assert(s.skip(a - from) == chars@.subrange(a as int, to as int));
    let b = run_end(chars, a, to, false);
    assert(chars@.subrange(a as int, to as int).take(b - a) == chars@.subrange(a as int, b as int));
    assert(chars@.subrange(a as int, to as int).skip(b - a) == chars@.subrange(b as int, to as int));
    let c = run_end(chars, b, to, true);
    assert(chars@.subrange(b as int, to as int).skip(c - b) == chars@.subrange(c as int, to as int));
    let d = run_end(chars, c, to, false);
    assert(chars@.subrange(c as int, to as int).take(d - c) == chars@.subrange(c as int, d as int));
    if a < b && c < d {
        Some((string_of(chars, a, b), string_of(chars, c, d)))
    } else {
        None
    }
}

/// Reads the first two words of `s`.
pub fn split_pair(s: &str) -> (r: Option<(String, String)>)
    ensures
        first_two_words(s@) == (match r {
            Some((a, b)) => Some((a@, b@)),
            None => None,
        }),
{
    let chars = chars_of(s);
    assert(chars@.subrange(0, chars@.len() as int) == s@);
    two_words(&chars, 0, chars.len())
}

/// The merge rule on one line of a rule file: its first two words. A line that starts with `#`
/// or has fewer than two words holds none.
pub open spec fn line_rule(line: Seq<char>) -> Option<(Seq<char>, Seq<char>)> {
    if line.len() > 0 && line[0] == '#' {
        None
    } else {
        first_two_words(line)
    }
}

/// The length of the first line of `text`, without its line feed.
pub open spec fn line_len(text: Seq<char>) -> nat
    decreases text.len(),
{
    if text.len() == 0 || text[0] == '\n' {
        0
    } else {
        1 + line_len(text.skip(1))
    }
}

/// What follows the first line of `text`.
pub open spec fn after_line(text: Seq<char>) -> Seq<char> {
    if line_len(text) < text.len() {
        text.skip(line_len(text) as int + 1)
    } else {
        seq![]
    }
}

/// The merge rules of a rule file, in the order of its lines.
pub open spec fn rules_of(text: Seq<char>) -> Seq<(Seq<char>, Seq<char>)>
    decreases text.len(),
{
    if text.len() == 0 {
        seq![]
    } else {
        let rest = rules_of(after_line(text));
        match line_rule(text.take(line_len(text) as int)) {
            Some(rule) => seq![rule] + rest,
            None => rest,
        }
    }
}

/// Finds the end of the line that starts at `from`.
fn line_end(chars: &Vec<char>, from: usize) -> (r: usize)
    requires
        from <= chars@.len(),
    ensures
        from <= r <= chars@.len(),
        r - from == line_len(chars@.skip(from as int)),
{
    let ghost s = chars@.skip(from as int);
    let mut i: usize = from;
    assert(s.skip(0) == s);
    while i < chars.len() && chars[i] != '\n'
        invariant
            from <= i <= chars@.len(),
            s == chars@.skip(from as int),
            line_len(s) == (i - from) + line_len(s.skip(i - from)),
        decreases chars@.len() - i,
    {
        assert(s.skip(i - from)[0] == chars@[i as int]);
        assert(s.skip(i - from).skip(1) == s.skip(i - from + 1));
        i += 1;
    }
    assert(i < chars@.len() ==> s.skip(i - from)[0] == chars@[i as int]);
    i
}

/// Reads the merge rules of a rule file.
pub fn parse_merges(text: &str) -> (r: Vec<(String, String)>)
    ensures
        text_pairs(r@) == rules_of(text@),
{
    let chars = chars_of(text);
    let mut out: Vec<(String, String)> = Vec::new();
    let mut i: usize = 0;
    let mut more = chars.len() > 0;
    assert(text@.skip(0) == text@);
    assert(text_pairs(out@) + rules_of(text@) == rules_of(text@));
    while more
        invariant
            chars@ == text@,
            i <= chars@.len(),
            more == (i < chars@.len()),
            text_pairs(out@) + rules_of(text@.skip(i as int)) == rules_of(text@),
        decreases chars@.len() - i,
    {
        let ghost s = text@.skip(i as int);
        let ghost before = text_pairs(out@);
        let end = line_end(&chars, i);
        let comment = i < end && chars[i] == '#';
        let ghost line = s.take(end - i);
        assert(line == chars@.subrange(i as int, end as int));
        let found = if comment {
            None
        } else {
            two_words(&chars, i, end)
        };
        let next = if end < chars.len() {
            end + 1
        } else {
            end
        };
        proof {
            assert(after_line(s) =~= text@.skip(next as int));
        }
        match found {
            Some(rule) => {
                let ghost p = (rule.0@, rule.1@);
                out.push(rule);
                assert(text_pairs(out@) == before.push(p));
                assert(before + (seq![p] + rules_of(text@.skip(next as int))) == before.push(p)
                    + rules_of(text@.skip(next as int)));
            },
            None => {},
        }
        i = next;
        more = i < chars.len();
    }
    assert(text@.skip(i as int).len() == 0);
    assert(text_pairs(out@) + Seq::<(Seq<char>, Seq<char>)>::empty() == text_pairs(out@));
    out
}

/// The value of a hexadecimal digit.
pub open spec fn hex_value(c: char) -> Option<u8> {
    if '0' <= c <= '9' {
        Some((c as u8 - 48) as u8)
    } else if 'a' <= c <= 'f' {
        Some((c as u8 - 87) as u8)
    } else if 'A' <= c <= 'F' {
        Some((c as u8 - 55) as u8)
    } else {
        None
    }
}

/// The capital hexadecimal digit of value `v`.
pub open spec fn hex_digit(v: u8) -> char {
    if v < 10 {
        (v + 48) as char
    } else {
        (v + 55) as char
    }
}

/// The byte that a piece `<0xNN>` spells, with two hexadecimal digits. Any other piece spells
/// none.
pub open spec fn piece_byte(s: Seq<char>) -> Option<u8> {
    if s.len() == 6 && s[0] == '<' && s[1] == '0' && s[2] == 'x' && s[5] == '>' {
        match (hex_value(s[3]), hex_value(s[4])) {
            (Some(a), Some(b)) => Some((16 * a + b) as u8),
            _ => None,
        }
    } else {
        None
    }
}

/// The piece `<0xNN>` that spells byte `b`.
pub open spec fn byte_piece(b: u8) -> Seq<char> {
    seq!['<', '0', 'x', hex_digit(b / 16), hex_digit(b % 16), '>']
}

/// Reading the piece of a byte gives the byte back.
pub proof fn byte_piece_reads_back(b: u8)
    ensures
        piece_byte(byte_piece(b)) == Some(b),
{
}

fn hex_value_of(c: char) -> (r: Option<u8>)
    ensures
        r == hex_value(c),
        r matches Some(v) ==> v < 16,
{
    if c >= '0' && c <= '9' {
        Some(c as u8 - 48)
    } else if c >= 'a' && c <= 'f' {
        Some(c as u8 - 87)
    } else if c >= 'A' && c <= 'F' {
        Some(c as u8 - 55)
    } else {
        None
    }
}

/// Reads a byte piece.
pub fn parse_byte_piece(piece: &str) -> (r: Option<u8>)
    ensures
        r == piece_byte(piece@),
{
    let s = chars_of(piece);
    if s.len() == 6 && s[0] == '<' && s[1] == '0' && s[2] == 'x' && s[5] == '>' {
        match (hex_value_of(s[3]), hex_value_of(s[4])) {
            (Some(a), Some(b)) => Some(16 * a + b),
            _ => None,
        }
    } else {
        None
    }
}

/// Writes the piece that spells byte `b`.
pub fn byte_piece_text(b: u8) -> (r: String)
    ensures
        r@ == byte_piece(b),
{
    let mut s = String::new();
    s.push('<');
    s.push('0');
    s.push('x');
    let hi = b / 16;
    let lo = b % 16;
    s.push(if hi < 10 { (hi + 48) as char } else { (hi + 55) as char });
    s.push(if lo < 10 { (lo + 48) as char } else { (lo + 55) as char });
    s.push('>');
    assert(s@ == byte_piece(b));
    s
}

} // verus!
