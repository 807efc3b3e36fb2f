//! How rule files, byte pieces and the lists of a vocabulary file are read.

use crate::error::FlipError;
use crate::text::is_white;
use crate::tokenizer::codec::{bpe_model, BpeTokenizer};
use crate::tokenizer::load::{
    gives_tokenizer, merge_list, merge_rule, read_bpe, special_list, HfAddedToken, HfMerge, HfModel,
};
use crate::tokenizer::model::TokenizerModel;
use crate::tokenizer::pieces::{
    after_line, byte_piece, first_two_words, hex_value, line_len, line_rule, piece_byte, rules_of,
    run_len,
};
use vstd::prelude::*;

verus! {

/// Whether all characters are white, or none is.
pub open spec fn is_run(s: Seq<char>, white: bool) -> bool {
    forall|i: int| 0 <= i < s.len() ==> is_white(#[trigger] s[i]) == white
}

/// A run goes on as far as its characters are of one kind.
proof fn lemma_run(s: Seq<char>, rest: Seq<char>, white: bool)
    requires
        is_run(s, white),
        rest.len() == 0 || is_white(rest[0]) != white,
    ensures
        run_len(s + rest, white) == s.len(),
        (s + rest).take(s.len() as int) == s,
        (s + rest).skip(s.len() as int) == rest,
    decreases s.len(),
{
    assert((s + rest).take(s.len() as int) == s);
    assert((s + rest).skip(s.len() as int) == rest);
    if s.len() == 0 {
        assert(s + rest == rest);
    } else {
        assert((s + rest)[0] == s[0]);
        assert((s + rest).skip(1) == s.skip(1) + rest);
        assert forall|i: int| 0 <= i < s.skip(1).len() implies is_white(#[trigger] s.skip(1)[i])
            == white by {
            assert(s.skip(1)[i] == s[i + 1]);
        }
        lemma_run(s.skip(1), rest, white);
    }
}

/// The first two words of a text are its first two runs of characters that are not white, however
/// much white space stands before them and between them, and whatever follows them.
pub proof fn words_stand_between_white_space(
    before: Seq<char>,
    a: Seq<char>,
    between: Seq<char>,
    b: Seq<char>,
    rest: Seq<char>,
)
    requires
        is_run(before, true),
        is_run(a, false),
        is_run(between, true),
        is_run(b, false),
        a.len() > 0,
        between.len() > 0,
        b.len() > 0,
        rest.len() == 0 || is_white(rest[0]),
    ensures
        first_two_words(before + a + between + b + rest) == Some((a, b)),
{
    let s = before + a + between + b + rest;
    let from_a = a + (between + (b + rest));
    let from_between = between + (b + rest);
    assert(s == before + from_a);
    assert(from_a[0] == a[0]);
    assert(from_between[0] == between[0]);
    assert((b + rest)[0] == b[0]);
    lemma_run(before, from_a, true);
    lemma_run(a, from_between, false);
    lemma_run(between, b + rest, true);
    lemma_run(b, rest, false);
}

/// A text of white space with at most one word in it does not have two.
pub proof fn one_word_is_not_two(before: Seq<char>, a: Seq<char>, rest: Seq<char>)
    requires
        is_run(before, true),
        is_run(a, false),
        is_run(rest, true),
    ensures
        first_two_words(before + a + rest) is None,
{
    let s = before + a + rest;
    assert(s == before + (a + rest));
    let none = Seq::<char>::empty();
    if a.len() > 0 {
        assert((a + rest)[0] == a[0]);
        lemma_run(before, a + rest, true);
        lemma_run(a, rest, false);
        lemma_run(rest, none, true);
        assert(rest + none == rest);
    } else {
        let white = before + rest;
        assert(s == white);
        assert(is_run(white, true)) by {
            assert forall|i: int| 0 <= i < white.len() implies is_white(#[trigger] white[i])
                == true by {
                if i < before.len() {
                    assert(white[i] == before[i]);
                } else {
                    assert(white[i] == rest[i - before.len()]);
                }
            }
        }
        lemma_run(white, none, true);
        assert(white + none == white);
    }
}

proof fn lemma_line(line: Seq<char>, rest: Seq<char>)
    requires
        forall|i: int| 0 <= i < line.len() ==> #[trigger] line[i] != '\n',
        rest.len() == 0 || rest[0] == '\n',
    ensures
        line_len(line + rest) == line.len(),
        (line + rest).take(line.len() as int) == line,
    decreases line.len(),
{
    assert((line + rest).take(line.len() as int) == line);
    if line.len() == 0 {
        assert(line + rest == rest);
    } else {
        assert((line + rest)[0] == line[0]);
        assert((line + rest).skip(1) == line.skip(1) + rest);
        lemma_line(line.skip(1), rest);
    }
}

/// The rule on a line is its first two words; a line that starts with a hash sign has none.
pub proof fn lines_hold_two_words(line: Seq<char>)
    ensures
        line.len() > 0 && line[0] == '#' ==> line_rule(line) is None,
        line.len() == 0 || line[0] != '#' ==> line_rule(line) == first_two_words(line),
{
}

/// The rules of a file are those of its lines, in order. The last line need not be ended.
pub proof fn rules_are_read_line_by_line(line: Seq<char>, rest: Seq<char>)
    requires
        forall|i: int| 0 <= i < line.len() ==> #[trigger] line[i] != '\n',
    ensures
        rules_of(seq![]) == Seq::<(Seq<char>, Seq<char>)>::empty(),
        line_rule(line) matches Some(rule) ==> rules_of(line) == seq![rule] && rules_of(
            line + seq!['\n'] + rest,
        ) == seq![rule] + rules_of(rest),
        line_rule(line) is None ==> rules_of(line).len() == 0 && rules_of(line + seq!['\n'] + rest)
            == rules_of(rest),
{
    let none = Seq::<char>::empty();
    let whole = line + seq!['\n'] + rest;
    lemma_line(line, none);
    assert(line + none == line);
    assert(after_line(line) == none);
    assert(whole == line + (seq!['\n'] + rest));
    assert((seq!['\n'] + rest)[0] == '\n');
    lemma_line(line, seq!['\n'] + rest);
    assert(after_line(whole) == rest);
    if line.len() == 0 {
        one_word_is_not_two(none, none, none);
        assert(none + none + none == line);
    }
    if line_rule(line) is Some {
        let rule = line_rule(line)->Some_0;
        assert(seq![rule] + Seq::<(Seq<char>, Seq<char>)>::empty() == seq![rule]);
    }
}

/// The value of a hexadecimal digit, large or small; other characters are none.
pub proof fn hexadecimal_digits_are_these(c: char)
    ensures
        48 <= c as u32 <= 57 ==> hex_value(c) == Some((c as u32 - 48) as u8),
        97 <= c as u32 <= 102 ==> hex_value(c) == Some((c as u32 - 97 + 10) as u8),
        65 <= c as u32 <= 70 ==> hex_value(c) == Some((c as u32 - 65 + 10) as u8),
        !(48 <= c as u32 <= 57 || 97 <= c as u32 <= 102 || 65 <= c as u32 <= 70) ==> hex_value(
            c,
        ) is None,
{
}

/// A byte piece is two hexadecimal digits in a fixed frame, the higher one first; no other piece
/// spells a byte.
pub proof fn byte_pieces_are_framed(s: Seq<char>, b: u8)
    ensures
        piece_byte(s) == Some(b) <==> {
            &&& s.len() == 6
            &&& s == seq!['<', '0', 'x', s[3], s[4], '>']
            &&& hex_value(s[3]) == Some((b / 16) as u8)
            &&& hex_value(s[4]) == Some((b % 16) as u8)
        },
{
    if s.len() == 6 {
        hexadecimal_digits_are_these(s[3]);
        hexadecimal_digits_are_these(s[4]);
        if s[0] == '<' && s[1] == '0' && s[2] == 'x' && s[5] == '>' {
            assert(s =~= seq!['<', '0', 'x', s[3], s[4], '>']);
        }
    }
}

/// The piece that is written for a byte has capital digits.
pub proof fn byte_pieces_are_written_in_capitals(b: u8)
    ensures
        piece_byte(byte_piece(b)) == Some(b),
        byte_piece(b).len() == 6,
        !(97 <= byte_piece(b)[3] as u32 <= 102),
        !(97 <= byte_piece(b)[4] as u32 <= 102),
{
}

/// The special tokens of a list of added tokens are those that are marked special, in order.
pub proof fn marked_tokens_are_special(added: Seq<HfAddedToken>)
    ensures
        ({
            let marked = added.filter(|t: HfAddedToken| t.special);
            special_list(added) == Seq::new(
                marked.len(),
                |j: int| (marked[j].content@, marked[j].id),
            )
        }),
    decreases added.len(),
{
    reveal(Seq::filter);
    if added.len() > 0 {
        marked_tokens_are_special(added.drop_last());
    }
}

/// The rules of a list are those of its entries, in order: a pair as it is, and of a text its
/// first two words, where it has two.
pub proof fn merge_entries_are_read_in_order(
    a: Seq<HfMerge>,
    b: Seq<HfMerge>,
    left: String,
    right: String,
    text: String,
)
    ensures
        merge_list(seq![]) == Seq::<(Seq<char>, Seq<char>)>::empty(),
        merge_list(seq![HfMerge::Pair(left, right)]) == seq![(left@, right@)],
        first_two_words(text@) matches Some(rule) ==> merge_list(seq![HfMerge::Str(text)])
            == seq![rule],
        first_two_words(text@) is None ==> merge_list(seq![HfMerge::Str(text)]).len() == 0,
        merge_list(a + b) == merge_list(a) + merge_list(b),
    decreases b.len(),
{
    reveal_with_fuel(merge_list, 2);
    let pair = seq![HfMerge::Pair(left, right)];
    let one = seq![HfMerge::Str(text)];
    assert(pair.drop_last() == Seq::<HfMerge>::empty());
    assert(one.drop_last() == Seq::<HfMerge>::empty());
    assert(pair.last() == HfMerge::Pair(left, right));
    assert(one.last() == HfMerge::Str(text));
    assert(merge_rule(pair.last()) == Some((left@, right@)));
    assert(Seq::<(Seq<char>, Seq<char>)>::empty().push((left@, right@)) == seq![(left@, right@)]);
    if first_two_words(text@) is Some {
        let rule = first_two_words(text@)->Some_0;
        assert(Seq::<(Seq<char>, Seq<char>)>::empty().push(rule) == seq![rule]);
    }
    if b.len() == 0 {
        assert(a + b == a);
        assert(merge_list(a) + merge_list(b) == merge_list(a));
    } else {
        let init = b.drop_last();
        merge_entries_are_read_in_order(a, init, left, right, text);
        assert((a + b).drop_last() == a + init);
        assert((a + b).last() == b.last());
        if merge_rule(b.last()) is Some {
            let rule = merge_rule(b.last())->Some_0;
            assert((merge_list(a) + merge_list(init)).push(rule) == merge_list(a) + merge_list(
                init,
            ).push(rule));
        }
    }
}

/// A model is a Unigram model where it is named one, or where its vocabulary is an array; a model
/// that is named otherwise, or not named, with a vocabulary that is none, is not.
pub proof fn unigram_models_are_named_or_arrays<S>(model: HfModel<S>)
    ensures
        model.vocab.is_array ==> model.is_unigram(),
        (model.model_type matches Some(t) && t@ == "Unigram"@) ==> model.is_unigram(),
        model.is_unigram() && !model.vocab.is_array ==> (model.model_type matches Some(t) && t@
            == "Unigram"@),
{
}

/// A vocabulary that is read gives the tables of its list, with the special tokens; one that is
/// not gives an error that names what was read.
pub proof fn vocabularies_give_tables<S>(
    list: Seq<(Seq<char>, u32)>,
    rules: Seq<(Seq<char>, Seq<char>)>,
    specials: Seq<(Seq<char>, u32)>,
    r: Result<BpeTokenizer<S>, FlipError>,
    model: TokenizerModel<S>,
    context: Seq<char>,
)
    ensures
        read_bpe::<S>(Some(list), rules, specials) == Some(
            bpe_model::<S>(list, rules).with_specials(specials),
        ),
        read_bpe::<S>(None, rules, specials) is None,
        gives_tokenizer(r, Some(model), context) <==> (r matches Ok(t) && t@ == model),
        gives_tokenizer(r, None, context) <==> (r matches Err(FlipError::Json { context: c, .. })
            && c@ == context),
{
}

} // verus!
