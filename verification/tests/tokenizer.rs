use flip::error::FlipError;
use flip::tokenizer::byte_map::byte_to_unicode;
use flip::tokenizer::codec::{flush_bytes, BpeTokenizer};
use flip::tokenizer::load::{HfAddedToken, HfMerge, HfModel, HfTokenizer, HfVocab};
use flip::tokenizer::pieces::{byte_piece_text, parse_byte_piece, parse_merges, pretokenize, split_pair};
use flip::tokenizer::score::WholeScore;
use flip::tokenizer::special::{Seg, SpecialTokens};
use flip::tokenizer::unigram::ScoreScale;
use serde_json::Value;

type Tokenizer = BpeTokenizer<f32>;

fn scale() -> ScoreScale<f32> {
    ScoreScale { zero: 0.0, floor: f32::NEG_INFINITY, penalty: -10.0 }
}

fn byte_text(b: u8) -> String {
    let (enc, _) = byte_to_unicode();
    enc[b as usize].to_string()
}

fn tokenizer_message(e: FlipError) -> String {
    match e {
        FlipError::Tokenizer(m) => m,
        other => panic!("not a tokenizer error: {:?}", other),
    }
}

fn json_context(e: FlipError) -> String {
    match e {
        FlipError::Json { context, .. } => context,
        other => panic!("not a JSON error: {:?}", other),
    }
}

fn hf_of(text: &str) -> Result<HfTokenizer<f32>, serde_json::Error> {
    let value: Value = serde_json::from_str(text)?;
    let mut added_tokens = Vec::new();
    if let Some(list) = value["added_tokens"].as_array() {
        for t in list {
            added_tokens.push(HfAddedToken {
                id: t["id"].as_u64().unwrap() as u32,
                content: t["content"].as_str().unwrap().to_string(),
                special: t["special"].as_bool().unwrap_or(false),
            });
        }
    }
    let model = &value["model"];
    let mut merges = Vec::new();
    if let Some(list) = model["merges"].as_array() {
        for m in list {
            match m.as_str() {
                Some(s) => merges.push(HfMerge::Str(s.to_string())),
                None => merges.push(HfMerge::Pair(
                    m[0].as_str().unwrap().to_string(),
                    m[1].as_str().unwrap().to_string(),
                )),
            }
        }
    }
    let vocab = model["vocab"].clone();
    Ok(HfTokenizer {
        added_tokens,
        model: HfModel {
            model_type: model["type"].as_str().map(|s| s.to_string()),
            vocab: HfVocab {
                is_array: vocab.is_array(),
                json: serde_json::to_vec(&vocab)?,
                scored: serde_json::from_value(vocab),
            },
            merges,
            unk_id: model["unk_id"].as_u64().map(|n| n as u32),
            byte_fallback: model["byte_fallback"].as_bool().unwrap_or(false),
        },
    })
}

#[test]
fn byte_map_is_a_bijection() {
    let (enc, dec) = byte_to_unicode();
    // All 256 bytes map to distinct chars that map back.
    let distinct: std::collections::HashSet<char> = enc.iter().copied().collect();
    assert_eq!(distinct.len(), 256);
    for b in 0..256usize {
        assert_eq!(dec[&(enc[b] as u32)], b as u8);
    }
    // Space is remapped to 'Ġ' (U+0120).
    assert_eq!(enc[b' ' as usize], '\u{0120}');
}

#[test]
fn byte_map_keeps_printable_bytes() {
    let (enc, dec) = byte_to_unicode();
    assert_eq!(enc[b'A' as usize], 'A');
    assert_eq!(enc[0xA1], '\u{A1}');
    assert_eq!(enc[0xAD], '\u{143}');
    assert_eq!(enc[0], '\u{100}');
    assert_eq!(dec.len(), 256);
    assert!(!dec.contains_key(&(' ' as u32)));
}

#[test]
fn bytes_only_round_trips_text() {
    let tok = Tokenizer::bytes_only();
    assert_eq!(tok.vocab_size(), 256);
    for text in ["Hello, world!", "héllo — Ünicode 🚀", "", "  spaced  "] {
        let ids = tok.encode(text).unwrap();
        assert_eq!(tok.decode(&ids).unwrap(), text);
    }
}

#[test]
fn bytes_only_ids_are_raw_bytes() {
    let tok = Tokenizer::bytes_only();
    let ids = tok.encode("AB").unwrap();
    // 'A' = 0x41, 'B' = 0x42; byte-level ids equal the bytes.
    assert_eq!(ids, vec![0x41, 0x42]);
}

#[test]
fn bytes_only_ids_are_utf8_of_any_text() {
    let tok = Tokenizer::bytes_only();
    let text = "a é 🚀\n";
    let ids: Vec<u32> = text.bytes().map(|b| b as u32).collect();
    assert_eq!(tok.encode(text).unwrap(), ids);
}

#[test]
fn merges_combine_adjacent_symbols() {
    // Vocabulary: single byte-chars for a,b,c plus merged "ab", "abc".
    let a = byte_text(b'a');
    let b = byte_text(b'b');
    let c = byte_text(b'c');
    let ab = format!("{a}{b}");
    let abc = format!("{ab}{c}");

    let vocab = vec![
        (a.clone(), 0),
        (b.clone(), 1),
        (c.clone(), 2),
        (ab.clone(), 3),
        (abc.clone(), 4),
    ];
    // Merge (a,b) first, then (ab,c).
    let merges = vec![(a.clone(), b.clone()), (ab.clone(), c.clone())];
    let tok = Tokenizer::new(vocab, merges);

    assert_eq!(tok.encode("ab").unwrap(), vec![3]); // "ab"
    assert_eq!(tok.encode("abc").unwrap(), vec![4]); // "abc"
    assert_eq!(tok.encode("aba").unwrap(), vec![3, 0]); // "ab" + "a"
    assert_eq!(tok.decode(&[4]).unwrap(), "abc");
}

#[test]
fn lowest_rank_merges_first() {
    // "bc" outranks "ab", so "abc" is cut "a" + "bc".
    let names: Vec<String> = ["a", "b", "c", "ab", "bc"].iter().map(|s| s.to_string()).collect();
    let vocab: Vec<(String, u32)> =
        names.iter().enumerate().map(|(i, s)| (s.clone(), i as u32)).collect();
    let merges = vec![
        ("b".to_string(), "c".to_string()),
        ("a".to_string(), "b".to_string()),
    ];
    let tok = Tokenizer::new(vocab, merges);
    assert_eq!(tok.encode("abc").unwrap(), vec![0, 4]);
    // Every occurrence is merged in one pass, from the left.
    let merges = vec![("a".to_string(), "a".to_string())];
    let vocab = vec![("a".to_string(), 0), ("aa".to_string(), 1)];
    let tok = Tokenizer::new(vocab, merges);
    assert_eq!(tok.encode("aaaaa").unwrap(), vec![1, 1, 0]);
    assert_eq!(tok.decode(&[1, 1, 0]).unwrap(), "aaaaa");
}

#[test]
fn loads_from_vocab_and_merges_files() {
    let a = byte_text(b'a');
    let b = byte_text(b'b');
    let ab = format!("{a}{b}");

    let vocab = format!(r#"{{"{a}":0,"{b}":1,"{ab}":2}}"#);
    let merges = format!("#version: 0.2\n{a} {b}\n");

    let tok = Tokenizer::from_files(vocab.as_bytes(), &merges).unwrap();
    assert_eq!(tok.vocab_size(), 3);
    assert_eq!(tok.encode("ab").unwrap(), vec![2]);
    assert_eq!(tok.decode(&[2]).unwrap(), "ab");
}

#[test]
fn vocab_that_is_not_json_is_refused() {
    let e = Tokenizer::from_files(b"{\"a\": -1}", "").err().unwrap();
    assert_eq!(json_context(e), "vocab.json");
    let e = Tokenizer::from_files(b"nonsense", "").err().unwrap();
    assert_eq!(json_context(e), "vocab.json");
    let parsed = serde_json::from_str("[1");
    let e = Tokenizer::from_parsed_vocab(parsed, "here", vec![], vec![]).err().unwrap();
    assert_eq!(json_context(e), "here");
}

#[test]
fn vocab_given_as_a_list() {
    let list = vec![("a".to_string(), 7), ("b".to_string(), 8)];
    let tok = Tokenizer::from_parsed_vocab(Ok(list), "here", vec![], vec![("!".to_string(), 9)]);
    let tok = tok.unwrap();
    assert_eq!(tok.encode("ab!a").unwrap(), vec![7, 8, 9, 7]);
    assert_eq!(tok.decode(&[9, 8, 7]).unwrap(), "!ba");
}

#[test]
fn encode_errors_on_missing_token() {
    // Vocabulary missing the byte-char for 'z'.
    let vocab = vec![(byte_text(b'a'), 0)];
    let tok = Tokenizer::new(vocab, vec![]);
    assert!(tok.encode("z").is_err());
}

#[test]
fn encode_names_the_missing_token() {
    let tok = Tokenizer::new(vec![("a".to_string(), 0)], vec![]);
    let e = tok.encode("az\"").err().unwrap();
    assert_eq!(tokenizer_message(e), "token \"z\" not in vocabulary");
    let e = tok.encode("\"").err().unwrap();
    assert_eq!(tokenizer_message(e), "token \"\\\"\" not in vocabulary");
}

#[test]
fn decode_errors() {
    let tok = Tokenizer::new(vec![("a".to_string(), 0), ("ab \u{3b1}".to_string(), 1)], vec![]);
    let e = tok.decode(&[0, 12345]).err().unwrap();
    assert_eq!(tokenizer_message(e), "unknown token id 12345");
    let e = tok.decode(&[1]).err().unwrap();
    assert_eq!(tokenizer_message(e), "char ' ' is not a byte token");
    let e = Tokenizer::from_unigram(vec![("a".to_string(), 0.0)], false, None, scale())
        .decode(&[5])
        .err()
        .unwrap();
    assert_eq!(tokenizer_message(e), "unknown token id 5");
}

#[test]
fn decode_replaces_bad_utf8() {
    let tok = Tokenizer::bytes_only();
    assert_eq!(tok.decode(&[0x61, 0xFF, 0x62]).unwrap(), "a\u{FFFD}b");
}

#[test]
fn special_tokens_encode_as_single_ids_and_round_trip() {
    let tok = Tokenizer::bytes_only().with_special(vec![("<|eot|>".to_string(), 999u32)]);

    // A special token in the middle splits the surrounding text.
    let ids = tok.encode("hi<|eot|>x").unwrap();
    assert!(ids.contains(&999), "special id missing: {ids:?}");
    // The special token is exactly one id (not BPE'd into pieces).
    assert_eq!(ids.iter().filter(|&&i| i == 999).count(), 1);
    assert_eq!(tok.decode(&ids).unwrap(), "hi<|eot|>x");

    // Leading special token.
    let ids2 = tok.encode("<|eot|>done").unwrap();
    assert_eq!(ids2[0], 999);
    assert_eq!(tok.decode(&ids2).unwrap(), "<|eot|>done");
}

#[test]
fn longest_special_token_wins() {
    let tok = Tokenizer::bytes_only().with_special(vec![
        ("<a>".to_string(), 300),
        ("<a><b>".to_string(), 301),
        ("é".to_string(), 302),
    ]);
    assert_eq!(tok.encode("<a><b><a>é").unwrap(), vec![301, 300, 302]);
    assert_eq!(tok.decode(&[301, 300, 302]).unwrap(), "<a><b><a>é");
}

#[test]
fn special_tokens_split_text() {
    let specials = SpecialTokens::new().insert("<s>", 1).insert("<s>", 2).insert("<t>", 3);
    assert!(!specials.is_empty());
    let segs = specials.split_special("ab<s><t>c");
    assert_eq!(segs.len(), 4);
    assert!(matches!(&segs[0], Seg::Text(t) if t == "ab"));
    assert!(matches!(segs[1], Seg::Special(2)));
    assert!(matches!(segs[2], Seg::Special(3)));
    assert!(matches!(&segs[3], Seg::Text(t) if t == "c"));
    let none = SpecialTokens::new();
    assert!(none.is_empty());
    assert!(matches!(&none.split_special("")[0], Seg::Text(t) if t.is_empty()));
}

#[test]
fn loads_hf_tokenizer_json_with_special_tokens() {
    let hf = hf_of(
        r#"{
                "added_tokens": [{"id": 5, "content": "<|end|>", "special": true}],
                "model": {"type": "BPE", "vocab": {"a": 0, "b": 1, "ab": 2}, "merges": ["a b"]}
            }"#,
    );

    let tok = Tokenizer::from_hf_json(hf, scale()).unwrap();
    // "ab" merges to id 2; the special token becomes id 5.
    assert_eq!(tok.encode("ab<|end|>").unwrap(), vec![2, 5]);
    assert_eq!(tok.decode(&[2, 5]).unwrap(), "ab<|end|>");
}

#[test]
fn hf_merges_may_be_pairs_and_added_tokens_ordinary() {
    let hf = hf_of(
        r#"{
            "added_tokens": [{"id": 5, "content": "b", "special": false}],
            "model": {"vocab": {"a": 0, "b": 1, "ab": 2}, "merges": [["a", "b"], "oops"]}
        }"#,
    );
    let tok = Tokenizer::from_hf_json(hf, scale()).unwrap();
    assert_eq!(tok.encode("abb").unwrap(), vec![2, 1]);
}

#[test]
fn hf_json_that_is_not_one_is_refused() {
    let e = Tokenizer::from_hf_json(hf_of("{"), scale()).err().unwrap();
    assert_eq!(json_context(e), "tokenizer.json");
    let e = Tokenizer::from_hf_json(hf_of(r#"{"model": {"vocab": 3}}"#), scale()).err().unwrap();
    assert_eq!(json_context(e), "tokenizer.json BPE vocab");
    let hf = hf_of(r#"{"model": {"type": "Unigram", "vocab": {"a": 1}}}"#);
    let e = Tokenizer::from_hf_json(hf, scale()).err().unwrap();
    assert_eq!(json_context(e), "tokenizer.json Unigram vocab");
    let hf = hf_of(r#"{"model": {"type": "BPE", "vocab": [["a", 1.0], 2]}}"#);
    let e = Tokenizer::from_hf_json(hf, scale()).err().unwrap();
    assert_eq!(json_context(e), "tokenizer.json Unigram vocab");
}

/// Viterbi picks the highest-scoring segmentation, and decode inverts the escaping and the
/// dummy prefix, so text round-trips.
#[test]
fn unigram_round_trips() {
    let pieces = vec![
        ("<unk>".to_string(), 0.0),
        ("\u{2581}hello".to_string(), -1.0),
        ("\u{2581}world".to_string(), -1.0),
        ("\u{2581}".to_string(), -5.0),
    ];
    let tok = Tokenizer::from_unigram(pieces, false, Some(0), scale());
    let ids = tok.encode("hello world").unwrap();
    // Two whole-word pieces (▁hello, ▁world) beat any finer split.
    assert_eq!(ids, vec![1, 2]);
    assert_eq!(tok.decode(&ids).unwrap(), "hello world");
}

/// A character with no vocab piece decomposes into `<0xNN>` byte pieces when byte-fallback is
/// on, and those reassemble on decode.
#[test]
fn unigram_byte_fallback_round_trips() {
    let pieces = vec![
        ("<unk>".to_string(), 0.0),
        ("\u{2581}hi".to_string(), -1.0),
        ("<0x21>".to_string(), -5.0), // '!' = 0x21
    ];
    let tok = Tokenizer::from_unigram(pieces, true, Some(0), scale());
    let ids = tok.encode("hi!").unwrap();
    assert_eq!(tok.decode(&ids).unwrap(), "hi!");
    // The '!' had no piece, so it came through the byte-fallback token.
    assert!(ids.contains(&2), "expected the <0x21> byte piece: {ids:?}");
}

#[test]
fn unigram_picks_the_best_segmentation() {
    let pieces = vec![
        ("\u{2581}a".to_string(), -1.0),
        ("\u{2581}ab".to_string(), -4.0),
        ("b".to_string(), -2.0),
        ("bc".to_string(), -2.5),
        ("c".to_string(), -1.0),
    ];
    let tok = Tokenizer::from_unigram(pieces, false, None, scale());
    // -1 - 2.5 beats -1 - 2 - 1 and -4 - 1.
    assert_eq!(tok.encode("abc").unwrap(), vec![0, 3]);
    assert_eq!(tok.decode(&[0, 3]).unwrap(), "abc");
    assert!(tok.encode("").unwrap().is_empty());
    let e = tok.encode("abd").err().unwrap();
    assert_eq!(
        tokenizer_message(e),
        "unigram tokenizer could not segment input (no byte fallback or unk token)"
    );
}

#[test]
fn unigram_falls_back_to_unknown_token() {
    let pieces = vec![("<unk>".to_string(), 0.0), ("\u{2581}".to_string(), -1.0)];
    let tok = Tokenizer::from_unigram(pieces, true, Some(0), scale());
    assert_eq!(tok.encode("x").unwrap(), vec![1, 0]);
}

#[test]
fn unigram_byte_pieces_spell_characters() {
    let pieces = vec![
        ("\u{2581}".to_string(), -1.0),
        ("<0xC3>".to_string(), -2.0),
        ("<0xA9>".to_string(), -2.0),
        ("z".to_string(), -1.0),
    ];
    let tok = Tokenizer::from_unigram(pieces, true, None, scale());
    assert_eq!(tok.encode("zéz").unwrap(), vec![0, 3, 1, 2, 3]);
    assert_eq!(tok.decode(&[0, 3, 1, 2, 3]).unwrap(), "zéz");
    // A lone byte is repaired.
    assert_eq!(tok.decode(&[3, 1, 3]).unwrap(), "z\u{FFFD}z");
}

/// A `tokenizer.json` declaring a Unigram model (array vocab) loads through the same entry point
/// as BPE and tokenizes.
#[test]
fn loads_unigram_tokenizer_json() {
    let hf = hf_of(
        r#"{"model":{"type":"Unigram","unk_id":0,"byte_fallback":true,
                "vocab":[["<unk>",0.0],["▁hello",-1.0],["▁world",-1.0]]}}"#,
    );
    let tok = Tokenizer::from_hf_json(hf, scale()).unwrap();
    assert_eq!(tok.decode(&tok.encode("hello world").unwrap()).unwrap(), "hello world");
}

#[test]
fn chunks_start_at_spaces() {
    assert_eq!(pretokenize("hello  big world"), vec!["hello", " ", " big", " world"]);
    assert!(pretokenize("").is_empty());
    assert_eq!(pretokenize(" a").concat(), " a");
}

#[test]
fn merge_files_are_read_line_by_line() {
    let rules = parse_merges("#version: 0.2\r\na b\n\n  \nc\u{2003}d e\nlone\nf g");
    let want: Vec<(String, String)> = [("a", "b"), ("c", "d"), ("f", "g")]
        .iter()
        .map(|(a, b)| (a.to_string(), b.to_string()))
        .collect();
    assert_eq!(rules, want);
    assert!(parse_merges("").is_empty());
    assert_eq!(split_pair(" x\ty z"), Some(("x".to_string(), "y".to_string())));
    assert_eq!(split_pair("x "), None);
}

#[test]
fn byte_pieces() {
    assert_eq!(parse_byte_piece("<0x21>"), Some(0x21));
    assert_eq!(parse_byte_piece("<0xfF>"), Some(0xFF));
    assert_eq!(parse_byte_piece("<0x+A>"), None);
    assert_eq!(parse_byte_piece("<0x+1>"), None);
    assert_eq!(parse_byte_piece("<0x-1>"), None);
    assert_eq!(parse_byte_piece("<0x1>"), None);
    assert_eq!(parse_byte_piece("<0xG1>"), None);
    assert_eq!(parse_byte_piece("0x21"), None);
    for b in 0..=255u8 {
        assert_eq!(byte_piece_text(b), format!("<0x{b:02X}>"));
        assert_eq!(parse_byte_piece(&byte_piece_text(b)), Some(b));
    }
}

#[test]
fn byte_runs_are_flushed() {
    let mut run = vec![0xC3, 0xA9];
    let mut out = "a".to_string();
    flush_bytes(&mut run, &mut out);
    assert_eq!(out, "aé");
    assert!(run.is_empty());
    flush_bytes(&mut run, &mut out);
    assert_eq!(out, "aé");
}

#[test]
fn whole_scores_segment_too() {
    let pieces = vec![
        ("\u{2581}a".to_string(), WholeScore::Units(-10)),
        ("\u{2581}ab".to_string(), WholeScore::Units(-40)),
        ("b".to_string(), WholeScore::Units(-20)),
        ("bc".to_string(), WholeScore::Units(-25)),
        ("c".to_string(), WholeScore::Units(-10)),
    ];
    let tok = BpeTokenizer::from_unigram(pieces, false, None, WholeScore::scale(-100));
    assert_eq!(tok.encode("abc").unwrap(), vec![0, 3]);
    assert_eq!(tok.decode(&[0, 3]).unwrap(), "abc");
    assert!(tok.encode("x").is_err());
    let (a, b) = (WholeScore::Units(i64::MAX), WholeScore::Units(1));
    assert!(a + b == a);
    assert!(WholeScore::Units(i64::MIN) + WholeScore::Units(-1) == WholeScore::Units(i64::MIN));
    assert!(WholeScore::Lowest + a == WholeScore::Lowest);
    assert!(WholeScore::Lowest < WholeScore::Units(i64::MIN));
    assert!(b > WholeScore::Units(0));
}

#[test]
fn special_tokens_are_told() {
    let tok = Tokenizer::bytes_only().with_special(vec![("<s>".to_string(), 300)]);
    assert!(tok.has_special("<s>"));
    assert!(!tok.has_special("<t>"));
    assert!(!tok.has_special(""));
}

#[test]
fn empty_special_tokens_do_no_harm_where_longer_ones_match() {
    let tok = Tokenizer::bytes_only()
        .with_special(vec![("".to_string(), 300), ("<s>".to_string(), 301)]);
    assert!(tok.has_special(""));
    assert!(tok.encode("").unwrap().is_empty());
    assert_eq!(tok.encode("<s><s>").unwrap(), vec![301, 301]);
    assert_eq!(tok.decode(&[300, 301]).unwrap(), "<s>");
}

#[test]
fn byte_chars_can_be_seen() {
    let (enc, _) = byte_to_unicode();
    for c in enc {
        assert!(!c.is_whitespace() && !c.is_control(), "{:?}", c);
    }
}

#[test]
fn complete_vocabularies_encode_everything() {
    // Every byte, and what the rules make: "th", "the", " the".
    let mut vocab: Vec<(String, u32)> = (0..=255u8).map(|b| (byte_text(b), b as u32)).collect();
    let space = byte_text(b' ');
    let the = format!("{space}the");
    vocab.push(("th".to_string(), 256));
    vocab.push(("the".to_string(), 257));
    vocab.push((the.clone(), 258));
    let merges = vec![
        ("t".to_string(), "h".to_string()),
        ("th".to_string(), "e".to_string()),
        (space, "the".to_string()),
    ];
    let tok = Tokenizer::new(vocab, merges).with_special(vec![("<end>".to_string(), 1000)]);
    for text in ["the the\tthe", "ü the<end> the", "<end><en", "", " "] {
        let ids = tok.encode(text).unwrap();
        assert_eq!(tok.decode(&ids).unwrap(), text);
    }
    assert_eq!(tok.encode("the the<end>").unwrap(), vec![257, 258, 1000]);
}

#[test]
fn unigram_special_tokens_stand_alone() {
    let pieces = vec![("\u{2581}".to_string(), -1.0), ("a".to_string(), -1.0)];
    let tok = Tokenizer::from_unigram(pieces, false, None, scale())
        .with_special(vec![("<s>".to_string(), 9)]);
    let ids = tok.encode("a<s>a").unwrap();
    assert_eq!(ids, vec![0, 1, 9, 0, 1]);
    // Each stretch of text starts with a marker of its own.
    assert_eq!(tok.decode(&ids).unwrap(), "a<s> a");
}

#[test]
fn unigram_keeps_characters_that_have_a_piece() {
    let pieces = vec![
        ("<unk>".to_string(), 0.0),
        ("\u{2581}".to_string(), -1.0),
        ("x".to_string(), -11.0),
    ];
    let tok = Tokenizer::from_unigram(pieces, false, Some(0), scale());
    // The piece costs more than the penalty, and is taken all the same.
    assert_eq!(tok.encode("x").unwrap(), vec![1, 2]);
    assert_eq!(tok.encode("xy").unwrap(), vec![1, 2, 0]);

    let pieces = vec![
        ("<unk>".to_string(), WholeScore::Units(0)),
        ("\u{2581}".to_string(), WholeScore::Units(-1)),
        ("x".to_string(), WholeScore::Units(-11)),
    ];
    let tok = BpeTokenizer::from_unigram(pieces, false, Some(0), WholeScore::scale(-10));
    assert_eq!(tok.encode("x").unwrap(), vec![1, 2]);
}

#[test]
fn unigram_covers_with_pieces_first() {
    let pieces = vec![
        ("<unk>".to_string(), 0.0),
        ("\u{2581}".to_string(), -1.0),
        ("xy".to_string(), -50.0),
        ("y".to_string(), -1.0),
        ("\u{2581}z".to_string(), -60.0),
        ("abc".to_string(), -1.0),
        ("cd".to_string(), -1.0),
    ];
    let tok = Tokenizer::from_unigram(pieces, false, Some(0), scale());
    assert_eq!(tok.encode("xy").unwrap(), vec![1, 2]);
    assert_eq!(tok.encode("z").unwrap(), vec![4]);
    // One unknown character rather than two.
    assert_eq!(tok.encode("abcd").unwrap(), vec![1, 5, 0]);
}

#[test]
fn unigram_keeps_special_literals() {
    let pieces = vec![("\u{2581}hi".to_string(), -1.0), ("<0x20>".to_string(), -1.0)];
    let tok = Tokenizer::from_unigram(pieces, false, None, scale()).with_special(vec![
        ("<a\u{2581}b>".to_string(), 9),
        (" s".to_string(), 10),
        ("".to_string(), 11),
    ]);
    assert_eq!(tok.decode(&[9]).unwrap(), "<a\u{2581}b>");
    assert_eq!(tok.decode(&[0, 9, 0]).unwrap(), "hi<a\u{2581}b> hi");
    assert_eq!(tok.decode(&[10, 0]).unwrap(), " s hi");
    // A space in front that pieces or bytes give is dropped once.
    assert_eq!(tok.decode(&[11, 0]).unwrap(), "hi");
    assert_eq!(tok.decode(&[1, 0]).unwrap(), " hi");
    assert_eq!(tok.decode_unigram(&[0, 0]).unwrap(), "hi hi");
}

#[test]
fn unigram_keeps_leading_spaces() {
    let pieces = vec![("\u{2581}".to_string(), -1.0), ("a".to_string(), -1.0)];
    let tok = Tokenizer::from_unigram(pieces, true, None, scale());
    for text in ["a", " a", "  a a ", ""] {
        let ids = tok.encode(text).unwrap();
        assert_eq!(tok.decode(&ids).unwrap(), text);
    }
}
