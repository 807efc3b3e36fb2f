//! Byte-level BPE tokenizer, with a SentencePiece Unigram mode.

pub mod bpe;
pub mod byte_map;
pub mod codec;
pub mod encode_laws;
pub mod load;
pub mod merge_laws;
pub mod model;
pub mod pieces;
pub mod reading_laws;
pub mod round_trip;
pub mod score;
pub mod special;
pub mod unigram;
pub mod unigram_choice;
pub mod unigram_laws;

pub use codec::BpeTokenizer;
