# flip

The decisions of a layer-streaming inference engine, written in Verus: the functions in `src/`
carry contracts, and Verus proves them. What it believes without proof is this:

- `src/text.rs`: `debug_text` and `debug_char` (std's `Debug` of a text and of a character),
  `text_of_bytes` (std's lossy reading of UTF-8), and std's `String::push`;
- `src/tokenizer/byte_map.rs`: std's `char::from_u32`;
- `src/tokenizer/load.rs`: `parse_vocab` (`serde_json` reading a vocabulary);
- `src/error.rs`: `serde_json`'s error type, of which nothing is claimed;
- `src/forward/kernel.rs`: what a model's own implementation of `ComputeKernel` promises.

The parts:

- `src/tokenizer/`: the byte-level BPE tokenizer and its Unigram mode. `round_trip.rs` and
  `unigram_laws.rs` state what decoding gives back and which segmentation is chosen.
- `src/generate.rs`, `src/batching/`, `src/speculative.rs`: generation one token at a time, many
  requests at once, and with a draft model. Interleaved requests get what they get alone;
  speculative decoding gives exactly what the target picks.
- `src/distributed/`: the wire protocol and the workers.
- `src/model/`, `src/loader.rs`, `src/storage/`, `src/forward/`, `src/cache.rs`: configurations,
  checkpoints and shapes.
- `src/memory/`, `src/cuda.rs`: pages and device memory.
- `app/`: files, sockets, the operating system and floating point, around the library.
- `tests/`: the library at work on concrete values.

Floats are kept as their bits in `src/`; scores of the Unigram mode are any type with `+`, `==`
and `<`.
