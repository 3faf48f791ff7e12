# sllm_core

A gradient-free, CPU-only n-gram language model, with its core written in
Verus: every function under `src/` carries a contract that Verus proves.

## Layout

- `src/tokenizer/`: code-aware pre-tokenization, the vocabulary with its
  special tokens, BPE encoding and decoding, training of merge rules, and the
  byte layout of vocabularies and tokenizers. Proved: decoding an encoding
  gives the text back (for characters the vocabulary knows), and so does a
  freshly trained tokenizer on its own corpus; serialized vocabularies and
  tokenizers read back unchanged.
- `src/brain/`: Hebbian count tables (update, pruning, eviction over budget,
  ranking, byte layout), the n-gram brain over orders 2 to 5, and a
  count-min sketch with its own hasher. Proved: the counts a table holds
  after a sequence of updates, what pruning keeps, that a sketch never
  underestimates, and that tables and brains read back from their bytes.
- `src/format/`: the `brain.sllm` file: header, writer and reader. Proved:
  reading a written file gives back its header, tokenizer and brain, and the
  checksum computed on reading matches the recorded one.
- `src/rag/`: an in-memory snippet store and a word-matching text index.
- `src/curriculum.rs`, `src/eval.rs`, `src/progress.rs`, `src/training.rs`:
  training phases, which files they read, held-out lines and prompts for
  evaluation, sanity checks of generations, the phase bookkeeping of a
  training run, and the training loop's decisions (which files are trained
  on, when a checkpoint is written, the consolidation pass).
- `src/text.rs`, `src/bytes.rs`: character and little-endian byte helpers.
- `app/`: the command-line tool, the training engine, the HTTP inference
  server, and the floating-point parts (probabilities, sampling,
  perplexity), which Verus does not reason about.
- `tests/`: tests of the library on concrete values.

Calls into std's Unicode tables (`char::is_alphabetic`, `str::to_lowercase`),
`std::str::from_utf8` and `crc32fast::hash` are the library's trusted items;
each one's contract is stated in its doc comment. The CRC-32 they compute is
written out as a spec function, and the White_Space test is verified code.
