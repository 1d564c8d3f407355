# gpt2

A small GPT-2 text generator whose non-numeric parts are verified with Verus.

- `src/` is the verified library:
  - `buckets`: an index from integer keys to the positions that carry
    them, which the tokenizer uses to find merge rules and vocabulary
    entries without scanning every one;
  - `sampler`: the xorshift64 random number generator and the stable top-k
    ranking used for sampling;
  - `tokenizer`: GPT-2's byte-level BPE tokenizer (byte table, merges.txt,
    vocab.json, BPE, encode, decode) and its laws, among them the
    encode/decode round trip, which holds when no two vocabulary entries
    share an id, the pre-split pattern's pieces cover the text and every
    token is in the vocabulary (`encode_reversible` checks all three);
  - `safetensors`: framing of a safetensors file, checking of its header
    entries, and cutting a tensor's bytes out of the data;
  - `model`: which tensors a GPT-2 small checkpoint holds, with their
    shapes and in the order they are read; the KV cache's bookkeeping (a row of keys and of values per
    block for every stored token) and the decisions of the generation loop,
    which keeps at most `max_new` and at most 1025 minus the prompt's length
    new ids, none of them the end-of-text token.
- `app/` is the program around it: file I/O, JSON decoding of the
  safetensors header, and all floating-point work (the transformer's
  operations, softmax, sampling's die roll).
- `tests/` exercises the library.
