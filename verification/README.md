# bpe_tokenizer

A byte-pair-encoding tokenizer whose logic is verified with Verus.

`src/` is the verified library:

- `text` — characters of strings, whitespace, words, lines, fields, markers, trimming, decimal numerals.
- `token` — tokens and pairs of tokens.
- `vocabulary` — a vocabulary of distinct tokens, each indexed by its position.
- `counts` — a table of pair counts, its tally and the rule by which counts are carried over a merge.
- `training` — what training learns: the starting vocabulary, the pairs counted, the merge sequence.
- `bpe` — training, encoding and decoding.
- `round_trip` — decoding the encoding of a text without the end-of-word marker gives its words joined by single spaces.
- `bisection` — the decisions of the search for a number of merges, driven by scores measured outside.
- `model` — the token table of the language model: tokens to ids and back.
- `tokenizer`, `evaluator`, `optimizer`, `storage`, `config`, `error` — the tokenizer and its tools.

`app/` holds what computes in floating point or touches files: the transformer of the
language model, random embeddings, pruning by coverage, evaluation scores, the score comparisons
that drive the bisection, and saving and loading a vocabulary.
