# Provence

Prunes contexts to the sentences that help to answer a question, and ranks them,
with the Provence reranker network. The rules are verified with
[Verus](https://github.com/verus-lang/verus); the network itself runs in
[candle](https://github.com/huggingface/candle).

This repository contains only inference code. It does not include any model
weights; those of the Provence model are under a CC BY-NC-ND 4.0 license.

- `src/` is the verified library. `batch` and `process` answer questions, and
  `agreement` says what requests have in common;
  `prepare` and `length` bring requests into shape; `wording` normalises
  questions and builds inputs; `encoding` calls the tokenizer; `sentences`,
  `spans`, `rounding` and `pruning` choose the sentences that stay; `selection`
  picks their tokens; `ranking` orders the answers; `labels` and `device` help
  to set a model up.
- `tests/` runs the library.
- `app/` ties the library to candle: tensors, floating-point arithmetic and
  printing.

Numbers of the network are held by their bits (`score`): the library compares
them, and hands sums and quotients to functions that it is given.

Sentences are found with the Punkt algorithm of the crate `punkt_n`, or by their
closing marks. `punkt_n` is a fork of `punkt` that keeps its interface and
builds with a stable compiler, where `punkt` asks for a nightly one.
