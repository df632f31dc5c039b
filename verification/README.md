# expr — a verified expression language

A small, pure expression language — integers, booleans, strings, enum variants, sets,
intervals, lambdas and a few built-in functions — with a tokenizer, a Pratt parser and an
evaluator, all verified with Verus.

## Layout

- `src/token.rs` — tokens and `tokenize`, proved against the lexical grammar `lex`, whose
  positions count characters; the tokens' spans are those positions as byte offsets into the
  source (`byte_offset`, over vstd's `encode_utf8`). `tokenize_checked` also reports a number
  that does not fit an `i64`.
- `src/parser.rs` — the grammar as functions on token sequences (`parse_prec` and friends)
  and the `Parser`, whose methods are proved to follow it.
- `src/ast.rs`, `src/value.rs`, `src/error.rs` — syntax trees, runtime values, errors, and
  their mathematical forms.
- `src/runtime.rs` — the `Env` trait through which evaluation asks for names, fields, enum
  types, orders, semirings, lattices and collections, and the model of its replies. Each
  method of `Env` ensures `answers(question, answer)`, a relation that an implementation may
  define to say what its answers are (by default it holds of every answer).
- `src/semantics.rs` — what evaluation computes (`eval_m`), as functions on models. An
  evaluation's exchanges with its environment are a sequence of replies (`EnvReply`), each a
  question and an answer; the semantics reads them in order, and a reply to a question other
  than the one it asks leaves it no replies to go on with. Nested lambda calls carry a budget,
  which a top-level evaluation starts at `u64::MAX`.
- `src/eval.rs`, `src/builtins.rs`, `src/quantifier.rs` — the evaluator, the built-in
  functions (`map`, `filter`, `fold`, `reduce_meet`, `reduce_join`, `reduce_semiring`) and the
  quantifiers. Each function returns its exchanges with the environment and is proved to give
  what the semantics gives on them, for every continuation, so the recorded questions are
  those the semantics asks, in order; each recorded answer is proved to be one that
  `env.answers` admits for its question.
- `src/properties.rs` — properties proved of the language as a whole: interval and set
  membership, division, comparisons, set equality (two-way containment wherever value
  equality is an equivalence), the order that set operations keep, quantifier duality (both
  ways), pipelines as calls, distinct captured names, the built-ins, tokenization (tokens
  cover the source, and each lexes alone from its span), operator precedence, parsing
  progress, and that literal expressions need no environment.
- `src/text.rs` — string helpers.

Two items are trusted: `text::push_char` (wrapping `String::push`) and
`semantics::str_debug_text` (wrapping `format!("{:?}", ..)` on a string slice, whose quoted
and escaped text is named `str_debug`). The debug text of a type tag is built from it by
verified code.
