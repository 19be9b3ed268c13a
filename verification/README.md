# pgen_grammar

A verified grammar-analysis library for a PEG-style parser generator, written in Verus.

The library lints grammars (non-termination, unreachable and lookahead-only rules, undefined
references, nullable repetition, left recursion, ordered-choice shadowing, `@profiles` orphans,
unbound fact kinds), issues certificates for its unreachability verdicts together with an
independent checker for each, surveys indirect left recursion and eliminates it by the chain rewrite, parses
grouped quantifier token streams, and encodes and decodes the JSON artifacts that carry facts
from one compilation to the next. Every public function has a contract over a mathematical model
of the grammar, and the properties that tie functions together are proved as lemmas.

## Layout

- `src/ast.rs`, `src/names.rs`, `src/text.rs`, `src/order.rs`, `src/graph.rs`,
  `src/fixpoint.rs`, `src/walk.rs` — the grammar IR and its model, name collections, report
  text, orderings, graph closure, least fixpoints over rule bodies, per-site walks.
- `src/wellformed.rs`, `src/left_rec.rs`, `src/shadowing.rs`, `src/facts.rs`,
  `src/annotations.rs` — the lints.
- `src/certificates.rs`, `src/profile_proof.rs` — certificates, their checkers, reachability
  witnesses, coverage, and the per-profile residual classification.
- `src/lr_plan.rs`, `src/elimination.rs`, `src/return_ast.rs` — the indirect left-recursion
  survey and the elimination pass: each starvation-safe cycle is rewritten at its best-ranked base
  rule `X` into `X := X_lr_base ( X_lr_suffix )*` with one sheared clone per intermediate, the
  route annotations are composed into the chain-fold template, and every rewrite is tried on a
  copy and kept only when the left-recursion lint shows `X` no longer left-recursive and fewer
  left-recursive rows. The pass admits starvation-safe candidates only, so it never synthesizes
  call-site guards; the guard-feasible dry run, the guard chains and the chain-template validation
  of the fold are not part of this library, and neither are lexical follow restrictions.
- `src/grouped.rs`, `src/generator.rs` — the grouped quantifier parser and the parser
  generator's configuration. The generator's code emission is not part of this library: it is
  written against another form of the grammar IR (JSON token parts, no lookahead nodes, string
  annotations) and against the return-annotation handler and pipeline, which this library does
  not have.
- `src/library.rs`, `src/artifact_text.rs` — fact records, the artifact JSON documents, and their
  text through `serde_json`.
- `app/` — file I/O around the library: loading grammars, writing and reading artifact files.
- `tests/` — executable tests of the library.
