# rusty_alto

Bottom-up tree automata and interpreted regular tree grammars (IRTGs), written in Verus:
every function of the library has a contract that the verifier proves, but for the four of
`ParseControl` (`new`, `cancel`, `is_cancelled`, `check`). They read and set a flag that other
threads share, so nothing is claimed of what they return; parsing is proved for every answer.

## Layout

- `src/` is the library.
  - `ids`, `signature`, `interner`, `traits`, `explicit`, `builder`: tree automata and how they
    are built. `trim_laws`: what trimming keeps. `combinators/`: products, images and
    determinization.
  - `homomorphism`, `terms`, `apply`: tree homomorphisms.
  - `irtg/`: grammars with interpretations, parsing and filtering of charts.
  - `finite_language/`, `language_analysis`, `language_cardinality`: what an automaton accepts,
    enumerated and counted.
  - `heuristic`, `estimate/`, `obligations/`: bounds for best-first search.
  - `corpus`, `corpus_writer`, `codec`, `output`, `codecs/tulipac/`: corpora and file formats.
  - `bench/`, `evaluation/`, `replay/`, `intersection/`: workloads and what is measured on them.
  - `messages`, `codecs/tulipac/messages`: the texts of errors.
- `tests/` runs the library on concrete values.
- `app/` is the command line: files, timing and floating-point output.

## Laws

Properties that span several functions are public proof functions whose names start with
`law_`, for example `irtg::parse::law_parse_chart` (a parse chart holds exactly the derivations
whose images all inputs accept) and `corpus_laws::law_header_reads_back`.

## What is trusted

Calls into other crates and into parts of the standard library stand behind functions marked
`external_body` and behind `assume_specification` items. Each says in its doc comment what it
calls and what is claimed of it. They are in `arena`, `tables`, `text`, `codec` and `quoting`.
