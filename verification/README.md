# stele_engine

The core of an input method: keys go in, candidates and committed text come
out. Everything under `src/` is verified with Verus.

- `regex`, `spelling`, `lexicon`, `translator`: how what is typed is read and
  looked up.
- `segmentor`, `punctuator`, `inline`, `filter`, `ranking`: the parts of an
  input, punctuation, dates and numbers, and the order of candidates.
- `processor`, `state`, `pipeline`: what a key does, and how one round of
  candidates is put together.
- `scheme`, `registry`, `spec`, `builtin`: input methods as data.
- `engine`: schemes and sessions.
- `memory`: the file that keeps what was learned.

The laws that several functions keep together are public proof functions beside
the functions they speak of; those of a whole round are in `pipeline::laws`.

What the library cannot hold stands in `app/`: floating-point weights, the
clock, random numbers, files, error types with the standard traits, and what a
session asks of memories and rankers.
