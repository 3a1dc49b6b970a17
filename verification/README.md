# aso_loop

Checks, scores and revises app store listing copy (title, subtitle, keywords, description).

- `src/` is the library. Its functions are verified with Verus against their contracts, but for
  what it takes from outside, named below. It holds the description of a listing and its
  validation, the checks that need no model, the prompts and the schema that models are given, what
  becomes of their answers, and the decisions of the loop that writes, scores and revises.
- `app/` is ordinary Rust around it: files, models, and floating-point arithmetic. The library keeps
  scores by their bits and orders them; sums, means and their printed forms come from `app/`.
- `tests/` runs the library.

Seven contracts are trusted, not proved:

- `is_pattern`, `find` and `find_all` in `src/pattern.rs`, which call the `regex` crate;
- those of `char::is_whitespace`, `char::is_alphanumeric`, `str::to_lowercase` and `String::push`
  in `src/text.rs`, which are the standard library's.
