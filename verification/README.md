# jra_scraper

Reads pages of the Japan Racing Association's web site and prints what they
show as JSON: the graded races of a year (`grade-race [YEAR]`), the entry lists
of the coming races (`wakuban`) and the results of the latest races (`result`).

- `src/` is the library, verified with Verus. Each reader (`graderace`,
  `wakuban`, `result`, and the race-list reader in `common`) requires a page
  that holds every part it needs and returns the value that its spec function
  describes; beside it, a `try_` reader takes any page and returns `None`
  exactly when a part is missing. The HTML parser (`scraper`), regular expressions
  (`regex`), date parsing (`chrono`) and Shift_JIS decoding (`encoding_rs`) are
  reached through the trusted wrappers in `dom`, `common` and `graderace`,
  whose results are named by uninterpreted spec functions.
- `app/` is the program: command line, HTTP requests and JSON output.
- `tests/` runs the readers on sample pages.
