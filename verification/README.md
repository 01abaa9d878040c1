# my_rust_shell

A small POSIX-style shell whose parsing and bookkeeping are verified with Verus.

- `src/` is the verified library:
  - `args.rs`: splitting a line into pipeline stages, tokenizing with
    quoting context (single quotes, double quotes, backslashes, redirects,
    `&`), and `$var` / `${var}` expansion, each stated against a model of
    the scanner and proved, with laws about quoting and expansion;
  - `commands.rs`: recognising builtins and what `echo`, `type`, `pwd`,
    `cd`, `complete`, `history`, `declare` and `jobs` print or change, the
    shell's state, and how a pipeline's stages run;
  - `jobs.rs`: the background job table (numbering, status lines,
    announcements, clean-up);
  - `completer.rs`: tab-completion candidates and their order;
  - `map.rs`, `text.rs`: a string table and character-sequence utilities.
- `app/` is the interactive program: line editing (rustyline), processes,
  pipes, threads and files, calling the library for every decision.
- `tests/` runs the library on concrete inputs.
