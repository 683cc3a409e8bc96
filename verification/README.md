# vid

The front end of Vid, a small language for describing videos: source
modules and packages, the tokenizer, token streams, interned names,
diagnostics, the parser (expressions with their operator precedence,
definitions, values and types), types and their conversions, and the first
checks of a codebase.
Everything under `src/` is verified with Verus; contracts are stated over
mathematical models (sequences of tokens and characters, maps of pool
entries, and models of messages and types).

Layout:

- `src/utils` – character classes, decimal text, a lookahead iterator.
- `src/pools` – the module tree (`Modules`, spans, the source iterator), the
  pools of names, expressions and items (slot maps and a string interner
  behind trusted wrappers).
- `src/entities` – diagnostics (`Messages`), a plain name table and a
  registry of source files and in-memory sources.
- `src/tokens` – tokens, the tokenizer (`Token::parse`) and token streams.
- `src/ast` – expressions and their structural comparison, intrinsics, the
  character-window tokenizer used by the source registry, and the parser:
  identifier paths, comma lists and `using` paths, and (in `parser.rs`)
  expressions, definitions, values, types and whole modules. Each parsing
  function is proved to read a suffix of its tokens, to make progress, to
  only add to the expression pool (never more than the size of what it
  read allows) and to hand back expressions of the pool.
- `src/codebase` – packages, their `vid.toml` configuration, and the
  `Codebase` that holds all pools.
- `src/check` – types and conversions, items, and the checker (its item
  tree, `add_item` and the checking of expressions).
- `app/` – the command-line program: reading packages from disk, `vid.toml`
  with serde/toml, clap, parsing every module, and printing diagnostics.
- `tests/` – tests run against the compiled library.
