# c0m

The front end of C0m, an IR-free compiler for the Suda language, as a
verified library.

- `lexer` — `tokenize` turns source text into tokens with byte-exact spans;
  its result is proved equal to the specification `lex_spec::lex` over the
  source's UTF-8 bytes. A Unicode bidirectional control character outside a
  string literal is a lexing error (Trojan Source); `contains_bidi_control`
  finds them anywhere.
- `bidi` — the bidirectional control characters and their UTF-8 encodings.
- `lex_laws` — properties of every successful lexing: the list ends with
  `Eof`, spans are ordered and carry their own line and column, identifiers
  and literals spell their bytes, non-ASCII bytes only occur in string and
  character literals and comments, and bidirectional controls only in string
  literals; plus round trips for quoted chars and escaped strings.
- `span` — `SourceSpan` and its FNV-1a key for the pattern memory.
- `ast`, `arena` — AST nodes and the arena that owns them.
- `dos`, `emitter`, `oracle` — shared types of the later pipeline stages.

`app/` holds the command-line driver and the floating-point parts of the
pipeline (weight combination and tiers, the pattern memory), which the
library does not model.
