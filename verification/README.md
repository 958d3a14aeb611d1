# lox

A front end for the Lox language of *Crafting Interpreters*, with a
Wadler-style pretty printer, written in Verus: every function of the library
carries a contract that Verus proves.

## Layout

- `src/parse/` — the language front end.
  - `position.rs`, `token.rs`: source positions and tokens.
  - `lex/scan.rs`: the scanner (nested `/* */` comments, `//` comments,
    escapes in strings). `scan` is proved equal to `scan_spec`, a definition
    of the token stream by the lexical rules; `law_scan_tokens` proves that
    the stream ends with the end-of-file token and that every other token is
    the piece of the text at its position; `law_scan_positions` that every
    token stands at the line (one more than the newlines before it) and the
    column of its offset; `law_scan_keeps_text` that without errors no
    character other than white space is lost.
  - `parse/parser.rs`: a recursive-descent parser of expressions (sequence,
    conditional, equality, comparison, term, factor, unary, primary),
    proved equal to `parse_spec`, the grammar written as precedence levels.
  - `lex/err.rs`, `parse/err.rs`, `report.rs`: errors and what their
    reports show.
  - `ast/expr.rs`: expressions and their text.
- `src/driver.rs`: scanning a source text, then parsing its tokens with the
  comments left out.
- `src/parse/roundtrip.rs`: `law_print_then_read`: the printed text of an
  expression read from a source text scans and parses back to the same
  expression.
- `src/format/pretty.rs`: documents, `flatten`, `group`, `fill`, `prose`,
  `bracket` and the layout algorithm `be`/`best`, with laws: flattening is
  idempotent, a flat document stays on one line, a group is flat exactly
  where it fits, and every combinator keeps the invariant that both sides of
  a choice have the same flat form.
- `src/format/laws.rs`: laws of the layout: it keeps the flat text and only
  moves line breaks, a document without choices lays out the same at every
  width, at width 0 every choice takes its second alternative, and the flat
  text of a fill is its parts joined by spaces.
- `src/format/html.rs`: XML trees laid out with the pretty printer.
- `src/lex.rs`, `src/ast.rs`: a simpler scanner, whose tokens carry a line and
  a column (`scan_checked` tells where a block comment is never closed), and
  the operators of a simple syntax tree.
- `app/`: the `lox` command (reading files or a prompt, printing reports
  with `ariadne`).
- `tests/`: tests of the library.
