# summit_breeze

A verified SMT-LIB front end and the logic of a language server for it:
a lexer, a recursive-descent parser with error recovery, a scope-aware
symbol index, and the document model that answers go-to-definition,
find-references, outline and folding requests.

## Layout

- `src/lexer.rs`: tokens and the lexer, specified against a byte-level
  scanner (`spec_tokenize`); laws on what tokenizing keeps and covers.
- `src/grammar.rs`: a recognizer of well-formed SMT-LIB input over tokens;
  the parser is proved to give no diagnostic on a well-formed script and, on
  an input without lexing errors, a diagnostic whenever it is not one.
- `src/reading.rs`: what each syntax-tree node reads from the tokens; the
  parser's results are proved to be what the tokens read as.
- `src/parser.rs`: the parser. `parse` states, in `parsed_as`, where each
  command comes from, what it holds, when no diagnostic is owed, and what
  error recovery keeps: a malformed command is skipped through the `)` that
  closes it, so every well-formed command, before or after it, is kept and read
  exactly; a command left open at the end of the input, after well-formed
  ones, is kept, with one diagnostic at the end.
- `src/symbols.rs`: the symbol index (definitions, references, push/pop
  pairs, command outline) as a fold over the commands, with resolution by
  scope, go-to-definition and find-references.
- `src/document.rs`: a document (text, parse, index, line starts), offset
  and position conversions with their round-trip laws, and the editor
  requests.
- `app/`: the language server itself (stdio transport, the document store
  shared across requests, conversion to the protocol's types).

Run the tests with the crate's test harness; the library is verified with
Verus.
