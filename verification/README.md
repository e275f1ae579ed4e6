# bh_cmark

A small CommonMark-oriented Markdown scanner and parser (emphasis, ATX
headers, image blocks, thematic breaks, indented code) with its behaviour
stated as Verus contracts and proved.

* `src/scanner.rs`, `src/token.rs`, `src/token_type.rs`: text to tokens; the
  scanner's output is specified step by step (`scan_from`);
  `lemma_scanned_tokens` and `lemma_scanned_rebuild` prove what every token
  list it produces satisfies (one final `Eof`, merged text, positions that
  tile the source, and the source rebuilt from the lexemes, but for the
  last escape marker of an odd run that ends it).
* `src/parser/`: the block parser (`parser.rs`, with the whole parse loop
  specified by `parse_step` / `parse_from`, and every turn proved to move
  forward; `Parser::parse_checked` tests the parser's limits as it goes and
  returns `None` exactly when `parse` would leave them), the block parsers it dispatches to
  (`header.rs`, `image.rs`, `text.rs`, `code.rs`), the shared token cursor
  (`base.rs`), block detection (`block_detector.rs`) and the emphasis parser
  (`delimiter.rs`).
* `src/render/html.rs`: HTML for emphasis spans, headers, thematic breaks and
  code; removing the tags from the HTML of a text with bold and italic
  spans gives the text back (when the text holds no such tag itself).
* `src/chars.rs`: UTF-8 widths, byte slicing and decimal output; the Unicode
  `White_Space` set is listed and checked directly; alphanumeric characters
  come from `char::is_alphanumeric`.
* `app/lib.rs`: printing a parsed document.
* `tests/`: tests of every stage.
