# freepdf

The verified core of an offline paper-to-PDF scanner and its passage translator,
written in Verus. The functions in `src/` carry contracts that Verus proves; the
few small functions that hand work to the `image` crate (marked
`#[verifier::external_body]`) carry contracts that are taken on trust from that
crate's source and documentation.

- `src/jpeg/` rebuilds a baseline JPEG's Huffman tables from the page's own symbol
  counts. `recode::rehuff` is the entry point; `reread` and `replay` hold the proof
  that the rewritten file parses to the same frame and its scan reads back the very
  same symbols and raw bits, so it decodes to the same pixels. `header` reads a
  JPEG's size and greyness from its header.
- `src/page/` holds the page settings (quality rungs), the brightness levels the
  tools suggest, the sheet mask, the flood fills and histograms the paper finder is
  built on, and the picture tools (turning, cutting, greying, fitting a page to its
  size, encoding it) that hand the pixel work to the `image` crate.
- `src/words/` cuts a document into passages and puts the translations back, knows
  the languages, builds the prompt and reads the model's answer.
- `src/text.rs` writes the numbers and sentences the errors carry.

`app/` is the command-line runner, the C entry points, the file and process I/O and
the floating-point image geometry; it calls the library and is not verified.
`tests/` runs the library on concrete pages, documents and settings.
