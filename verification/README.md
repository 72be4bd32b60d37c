# unpdf

A verified core for reading PDF files. Every function in `src/` has a contract that Verus
proves; `app/` holds the part that talks to a model over the network.

- `src/parser/raw/` reads a file: tokens and objects, cross-reference tables and streams,
  object streams, stream filters, encryption (revisions 2 to 4) and the page tree.
- `src/parser/dedup.rs` collapses images whose bytes are identical.
- `src/parser/test_pdf.rs` assembles small files.
- `src/model.rs` is the document that pages are assembled into.
- `src/ai_wiring.rs` decides which images a model is asked about, what is sent along, and what
  its answers do to the pages.

Files that end in `_laws.rs` state and prove what holds across several functions: that nothing
is lost in silence when a file is loaded, that a password which is not needed changes nothing,
that each page is listed once and in document order, that an assembled file is read back, along
with the entries appended to its trailer as long as they name no older table.

What is not proved is stated at the functions that call other crates: MD5, RC4 and AES in
`src/parser/raw/cipher.rs`, zlib in `src/parser/raw/stream.rs`, and UTF-8 decoding in
`src/parser/raw/document.rs`.
