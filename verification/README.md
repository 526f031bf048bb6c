# oyomi

Render Office documents (xlsx, docx, pptx) as deterministic text, one keyed
line per cell, row, paragraph or slide paragraph, so that `git diff` pairs
the lines of two versions up. With `--row` the keys carry no position, so
inserting a row or a paragraph adds its own line and changes no other.
Pictures and embedded objects get a line each too, fingerprinted by the
size and CRC-32 that the package records (`media<TAB>word/media/image1.png
<TAB>48213<TAB>crc32:9a3f1c22`; with `--row` only the extension is kept and
the lines come in fingerprint order; with `--list` one line counts them).

## Layout

- `src/` is the library, verified with Verus.
  - `options.rs`: the command line and the key scheme it selects.
  - `dispatch.rs`: the renderer that a file's extension selects, and one
    whole invocation (output, message, exit code).
  - `sheet.rs`: spreadsheets, from a workbook whose cells are already text.
  - `word.rs`: docx bodies, from the events of `word/document.xml`.
  - `slides.rs`: pptx slides and notes, ordered by slide number.
  - `media.rs`: pictures and embedded objects of a package.
  - `sort.rs`: the stable sort by key that slides and pictures share.
  - `xml.rs`: XML text as a list of events, read with quick-xml.
  - `package.rs`: parts of a zip package, read with the zip crate.
  - `text.rs`: escaping, trimming, decimal and column numbering.
- `app/` is the program around it: it reads the file (a workbook through
  calamine, or the bytes of a package), hands it to the library and writes
  what comes back. Cell values that calamine gives as floating point are
  turned into text there.
- `tests/` exercises the library on generated packages and on models of
  workbooks.

Every public function of the library states its result exactly over spec
functions, and the properties that make the output diff well (a row or
paragraph inserted under content keys adds only its own line, both key
schemes write the same paragraphs, an escaped value stays on one line and
can be read back, slides come out in slide order with their notes after
them, renumbering a picture changes no content-keyed line, a whole argument
reads the same wherever it stands) are proved as lemmas beside the code
they speak of.
