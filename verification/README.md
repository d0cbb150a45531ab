# x86md

Extracts the text and tables of the Intel Software Developer's Manual from
the pages of its PDF, as headings, paragraphs, code listings and tables.

- `src/` is the verified library: loading the document (`pdf`), the page
  model and the font roles remembered per font and scale (`render`),
  joining glyph fragments into spans (`fragments`), reducing ruling lines
  to the leftmost spans (`vertical`), merging the lines of paragraphs
  (`paragraphs`), and turning lines into blocks and pages into docs
  (`analyze`).
- `app/` is the command-line program: it reads the PDF, drives hayro's
  interpreter over each page and hands the glyphs and ruling lines it draws
  to the library.
- `tests/` exercises the library on concrete pages.
