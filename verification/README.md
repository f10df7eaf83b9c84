# imposer

Booklet imposition for PDF files: the pages of a document are rearranged so
that, printed on both sides of a stack of sheets and folded, they read in order.
Several source pages (2, 4, 8, ... "up") go on each side of a sheet.

The crate is written in Verus. The page-ordering rules are verified against
mathematical specifications; the PDF handling around them is ordinary Rust.

## Layout

- `src/` — the verified library.
  - `config.rs`: binding types, the accepted n-up values (powers of two from 2),
    paper sizes by name and in points, grid layouts.
  - `imposition/grid.rs`: the rows × columns grid of an n-up sheet and where
    each slot of a side is drawn.
  - `imposition/saddle_stitch.rs`: nested, folded sheets, for any n-up from
    2. The order of every side is given in closed form. Page pairs fill the
    grid two columns at a time; a grid with an odd number of columns keeps
    its last column blank and the document takes more sheets. Proved: every
    page is printed exactly once, and the number of sides is the page count
    padded to whole sheets.
  - `imposition/perfect_bound.rs`: stacked signatures, either of a fixed
    number of sheets or a fixed number of signatures with the pages shared out
    evenly (larger signatures in the centre). Proved: every page is printed
    exactly once, each signature holds a contiguous run of pages, a booklet
    that fits in one signature is the saddle stitch booklet.
  - `imposition/mod.rs`: choosing an ordering by binding, the page plan of a
    whole booklet (a signature count applies to perfect binding only; a
    document without pages or a side of fewer than two pages is refused), and
    the checks that the page numbers fit in a `usize`.
  - `document.rs`: parsing the input PDF with `lopdf` (behind trusted
    wrappers that promise nothing of the result) and planning the booklet
    from the page count read.
- `tests/` — tests run against the compiled library.
- `app/` — the command-line program and the PDF work (reading and writing PDF
  objects with `lopdf`, page geometry in floating point), calling the library
  for every ordering and grid decision.
