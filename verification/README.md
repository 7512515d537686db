# textparse

Text extraction from the digital text layer of PDF files.

The library (`src/`) is written and proved in Verus. It

- loads a document and repairs the two malformations that cost a readable file
  its text: cross-reference entries that are a byte short, and stream lengths
  that disagree with the data (`repair`, `document`);
- decodes streams filter by filter and puts together what belongs to a page, its
  content and its resources (`filters`, `page_parts`);
- resolves fonts to tables from codes to text and advances (`font`, `cmap`,
  `encoding`, `names`, `widths`);
- finds the display box of a page (`page_box`) and runs its content into glyphs
  (`machine`, `content`);
- assembles text cells of pages and judges the layer as a whole (`cells`,
  `pages`).

`pdf` is the boundary to the document reader; everything that is believed without
proof of the reader stands there. The reader does not come back from some inputs:
it adds numbers of the file without a check, and it follows stream lengths, object
streams and the page tree by calls within calls. What may be such input is looked
for before a call and is not handed over:

- a file, by `loading` and `tables`: it is refused as a whole;
- a stream, by `filters`: it has no data;
- the content of a page, by `images` and `page_parts`: it has no operations, or is
  empty;
- a page with more than a thousand ancestors, by `page_parts`: it has no resources.

The look is at the bytes, over the tokens of `tokens`, and may take some input for
such that is not.

What holds of every page stands in `laws` and `form_laws`, what holds of the repairs
in `repair`, `length_laws` and `padding_laws`.

Numbers of a document stay as they are written, reals as the bits of their
single-precision value, and matrices stay chains of steps (`number`, `matrix`).
`app/` works them out in floating point and offers the text layer in page
coordinates. How glyphs are grouped into lines and words, and the advances of the
built-in faces, are the caller's.
