# spritore

Deterministic MapLibre sprite generation: rasterized icons are deduplicated,
packed into one sheet, encoded as PNG, and described by a JSON index. The
same set of icons gives the same bytes in any order and on any platform.

The library in `src/` is verified with Verus:

- `sheet` — icons, errors, deduplication and `build_sprite_sheet`, whose
  contract gives the PNG file and the index exactly; it also holds the laws
  that identical icons share an entry and that every icon's pixels sit on the
  canvas at its entry.
- `permutation` — the laws that the order of the icons does not matter,
  and that the order of rectangles with distinct height and id does not
  change the packing.
- `potpack` — rectangle packing, with the law that packed rectangles never
  overlap and stay inside the sheet.
- `canvas` — drawing an icon onto the RGBA canvas.
- `png` — CRC-32, scanline filters, palette detection and the PNG file;
  compression calls `miniz_oxide` and `zopfli`; the fast and thorough
  files differ only in the compressed image data, and unfiltering the image
  data and looking up the palette gives the pixels back.
- `index` and `json` — the ordered sprite index and its pretty JSON.
- `order` — byte-wise string order and a stable sort.
- `render` — straight alpha for a rendered pixmap (through `tiny-skia`).
- `cli` — the command's decisions: ratios, output names, icon ids.

`app/` is the `spritore build` command: it reads SVG files, renders them with
`resvg`, and writes the sheets.
