//! Painting icons onto the RGBA canvas of a sprite sheet.

use vstd::arithmetic::div_mod::{lemma_fundamental_div_mod, lemma_fundamental_div_mod_converse};
use vstd::prelude::*;

verus! {

/// Byte `p` of a canvas `sheet_width` pixels wide lies in the `w` x `h`
/// pixel block whose top-left pixel is `(x, y)`.
pub open spec fn covers(sheet_width: int, x: int, y: int, w: int, h: int, p: int) -> bool {
    let q = p / 4;
    let px = q % sheet_width;
    let py = q / sheet_width;
    x <= px < x + w && y <= py < y + h
}

/// The byte of a `w`-pixel-wide icon drawn at `(x, y)` that lands on
/// canvas byte `p`.
pub open spec fn source_offset(sheet_width: int, x: int, y: int, w: int, p: int) -> int {
    let q = p / 4;
    let px = q % sheet_width;
    let py = q / sheet_width;
    ((py - y) * w + (px - x)) * 4 + p % 4
}

/// The canvas after drawing the `w` x `h` RGBA `pixels` at `(x, y)`.
pub open spec fn paint(canvas: Seq<u8>, sheet_width: int, pixels: Seq<u8>, x: int, y: int, w: int, h: int) -> Seq<u8> {
    Seq::new(
        canvas.len(),
        |p: int|
            if covers(sheet_width, x, y, w, h, p) {
                pixels[source_offset(sheet_width, x, y, w, p)]
            } else {
                canvas[p]
            },
    )
}

/// Canvas byte `p` has been drawn once the first `row` rows and the first
/// `col` bytes of the next row are done.
pub open spec fn drawn(sheet_width: int, x: int, y: int, w: int, row: int, col: int, p: int) -> bool {
    let q = p / 4;
    let px = q % sheet_width;
    let py = q / sheet_width;
    covers(sheet_width, x, y, w, row, p) || (py == y + row && x <= px && (px - x) * 4 + p % 4 < col)
}

proof fn lemma_decode(sheet_width: int, a: int, b: int, c: int)
    requires
        sheet_width > 0,
        0 <= a < sheet_width,
        0 <= b,
        0 <= c < 4,
    ensures
        ((b * sheet_width + a) * 4 + c) / 4 == b * sheet_width + a,
        ((b * sheet_width + a) * 4 + c) % 4 == c,
        (b * sheet_width + a) % sheet_width == a,
        (b * sheet_width + a) / sheet_width == b,
{
    lemma_fundamental_div_mod_converse((b * sheet_width + a) * 4 + c, 4, b * sheet_width + a, c);
    lemma_fundamental_div_mod_converse(b * sheet_width + a, sheet_width, b, a);
}

proof fn lemma_encode(sheet_width: int, p: int)
    requires
        sheet_width > 0,
        0 <= p,
    ensures
        p == ((p / 4) / sheet_width * sheet_width + (p / 4) % sheet_width) * 4 + p % 4,
        0 <= (p / 4) % sheet_width < sheet_width,
        0 <= (p / 4) / sheet_width,
        0 <= p % 4 < 4,
{
    lemma_fundamental_div_mod(p, 4);
    lemma_fundamental_div_mod(p / 4, sheet_width);
    assert((p / 4) / sheet_width * sheet_width == sheet_width * ((p / 4) / sheet_width)) by (nonlinear_arith);
}

/// Draws the `width` x `height` RGBA `pixels` onto `canvas` with their
/// top-left pixel at `(x, y)`.
pub fn paint_pixels(
    canvas: &mut Vec<u8>,
    sheet_width: usize,
    pixels: &[u8],
    width: usize,
    height: usize,
    x: usize,
    y: usize,
)
    requires
        sheet_width > 0,
        x + width <= sheet_width,
        (y + height) * sheet_width * 4 <= old(canvas).len(),
        sheet_width * 4 <= old(canvas).len(),
        width * height * 4 <= pixels.len(),
    ensures
        final(canvas)@ == paint(
            old(canvas)@,
            sheet_width as int,
            pixels@,
            x as int,
            y as int,
            width as int,
            height as int,
        ),
{
    let ghost base = old(canvas)@;
    let ghost wd = sheet_width as int;
    let stride = width * 4;
    assert(width * 4 <= sheet_width * 4);
    let mut row: usize = 0;
    while row < height
        invariant
            row <= height,
            sheet_width > 0,
            wd == sheet_width,
            stride == width * 4,
            x + width <= sheet_width,
            (y + height) * sheet_width * 4 <= canvas.len(),
            width * height * 4 <= pixels.len(),
            canvas.len() == base.len(),
            forall|p: int|
                0 <= p < canvas.len() ==> #[trigger] canvas@[p] == (if drawn(wd, x as int, y as int, width as int, row as int, 0, p) {
                    pixels@[source_offset(wd, x as int, y as int, width as int, p)]
                } else {
                    base[p]
                }),
        decreases height - row,
    {
        assert((y + row + 1) * sheet_width * 4 <= (y + height) * sheet_width * 4) by (nonlinear_arith)
            requires
                row + 1 <= height,
        ;
        assert(((y + row) * sheet_width + x) * 4 + width * 4 <= (y + row + 1) * sheet_width * 4)
            by (nonlinear_arith)
            requires
                x + width <= sheet_width,
        ;
        assert((y + row) * sheet_width <= ((y + row) * sheet_width + x) * 4) by (nonlinear_arith);
        assert(y + row < (y + row + 1) * sheet_width * 4) by (nonlinear_arith)
            requires
                sheet_width > 0,
        ;
        assert(row * stride + stride <= width * height * 4) by (nonlinear_arith)
            requires
                row + 1 <= height,
                stride == width * 4,
        ;
        let dest_start = ((y + row) * sheet_width + x) * 4;
        let source_start = row * stride;
        let mut col: usize = 0;
        while col < stride
            invariant
                col <= stride,
                row < height,
                sheet_width > 0,
                wd == sheet_width,
                stride == width * 4,
                x + width <= sheet_width,
                (y + row + 1) * sheet_width * 4 <= canvas.len(),
                row * stride + stride <= pixels.len(),
                dest_start == ((y + row) * sheet_width + x) * 4,
                source_start == row * stride,
                canvas.len() == base.len(),
                forall|p: int|
                    0 <= p < canvas.len() ==> #[trigger] canvas@[p] == (if drawn(wd, x as int, y as int, width as int, row as int, col as int, p) {
                        pixels@[source_offset(wd, x as int, y as int, width as int, p)]
                    } else {
                        base[p]
                    }),
            decreases stride - col,
        {
            let ghost a: int = x + col / 4;
            let ghost b: int = y + row;
            let ghost c: int = (col % 4) as int;
            proof {
                assert(col / 4 < width);
                assert(col == (col / 4) * 4 + col % 4);
                assert(dest_start + col == (b * wd + a) * 4 + c) by (nonlinear_arith)
                    requires
                        dest_start == ((y + row) * wd + x) * 4,
                        col == (col / 4) * 4 + col % 4,
                        a == x + col / 4,
                        b == y + row,
                        c == col % 4,
                ;
                assert((b * wd + a) * 4 + c < (b + 1) * wd * 4) by (nonlinear_arith)
                    requires
                        a < wd,
                        c < 4,
                ;
                lemma_decode(wd, a, b, c);
            }
            let d = dest_start + col;
            let value = pixels[source_start + col];
            proof {
                let p0 = d as int;
                assert(source_offset(wd, x as int, y as int, width as int, p0) == source_start + col) by (nonlinear_arith)
                    requires
                        source_offset(wd, x as int, y as int, width as int, p0) == ((b - y) * width + (a - x)) * 4 + c,
                        b - y == row,
                        a - x == col / 4,
                        col == (col / 4) * 4 + c,
                        source_start == row * (width * 4),
                ;
            }
            canvas.set(d, value);
            proof {
                assert forall|p: int| 0 <= p < canvas.len() implies #[trigger] canvas@[p] == (if drawn(
                    wd,
                    x as int,
                    y as int,
                    width as int,
                    row as int,
                    col + 1,
                    p,
                ) {
                    pixels@[source_offset(wd, x as int, y as int, width as int, p)]
                } else {
                    base[p]
                }) by {
                    lemma_encode(wd, p);
                    if p != d {
                        let q = p / 4;
                        if q / wd == y + row && x <= q % wd && (q % wd - x) * 4 + p % 4 == col {
                            assert(q % wd == a && p % 4 == c) by (nonlinear_arith)
                                requires
                                    (q % wd - x) * 4 + p % 4 == col,
                                    0 <= p % 4 < 4,
                                    x <= q % wd,
                                    a == x + col / 4,
                                    c == col % 4,
                                    col == (col / 4) * 4 + col % 4,
                            ;
                            assert(p == d);
                        }
                    }
                }
            }
            col += 1;
        }
        proof {
            assert forall|p: int| 0 <= p < canvas.len() implies #[trigger] canvas@[p] == (if drawn(
                wd,
                x as int,
                y as int,
                width as int,
                row + 1,
                0,
                p,
            ) {
                pixels@[source_offset(wd, x as int, y as int, width as int, p)]
            } else {
                base[p]
            }) by {
                lemma_encode(wd, p);
                let q = p / 4;
                if q / wd == y + row && x <= q % wd && q % wd < x + width {
                    assert((q % wd - x) * 4 + p % 4 < stride) by (nonlinear_arith)
                        requires
                            q % wd - x < width,
                            p % 4 < 4,
                            stride == width * 4,
                    ;
                }
            }
        }
        row += 1;
    }
    assert(canvas@ =~= paint(base, wd, pixels@, x as int, y as int, width as int, height as int));
}

} // verus!
