//! Turning a rendered, premultiplied pixmap into an icon.

use crate::sheet::{Error, RenderedIcon};
use vstd::prelude::*;
use vstd::string::StringExecFns;

verus! {

/// What `tiny_skia::PremultipliedColorU8::demultiply` makes of the
/// premultiplied pixel `(r, g, b, a)`, as straight `(r, g, b, a)`.
pub uninterp spec fn demultiplied(r: u8, g: u8, b: u8, a: u8) -> (u8, u8, u8, u8);

/// Calls `tiny_skia::PremultipliedColorU8::demultiply` on a valid
/// premultiplied pixel (no colour channel above alpha, as
/// `PremultipliedColorU8::from_rgba` demands). Its source keeps alpha and
/// returns an opaque pixel unchanged; it divides the other channels by
/// alpha in `f64` and rounds, which the name `demultiplied` stands for.
#[verifier::external_body]
fn demultiply_pixel(r: u8, g: u8, b: u8, a: u8) -> (straight: (u8, u8, u8, u8))
    requires
        r <= a,
        g <= a,
        b <= a,
    ensures
        straight == demultiplied(r, g, b, a),
        straight.3 == a,
        a == 255 ==> straight == (r, g, b, a),
{
    let color = resvg::tiny_skia::PremultipliedColorU8::from_rgba(r, g, b, a).unwrap().demultiply();
    (color.red(), color.green(), color.blue(), color.alpha())
}

/// Every pixel of `rgba` is a valid premultiplied pixel.
pub open spec fn premultiplied_valid(rgba: Seq<u8>) -> bool {
    forall|i: int|
        0 <= i < rgba.len() / 4 ==> #[trigger] rgba[4 * i] <= rgba[4 * i + 3] && rgba[4 * i + 1] <= rgba[4 * i + 3]
            && rgba[4 * i + 2] <= rgba[4 * i + 3]
}

/// The straight-alpha pixels of the premultiplied `rgba`.
pub open spec fn straight_pixels(rgba: Seq<u8>) -> Seq<u8> {
    Seq::new(
        rgba.len(),
        |k: int|
            {
                let i = k / 4;
                let p = demultiplied(rgba[4 * i], rgba[4 * i + 1], rgba[4 * i + 2], rgba[4 * i + 3]);
                if k % 4 == 0 {
                    p.0
                } else if k % 4 == 1 {
                    p.1
                } else if k % 4 == 2 {
                    p.2
                } else {
                    p.3
                }
            },
    )
}

/// Makes the icon `id` of a rendered `width` x `height` pixmap whose
/// premultiplied RGBA bytes are `premultiplied`: an icon without pixels is
/// an error; otherwise each pixel is demultiplied to straight alpha.
pub fn straight_icon(id: &str, width: u32, height: u32, premultiplied: &[u8]) -> (r: Result<RenderedIcon, Error>)
    requires
        width > 0 && height > 0 ==> {
            &&& premultiplied@.len() == 4 * width * height
            &&& premultiplied_valid(premultiplied@)
        },
    ensures
        width == 0 || height == 0 <==> r is Err,
        r matches Err(e) ==> e matches Error::ZeroSize { id: e_id } && e_id@ == id@,
        r matches Ok(icon) ==> {
            &&& icon.id@ == id@
            &&& icon.width == width
            &&& icon.height == height
            &&& icon.pixels@ == straight_pixels(premultiplied@)
        },
{
    if width == 0 || height == 0 {
        return Err(Error::ZeroSize { id: String::from_str(id) });
    }
    let n = premultiplied.len();
    assert(n % 4 == 0) by {
        assert(n == (width * height) * 4) by (nonlinear_arith)
            requires
                n == 4 * width * height,
        ;
        vstd::arithmetic::div_mod::lemma_mod_multiples_basic(width * height, 4);
    }
    let mut pixels: Vec<u8> = Vec::new();
    let mut i: usize = 0;
    while i < n
        invariant
            i <= n,
            i % 4 == 0,
            n == premultiplied@.len(),
            n % 4 == 0,
            premultiplied_valid(premultiplied@),
            pixels@ == straight_pixels(premultiplied@).take(i as int),
        decreases n - i,
    {
        let ghost q = i / 4;
        assert(4 * q == i);
        assert(premultiplied@[4 * q] <= premultiplied@[4 * q + 3]);
        let straight = demultiply_pixel(
            premultiplied[i],
            premultiplied[i + 1],
            premultiplied[i + 2],
            premultiplied[i + 3],
        );
        pixels.push(straight.0);
        pixels.push(straight.1);
        pixels.push(straight.2);
        pixels.push(straight.3);
        proof {
            let s = straight_pixels(premultiplied@);
            assert(i / 4 == q && i % 4 == 0);
            assert((i + 1) / 4 == q && (i + 1) % 4 == 1);
            assert((i + 2) / 4 == q && (i + 2) % 4 == 2);
            assert((i + 3) / 4 == q && (i + 3) % 4 == 3);
            assert(pixels@ =~= s.take(i + 4));
        }
        i += 4;
    }
    proof {
        assert(pixels@ =~= straight_pixels(premultiplied@));
    }
    Ok(RenderedIcon { id: String::from_str(id), width, height, pixels })
}

} // verus!
