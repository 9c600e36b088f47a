//! Polygon -> mask rasterization. The scan-line fill itself is done
//! by the `imageproc` crate; what this module verifies is the
//! preparation of the contour (pairing coordinates, dropping a
//! duplicated closing point) and the placement of the rasterized
//! pixels into the column-major mask grid.

use crate::coco::{Polygon, PolygonRS, PolygonRSView};
use crate::mask::Mask;
use vstd::prelude::*;

verus! {

/// What the scan-line rasterizer paints: the `width * height` pixel
/// grid, row by row, with 1 inside the polygon through the points
/// `(xs[i], ys[i])` and 0 outside. Named but not described here: the
/// exact pixel set is the rasterizer's.
pub uninterp spec fn poly_fill(xs: Seq<i32>, ys: Seq<i32>, width: u32, height: u32) -> Seq<u8>;

/// The x coordinates of a flat alternating x, y coordinate list.
pub open spec fn poly_xs(counts: Seq<u32>) -> Seq<i32> {
    Seq::new(counts.len() / 2, |i: int| counts[2 * i] as i32)
}

/// The y coordinates of a flat alternating x, y coordinate list.
pub open spec fn poly_ys(counts: Seq<u32>) -> Seq<i32> {
    Seq::new(counts.len() / 2, |i: int| counts[2 * i + 1] as i32)
}

/// Whether the last point duplicates the first and is dropped before
/// rasterizing, to avoid a degenerate zero-length closing edge.
pub open spec fn drops_closing_point(counts: Seq<u32>) -> bool {
    let n = counts.len() / 2;
    n > 0 && counts[0] == counts[2 * (n - 1)] && counts[1] == counts[2 * (n - 1) + 1]
}

/// The x coordinates actually handed to the rasterizer.
pub open spec fn contour_xs(counts: Seq<u32>) -> Seq<i32> {
    if drops_closing_point(counts) {
        poly_xs(counts).drop_last()
    } else {
        poly_xs(counts)
    }
}

/// The y coordinates actually handed to the rasterizer.
pub open spec fn contour_ys(counts: Seq<u32>) -> Seq<i32> {
    if drops_closing_point(counts) {
        poly_ys(counts).drop_last()
    } else {
        poly_ys(counts)
    }
}

/// The column-major pixel sequence of the mask a sized polygon
/// rasterizes to: the rasterizer's row-major grid, read with indices
/// transposed.
pub open spec fn polygon_pixels(p: PolygonRSView) -> Seq<u8> {
    let h = p.size[0] as int;
    let w = p.size[1] as int;
    Seq::new(
        (h * w) as nat,
        |idx: int|
            poly_fill(contour_xs(p.counts), contour_ys(p.counts), p.size[1], p.size[0])[(idx % h)
                * w + idx / h],
    )
}

/// Relies on imageproc's `draw_polygon_mut` and image's `GrayImage`:
/// the canvas starts as `width * height` zero bytes, the fill writes
/// only the pixel value 1, the painted set depends on the points and
/// the canvas size alone, and `into_raw` hands the canvas back row by
/// row. An empty point list paints nothing.
#[verifier::external_body]
fn rasterize_polygon(xs: &Vec<i32>, ys: &Vec<i32>, width: u32, height: u32) -> (r: Vec<u8>)
    requires
        xs@.len() == ys@.len(),
        forall|i: int| 0 <= i < xs@.len() ==> 0 <= #[trigger] xs@[i],
        forall|i: int| 0 <= i < ys@.len() ==> 0 <= #[trigger] ys@[i],
        xs@.len() == 0 || (width >= 1 && height >= 1),
        (width as int) * (height as int) <= u32::MAX as int,
    ensures
        r@.len() == (width as int) * (height as int),
        forall|i: int| 0 <= i < r@.len() ==> #[trigger] r@[i] <= 1,
        r@ == poly_fill(xs@, ys@, width, height),
{
    let mut pts: Vec<imageproc::point::Point<i32>> = Vec::new();
    for i in 0..xs.len() {
        pts.push(imageproc::point::Point::new(xs[i], ys[i]));
    }
    let mut img = image::GrayImage::new(width, height);
    imageproc::drawing::draw_polygon_mut(&mut img, &pts, image::Luma([1u8]));
    img.into_raw()
}

/// Rasterizes a sized polygon contour onto a zeroed mask of its own
/// image size. The pixel at row `r`, column `c` is what the
/// rasterizer painted at that grid position.
pub fn polygon_rs_to_mask(poly: &PolygonRS) -> (m: Mask)
    requires
        poly@.wf(),
    ensures
        m.wf(),
        m.height == poly.size@[0],
        m.width == poly.size@[1],
        forall|r: int, c: int|
            0 <= r < m.height as int && 0 <= c < m.width as int ==> m.spec_pixel(r, c)
                == poly_fill(
                contour_xs(poly.counts@),
                contour_ys(poly.counts@),
                poly.size@[1],
                poly.size@[0],
            )[r * (poly.size@[1] as int) + c],
        m.data@ == polygon_pixels(poly@),
{
    let height = poly.size[0];
    let width = poly.size[1];
    let n = poly.counts.len() / 2;
    let mut xs: Vec<i32> = Vec::new();
    let mut ys: Vec<i32> = Vec::new();
    let mut k: usize = 0;
    while k < n
        invariant
            poly@.wf(),
            poly.counts@.len() <= usize::MAX,
            n == poly.counts@.len() / 2,
            k <= n,
            xs@.len() == k,
            ys@.len() == k,
            forall|j: int| 0 <= j < k as int ==> xs@[j] == poly_xs(poly.counts@)[j],
            forall|j: int| 0 <= j < k as int ==> ys@[j] == poly_ys(poly.counts@)[j],
        decreases n - k,
    {
        proof {
            vstd::arithmetic::div_mod::lemma_fundamental_div_mod(poly.counts@.len() as int, 2);
            assert(2 * (n as int) <= poly.counts@.len() as int);
            assert(2 * (k as int) + 1 < poly.counts@.len() as int);
        }
        let x = poly.counts[2 * k];
        let y = poly.counts[2 * k + 1];
        xs.push(x as i32);
        ys.push(y as i32);
        k = k + 1;
    }
    proof {
        assert(xs@ =~= poly_xs(poly.counts@));
        assert(ys@ =~= poly_ys(poly.counts@));
    }
    if xs.len() > 0 && xs[0] == xs[xs.len() - 1] && ys[0] == ys[ys.len() - 1] {
        xs.pop();
        ys.pop();
        proof {
            assert(drops_closing_point(poly.counts@)) by {
                assert(poly_xs(poly.counts@)[0] == poly.counts@[0] as i32);
                assert(poly_xs(poly.counts@)[n as int - 1] == poly.counts@[2 * (n as int - 1)]
                    as i32);
                assert(poly_ys(poly.counts@)[0] == poly.counts@[1] as i32);
                assert(poly_ys(poly.counts@)[n as int - 1] == poly.counts@[2 * (n as int - 1) + 1]
                    as i32);
            }
            assert(xs@ =~= contour_xs(poly.counts@));
            assert(ys@ =~= contour_ys(poly.counts@));
        }
    } else {
        proof {
            if poly.counts@.len() / 2 > 0 {
                assert(!drops_closing_point(poly.counts@)) by {
                    assert(poly_xs(poly.counts@)[0] == poly.counts@[0] as i32);
                    assert(poly_xs(poly.counts@)[n as int - 1] == poly.counts@[2 * (n as int - 1)]
                        as i32);
                    assert(poly_ys(poly.counts@)[0] == poly.counts@[1] as i32);
                    assert(poly_ys(poly.counts@)[n as int - 1] == poly.counts@[2 * (n as int - 1)
                        + 1] as i32);
                }
            }
            assert(xs@ =~= contour_xs(poly.counts@));
            assert(ys@ =~= contour_ys(poly.counts@));
        }
    }
    proof {
        if xs@.len() > 0 {
            assert(contour_xs(poly.counts@)[0] == poly_xs(poly.counts@)[0]);
            assert(poly.counts@.len() >= 2);
            assert((poly.counts@[0] as int) < poly.size@[1] as int);
            assert((poly.counts@[1] as int) < poly.size@[0] as int);
            assert(width >= 1 && height >= 1);
        }
    }
    proof {
        assert((width as int) * (height as int) == (height as int) * (width as int))
            by (nonlinear_arith);
    }
    let raw = rasterize_polygon(&xs, &ys, width, height);
    let m = Mask::from_row_major(height, width, &raw);
    proof {
        let h = height as int;
        let w = width as int;
        let fill = poly_fill(contour_xs(poly.counts@), contour_ys(poly.counts@), width, height);
        assert forall|idx: int| 0 <= idx < m.data@.len() implies m.data@[idx] == polygon_pixels(
            poly@,
        )[idx] by {
            assert(h > 0) by {
                assert(m.data@.len() == h * w);
                if h <= 0 {
                    assert(h * w <= 0) by (nonlinear_arith)
                        requires
                            h <= 0,
                            w >= 0,
                    ;
                }
            }
            let r = idx % h;
            let c = idx / h;
            vstd::arithmetic::div_mod::lemma_fundamental_div_mod(idx, h);
            vstd::arithmetic::div_mod::lemma_mod_division_less_than_divisor(idx, h);
            assert(h * w == w * h) by (nonlinear_arith);
            assert(c < w) by {
                vstd::arithmetic::div_mod::lemma_multiply_divide_lt(idx, h, w);
            }
            assert(c >= 0) by {
                vstd::arithmetic::div_mod::lemma_div_pos_is_pos(idx, h);
            }
            assert(h * c == c * h) by (nonlinear_arith);
            assert(idx == m.spec_index_of(r, c));
            assert(m.spec_pixel(r, c) == fill[r * w + c]);
        }
        assert(m.data@ =~= polygon_pixels(poly@));
    }
    m
}

/// Rasterizes the first contour of a size-less polygon onto a zeroed
/// `height x width` mask; further contours are not composited.
pub fn mask_from_poly(poly: &Polygon, width: u32, height: u32) -> (m: Mask)
    requires
        poly.deep_view().len() >= 1,
        poly.deep_view()[0].len() % 2 == 0,
        forall|i: int|
            0 <= i < poly.deep_view()[0].len() ==> #[trigger] poly.deep_view()[0][i]
                <= i32::MAX as u32,
        width >= 1,
        height >= 1,
        (width as int) * (height as int) <= u32::MAX as int,
    ensures
        m.wf(),
        m.height == height,
        m.width == width,
        forall|r: int, c: int|
            0 <= r < height as int && 0 <= c < width as int ==> m.spec_pixel(r, c) == poly_fill(
                poly_xs(poly.deep_view()[0]),
                poly_ys(poly.deep_view()[0]),
                width,
                height,
            )[r * (width as int) + c],
{
    let contour: &Vec<u32> = &poly[0];
    let ghost cv = poly.deep_view()[0];
    proof {
        assert(cv =~= contour@);
    }
    let n = contour.len() / 2;
    let mut xs: Vec<i32> = Vec::new();
    let mut ys: Vec<i32> = Vec::new();
    let mut k: usize = 0;
    while k < n
        invariant
            cv == contour@,
            forall|i: int| 0 <= i < cv.len() ==> #[trigger] cv[i] <= i32::MAX as u32,
            cv.len() <= usize::MAX,
            n == cv.len() / 2,
            cv.len() % 2 == 0,
            k <= n,
            xs@.len() == k,
            ys@.len() == k,
            forall|j: int| 0 <= j < k as int ==> xs@[j] == poly_xs(cv)[j],
            forall|j: int| 0 <= j < k as int ==> ys@[j] == poly_ys(cv)[j],
        decreases n - k,
    {
        proof {
            vstd::arithmetic::div_mod::lemma_fundamental_div_mod(cv.len() as int, 2);
            assert(2 * (n as int) <= cv.len() as int);
            assert(2 * (k as int) + 1 < cv.len() as int);
        }
        let x = contour[2 * k];
        let y = contour[2 * k + 1];
        xs.push(x as i32);
        ys.push(y as i32);
        k = k + 1;
    }
    proof {
        assert(xs@ =~= poly_xs(cv));
        assert(ys@ =~= poly_ys(cv));
    }
    proof {
        assert((width as int) * (height as int) == (height as int) * (width as int))
            by (nonlinear_arith);
    }
    let raw = rasterize_polygon(&xs, &ys, width, height);
    let m = Mask::from_row_major(height, width, &raw);
    m
}

} // verus!
