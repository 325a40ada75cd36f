//! The decoded raster that a conversion starts from.
//!
//! The pixels are held by the `image` crate. What this library reads of
//! them, the size and the colour of each pixel, goes through the three
//! functions at the end of this file, whose contracts are taken on trust.

use crate::geometry::{Color, Pos};
use crate::grid::{Picture, PixelGrid};
use vstd::prelude::*;

verus! {

/// A decoded RGBA raster, held in an `image::RgbaImage`.
///
/// The verifier sees nothing of what is inside: the size and the colours
/// are known to it by the names below only.
#[verifier::external_body]
pub struct Raster {
    pub image: image::RgbaImage,
}

/// The width of the image that a raster holds.
pub uninterp spec fn raster_width(raster: &Raster) -> nat;

/// The height of the image that a raster holds.
pub uninterp spec fn raster_height(raster: &Raster) -> nat;

/// The colour of each pixel of the image that a raster holds.
pub uninterp spec fn raster_colors(raster: &Raster) -> Map<Pos, Color>;

impl View for Raster {
    type V = Picture;

    open spec fn view(&self) -> Picture {
        Picture {
            width: raster_width(self),
            height: raster_height(self),
            colors: Map::new(
                |p: Pos| 0 <= p.0 < raster_width(self) && 0 <= p.1 < raster_height(self),
                |p: Pos| raster_colors(self)[p],
            ),
        }
    }
}

proof fn lemma_row_major(width: int, p: Pos, q: Pos)
    requires
        0 <= p.0 < width,
        0 <= q.0 < width,
        p.1 * width + p.0 == q.1 * width + q.0,
    ensures
        p == q,
{
    if p.1 < q.1 {
        assert(p.1 * width + width <= q.1 * width) by (nonlinear_arith)
            requires
                p.1 < q.1,
                0 <= width,
        ;
    }
    if q.1 < p.1 {
        assert(q.1 * width + width <= p.1 * width) by (nonlinear_arith)
            requires
                q.1 < p.1,
                0 <= width,
        ;
    }
}

proof fn lemma_rows_before(width: int, y: int, p: Pos)
    requires
        0 <= p.0 < width,
        0 <= p.1,
        p.1 * width + p.0 < y * width,
    ensures
        p.1 < y,
{
    if p.1 >= y {
        assert(y * width <= p.1 * width) by (nonlinear_arith)
            requires
                y <= p.1,
                0 <= width,
        ;
    }
}

impl Raster {
    /// Copies the pixels into a grid.
    pub fn to_grid(&self) -> (grid: PixelGrid)
        ensures
            grid@ == self@,
    {
        let width = width_of(self);
        let height = height_of(self);
        let mut cells: Vec<Color> = Vec::new();
        let mut y: u32 = 0;
        assert(0 * width == 0);
        while y < height
            invariant
                y <= height,
                width == raster_width(self),
                height == raster_height(self),
                cells.len() == y * width,
                forall|p: Pos|
                    0 <= p.0 < width && 0 <= p.1 < y ==> cells[p.1 * width + p.0]
                        == #[trigger] raster_colors(self)[p],
            decreases height - y,
        {
            let mut x: u32 = 0;
            proof {
                assert forall|p: Pos|
                    0 <= p.0 < width && 0 <= p.1 && p.1 * width + p.0 < y * width + 0
                        implies cells[p.1 * width + p.0] == #[trigger] raster_colors(self)[p] by {
                    lemma_rows_before(width as int, y as int, p);
                }
            }
            while x < width
                invariant
                    y < height,
                    x <= width,
                    width == raster_width(self),
                    height == raster_height(self),
                    cells.len() == y * width + x,
                    forall|p: Pos|
                        0 <= p.0 < width && 0 <= p.1 && p.1 * width + p.0 < y * width + x
                            ==> cells[p.1 * width + p.0] == #[trigger] raster_colors(self)[p],
                decreases width - x,
            {
                let color = color_of(self, x, y);
                cells.push(color);
                proof {
                    assert forall|p: Pos|
                        0 <= p.0 < width && 0 <= p.1 && p.1 * width + p.0 < y * width + x + 1
                            implies cells[p.1 * width + p.0] == #[trigger] raster_colors(self)[p] by {
                        if p.1 * width + p.0 == y * width + x {
                            lemma_row_major(width as int, p, (x as int, y as int));
                        }
                    }
                }
                x += 1;
            }
            proof {
                assert((y + 1) * width == y * width + width) by (nonlinear_arith);
                assert forall|p: Pos| 0 <= p.0 < width && 0 <= p.1 < y + 1 implies cells[p.1 * width
                    + p.0] == #[trigger] raster_colors(self)[p] by {
                    assert(p.1 * width + width <= (y + 1) * width) by (nonlinear_arith)
                        requires
                            p.1 < y + 1,
                            0 <= width,
                    ;
                }
            }
            y += 1;
        }
        let ghost rows = cells@;
        assert(height * width == width * height) by (nonlinear_arith);
        let made = PixelGrid::new(width, height, cells);
        let grid = made.unwrap();
        proof {
            assert forall|p: Pos| 0 <= p.0 < width && 0 <= p.1 < height implies rows[p.1 * width
                + p.0] == raster_colors(self)[p] by {
                assert(rows[p.1 * width + p.0] == #[trigger] raster_colors(self)[p]);
            }
            assert(grid@.colors =~= self@.colors);
        }
        grid
    }
}

/// `RgbaImage::width`: the width of the image.
#[verifier::external_body]
fn width_of(raster: &Raster) -> (width: u32)
    ensures
        width == raster_width(raster),
{
    raster.image.width()
}

/// `RgbaImage::height`: the height of the image.
#[verifier::external_body]
fn height_of(raster: &Raster) -> (height: u32)
    ensures
        height == raster_height(raster),
{
    raster.image.height()
}

/// `RgbaImage::get_pixel`: the four channels of the pixel in column `x` of
/// row `y`, which must lie inside the image.
#[verifier::external_body]
fn color_of(raster: &Raster, x: u32, y: u32) -> (color: Color)
    requires
        x < raster_width(raster),
        y < raster_height(raster),
    ensures
        color == raster_colors(raster)[(x as int, y as int)],
{
    let pixel = raster.image.get_pixel(x, y);
    Color { r: pixel.0[0], g: pixel.0[1], b: pixel.0[2], a: pixel.0[3] }
}

} // verus!
