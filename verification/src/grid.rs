//! The pixel grid that a conversion reads.

use crate::geometry::{Color, Point, Pos};
use vstd::prelude::*;

verus! {

/// What a conversion sees of a raster: its size and the colour of each
/// pixel.
pub struct Picture {
    pub width: nat,
    pub height: nat,
    pub colors: Map<Pos, Color>,
}

impl Picture {
    /// The picture of `width` by `height` pixels whose colours are `cells`,
    /// row by row.
    pub open spec fn from_rows(width: nat, height: nat, cells: Seq<Color>) -> Picture {
        Picture {
            width,
            height,
            colors: Map::new(
                |p: Pos| 0 <= p.0 < width && 0 <= p.1 < height,
                |p: Pos| cells[p.1 * width + p.0],
            ),
        }
    }

    /// Whether `p` is the coordinate of a pixel of the picture.
    pub open spec fn contains(self, p: Pos) -> bool {
        0 <= p.0 < self.width && 0 <= p.1 < self.height
    }

    /// The colour of the pixel at `p`.
    pub open spec fn color_at(self, p: Pos) -> Color {
        self.colors[p]
    }

    /// Whether the pixel at `p` is part of what is drawn: it is in the
    /// picture and not fully transparent.
    pub open spec fn is_opaque(self, p: Pos) -> bool {
        self.contains(p) && self.color_at(p).a > 0
    }

    /// The number of pixels.
    pub open spec fn cell_count(self) -> nat {
        self.width * self.height
    }

    /// The place of the pixel at `p` when the rows are laid end to end.
    pub open spec fn cell_index(self, p: Pos) -> int {
        p.1 * self.width + p.0
    }

    /// Every pixel has a place of its own among `cell_count()` places.
    pub proof fn lemma_cell_index(self, p: Pos, q: Pos)
        requires
            self.contains(p),
            self.contains(q),
        ensures
            0 <= self.cell_index(p) < self.cell_count(),
            self.cell_index(p) == self.cell_index(q) ==> p == q,
    {
        let w = self.width as int;
        let h = self.height as int;
        assert(0 <= p.1 * w && p.1 * w + w <= h * w) by (nonlinear_arith)
            requires
                0 <= p.1 < h,
                0 <= w,
        ;
        assert(w * h == h * w) by (nonlinear_arith);
        if p.1 < q.1 {
            assert(p.1 * w + w <= q.1 * w) by (nonlinear_arith)
                requires
                    p.1 < q.1,
                    0 <= w,
            ;
        }
        if q.1 < p.1 {
            assert(q.1 * w + w <= p.1 * w) by (nonlinear_arith)
                requires
                    q.1 < p.1,
                    0 <= w,
            ;
        }
    }
}

/// A grid of colours, `width` columns by `height` rows, stored row by row.
pub struct PixelGrid {
    width: u32,
    height: u32,
    cells: Vec<Color>,
}

impl View for PixelGrid {
    type V = Picture;

    closed spec fn view(&self) -> Picture {
        Picture::from_rows(self.width as nat, self.height as nat, self.cells@)
    }
}

impl PixelGrid {
    #[verifier::type_invariant]
    spec fn well_formed(&self) -> bool {
        self.cells.len() == self.width * self.height
    }

    /// Makes a grid from its colours, given row by row. There is a grid
    /// exactly when `cells` holds one colour for each pixel.
    pub fn new(width: u32, height: u32, cells: Vec<Color>) -> (grid: Option<PixelGrid>)
        ensures
            grid is Some <==> cells.len() == width * height,
            grid matches Some(g) ==> g@ == Picture::from_rows(width as nat, height as nat, cells@),
    {
        assert(width * height <= u64::MAX) by (nonlinear_arith)
            requires
                width <= u32::MAX,
                height <= u32::MAX,
        ;
        if cells.len() as u64 == width as u64 * height as u64 {
            Some(PixelGrid { width, height, cells })
        } else {
            None
        }
    }

    /// The number of columns.
    pub fn width(&self) -> (w: u32)
        ensures
            w == self@.width,
    {
        self.width
    }

    /// The number of rows.
    pub fn height(&self) -> (h: u32)
        ensures
            h == self@.height,
    {
        self.height
    }

    /// The number of pixels.
    pub fn len(&self) -> (n: usize)
        ensures
            n == self@.cell_count(),
    {
        proof {
            use_type_invariant(self);
        }
        self.cells.len()
    }

    /// The place of the pixel at `p` when the rows are laid end to end.
    pub fn index_of(&self, p: Point) -> (i: usize)
        requires
            self@.contains(p@),
        ensures
            i == self@.cell_index(p@),
            i < self@.cell_count(),
    {
        proof {
            use_type_invariant(self);
            self@.lemma_cell_index(p@, p@);
        }
        p.y as usize * self.width as usize + p.x as usize
    }

    /// The colour of the pixel at `p`.
    pub fn color(&self, p: Point) -> (c: Color)
        requires
            self@.contains(p@),
        ensures
            c == self@.color_at(p@),
    {
        let i = self.index_of(p);
        proof {
            use_type_invariant(self);
        }
        self.cells[i]
    }
}

} // verus!
