//! From a raster to its SVG document.

use crate::area::{lemma_area_is_pixel_count, total_area};
use crate::boundary::{boundary, boundary_edges, is_pixel};
use crate::components::{lemma_segmentation_is_unique, same_region};
use crate::geometry::{contours_view, step, Color, Pos};
use crate::grid::{Picture, PixelGrid};
use crate::join::{joined_contours, joined_edges};
use crate::raster::Raster;
use crate::segment::{
    closed_at, covered, fill, fill_dir, fresh, in_fill_order, is_segmentation,
    lemma_transparent_has_no_regions, region_of, region_ok, scan_before, segment_regions, Region,
};
use crate::svg::{document_text, header_text, push_shape, shapes_text, svg_header};
use vstd::prelude::*;
use vstd::string::*;

verus! {

/// The contours of a region: its boundary edges, joined, with the points
/// left out at which a contour goes straight on.
pub open spec fn region_contours(region: Region) -> Seq<Seq<Pos>> {
    joined_contours(boundary(region.positions()), false)
}

/// The shapes of a list of regions: of each its colour and its contours.
pub open spec fn shapes_of(regions: Seq<Region>) -> Seq<(Color, Seq<Seq<Pos>>)> {
    Seq::new(regions.len(), |i: int| (regions[i].color, region_contours(regions[i])))
}

/// Whether every pixel of every region has coordinates that a grid can
/// have.
pub open spec fn regions_in_range(regions: Seq<Region>) -> bool {
    forall|i: int, k: int|
        0 <= i < regions.len() && 0 <= k < regions[i].pixels.len() ==> is_pixel(
            #[trigger] regions[i].pixels[k]@,
        )
}

/// `text` is the document of `picture`: the one written for its
/// segmentation, the pixels of each region in the order of a breadth-first
/// fill.
pub open spec fn renders(picture: Picture, text: Seq<char>) -> bool {
    exists|regions: Seq<Region>| #[trigger]
        is_segmentation(picture, regions) && in_fill_order(picture, regions) && text
            == document_text(picture.width, picture.height, shapes_of(regions))
}

/// Writes the document of a picture `width` wide and `height` high with the
/// given regions: one path element for each region, in their order.
pub fn render_regions(width: u32, height: u32, regions: &Vec<Region>) -> (svg: String)
    requires
        regions_in_range(regions@),
    ensures
        svg@ == document_text(width as nat, height as nat, shapes_of(regions@)),
{
    let ghost shapes = shapes_of(regions@);
    let mut svg = svg_header(width, height);
    let ghost header = svg@;
    let mut i: usize = 0;
    assert(svg@ =~= header + shapes_text(shapes, 0));
    while i < regions.len()
        invariant
            i <= regions.len(),
            regions_in_range(regions@),
            shapes == shapes_of(regions@),
            svg@ == header + shapes_text(shapes, i as int),
        decreases regions.len() - i,
    {
        let region = &regions[i];
        assert forall|k: int| 0 <= k < region.pixels.len() implies is_pixel(
            #[trigger] region.pixels[k]@,
        ) by {
            assert(is_pixel(regions[i as int].pixels[k]@));
        }
        let edges = boundary_edges(&region.pixels);
        let contours = joined_edges(&edges, false);
        assert(contours_view(contours@) == shapes[i as int].1);
        push_shape(&mut svg, region.color, &contours);
        i += 1;
        assert(svg@ =~= header + shapes_text(shapes, i as int));
    }
    svg.append("</svg>\n");
    assert(svg@ =~= document_text(width as nat, height as nat, shapes));
    svg
}

/// Converts a grid to its SVG document: the grid is segmented into regions,
/// and each region becomes one filled path along its boundary.
pub fn grid_to_svg(grid: &PixelGrid) -> (svg: String)
    ensures
        renders(grid@, svg@),
{
    let width = grid.width();
    let height = grid.height();
    let regions = segment_regions(grid);
    proof {
        assert forall|i: int, k: int|
            0 <= i < regions.len() && 0 <= k < regions[i].pixels.len() implies is_pixel(
            #[trigger] regions[i].pixels[k]@,
        ) by {
            assert(region_ok(grid@, regions@[i]));
            assert(grid@.contains(regions@[i].positions()[k]));
        }
    }
    let svg = render_regions(width, height, &regions);
    assert(is_segmentation(grid@, regions@) && in_fill_order(grid@, regions@));
    svg
}

/// Converts a decoded raster to its SVG document.
///
/// Pixels of one colour that hang together by their sides form a region;
/// fully transparent pixels belong to none. Each region is written as one
/// path, filled with its colour at the opacity of its alpha.
pub fn rgba_image_to_svg_contiguous(img: &Raster) -> (svg: String)
    ensures
        renders(img@, svg@),
{
    let grid = img.to_grid();
    grid_to_svg(&grid)
}

/// The contours of every region of a segmentation enclose as many unit
/// squares as the region has pixels, outer loops counted positive and loops
/// round holes negative.
pub proof fn lemma_region_area(picture: Picture, regions: Seq<Region>, i: int)
    requires
        is_segmentation(picture, regions),
        0 <= i < regions.len(),
    ensures
        total_area(region_contours(regions[i])) == 2 * regions[i].pixels.len(),
{
    assert(region_ok(picture, regions[i]));
    lemma_area_is_pixel_count(regions[i].positions(), false);
}

/// The document of a picture without an opaque pixel is the header and the
/// closing tag, with no shape between them.
pub proof fn lemma_transparent_document(picture: Picture, text: Seq<char>)
    requires
        forall|p: Pos| picture.contains(p) ==> picture.color_at(p).a == 0,
        renders(picture, text),
    ensures
        text == header_text(picture.width, picture.height) + "</svg>\n"@,
{
    let regions = choose|regions: Seq<Region>| #[trigger]
        is_segmentation(picture, regions) && in_fill_order(picture, regions) && text
            == document_text(picture.width, picture.height, shapes_of(regions));
    lemma_transparent_has_no_regions(picture, regions);
    assert(text =~= header_text(picture.width, picture.height) + "</svg>\n"@);
}

/// `c` with the colours `a` and `b` exchanged.
pub open spec fn swap_color(c: Color, a: Color, b: Color) -> Color {
    if c == a {
        b
    } else if c == b {
        a
    } else {
        c
    }
}

/// `after` is `before` with the colours `a` and `b` exchanged throughout.
pub open spec fn colors_swapped(before: Picture, after: Picture, a: Color, b: Color) -> bool {
    &&& after.width == before.width
    &&& after.height == before.height
    &&& forall|p: Pos|
        before.contains(p) ==> #[trigger] after.color_at(p) == swap_color(before.color_at(p), a, b)
}

/// The regions with the colours `a` and `b` exchanged, and the same pixels.
pub open spec fn recolored(regions: Seq<Region>, a: Color, b: Color) -> Seq<Region> {
    Seq::new(
        regions.len(),
        |i: int| Region { color: swap_color(regions[i].color, a, b), pixels: regions[i].pixels },
    )
}

/// Whether every position of `s` is a pixel of `grid`.
pub open spec fn all_inside(grid: Picture, s: Seq<Pos>) -> bool {
    forall|k: int| 0 <= k < s.len() ==> grid.contains(#[trigger] s[k])
}

proof fn lemma_fresh_swapped(
    before: Picture,
    after: Picture,
    a: Color,
    b: Color,
    order: Seq<Pos>,
    here: Pos,
    tried: int,
)
    requires
        colors_swapped(before, after, a, b),
        all_inside(before, order),
        before.contains(here),
        0 <= tried <= 4,
    ensures
        fresh(after, order, here, tried) == fresh(before, order, here, tried),
        all_inside(before, fresh(before, order, here, tried)),
    decreases tried,
{
    if tried > 0 {
        lemma_fresh_swapped(before, after, a, b, order, here, tried - 1);
        let so_far = fresh(before, order, here, tried - 1);
        let q = step(here, fill_dir(tried - 1));
        assert(after.color_at(here) == swap_color(before.color_at(here), a, b));
        if before.contains(q) {
            assert(after.color_at(q) == swap_color(before.color_at(q), a, b));
            assert forall|k: int| 0 <= k < so_far.push(q).len() implies before.contains(
                #[trigger] so_far.push(q)[k],
            ) by {
                if k < so_far.len() {
                    assert(before.contains(so_far[k]));
                }
            }
        }
    }
}

proof fn lemma_fill_swapped(
    before: Picture,
    after: Picture,
    a: Color,
    b: Color,
    order: Seq<Pos>,
    done: int,
    fuel: nat,
)
    requires
        colors_swapped(before, after, a, b),
        all_inside(before, order),
    ensures
        fill(after, order, done, fuel) == fill(before, order, done, fuel),
    decreases fuel,
{
    if !(fuel == 0 || done < 0 || done >= order.len()) {
        assert(before.contains(order[done]));
        lemma_fresh_swapped(before, after, a, b, order, order[done], 4);
        lemma_fill_swapped(
            before,
            after,
            a,
            b,
            fresh(before, order, order[done], 4),
            done + 1,
            (fuel - 1) as nat,
        );
    }
}

/// Exchanging two colours throughout a picture exchanges the fills and
/// leaves every contour as it is: the segmentation of the one picture, its
/// colours exchanged, is the segmentation of the other, with the same pixels
/// in every region and so the same contours. The two colours must both be
/// fully transparent or neither: a transparent colour belongs to no region.
pub proof fn lemma_color_swap(
    before: Picture,
    after: Picture,
    a: Color,
    b: Color,
    regions: Seq<Region>,
)
    requires
        colors_swapped(before, after, a, b),
        (a.a == 0) == (b.a == 0),
        is_segmentation(before, regions),
        in_fill_order(before, regions),
    ensures
        is_segmentation(after, recolored(regions, a, b)),
        in_fill_order(after, recolored(regions, a, b)),
        shapes_of(recolored(regions, a, b)).len() == shapes_of(regions).len(),
        forall|i: int|
            #![trigger shapes_of(regions)[i]]
            0 <= i < regions.len() ==> {
                &&& shapes_of(recolored(regions, a, b))[i].1 == shapes_of(regions)[i].1
                &&& shapes_of(recolored(regions, a, b))[i].0 == swap_color(
                    shapes_of(regions)[i].0,
                    a,
                    b,
                )
            },
        renders(
            after,
            document_text(after.width, after.height, shapes_of(recolored(regions, a, b))),
        ),
{
    let swapped = recolored(regions, a, b);
    assert forall|i: int| 0 <= i < swapped.len() implies region_ok(after, #[trigger] swapped[i]) by {
        let members = regions[i].positions();
        assert(region_ok(before, regions[i]));
        assert(swapped[i].positions() == members);
        assert forall|k: int| 0 <= k < members.len() implies after.contains(#[trigger] members[k])
            && after.color_at(members[k]) == swapped[i].color by {
            assert(before.contains(members[k]));
        }
        assert forall|k: int, d: int| 0 <= k < members.len() && 0 <= d < 4 implies #[trigger] closed_at(
            after,
            members,
            members[k],
            d,
        ) by {
            assert(closed_at(before, members, members[k], d));
            assert(before.contains(members[k]));
        }
    }
    assert forall|i: int, j: int|
        #![trigger swapped[i], swapped[j]]
        0 <= i < j < swapped.len() implies scan_before(
        swapped[i].positions()[0],
        swapped[j].positions()[0],
    ) by {
        assert(scan_before(regions[i].positions()[0], regions[j].positions()[0]));
    }
    assert forall|i: int| 0 <= i < swapped.len() implies (#[trigger] swapped[i]).positions()
        == region_of(after, swapped[i].positions()[0]) by {
        let seed = regions[i].positions()[0];
        assert(region_ok(before, regions[i]));
        assert(before.contains(seed));
        assert(regions[i].positions() == region_of(before, seed));
        lemma_fill_swapped(before, after, a, b, seq![seed], 0, before.cell_count());
    }
    assert forall|i: int, j: int, p: Pos| 0 <= i < j < swapped.len() implies !(
    #[trigger] swapped[i].has(p) && #[trigger] swapped[j].has(p)) by {
        assert(!(regions[i].has(p) && regions[j].has(p)));
    }
    assert forall|p: Pos| #[trigger] after.is_opaque(p) implies covered(swapped, p) by {
        assert(before.is_opaque(p));
        let i = choose|i: int| 0 <= i < regions.len() && #[trigger] regions[i].has(p);
        assert(swapped[i].has(p));
    }
    assert(is_segmentation(after, swapped));
}

/// A picture has one document only: two texts that render the same picture
/// are the same text.
pub proof fn lemma_document_is_unique(picture: Picture, first: Seq<char>, second: Seq<char>)
    requires
        renders(picture, first),
        renders(picture, second),
    ensures
        first == second,
{
    let a = choose|regions: Seq<Region>| #[trigger]
        is_segmentation(picture, regions) && in_fill_order(picture, regions) && first
            == document_text(picture.width, picture.height, shapes_of(regions));
    let b = choose|regions: Seq<Region>| #[trigger]
        is_segmentation(picture, regions) && in_fill_order(picture, regions) && second
            == document_text(picture.width, picture.height, shapes_of(regions));
    lemma_segmentation_is_unique(picture, a, b);
    assert forall|i: int| 0 <= i < a.len() implies shapes_of(a)[i] == shapes_of(b)[i] by {
        assert(same_region(a[i], b[i]));
        assert(a[i].positions() == region_of(picture, a[i].positions()[0]));
        assert(b[i].positions() == region_of(picture, b[i].positions()[0]));
    }
    assert(shapes_of(a) =~= shapes_of(b));
}

} // verus!
