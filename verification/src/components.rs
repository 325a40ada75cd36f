//! Why a picture has one segmentation only.
//!
//! Two segmentations of one picture have the same regions in the same
//! order: region by region the same colour, the same pixels and the same
//! first pixel. They can differ in the order of the further pixels of a
//! region, and in nothing else.

use crate::geometry::{step, Pos};
use crate::grid::Picture;
use crate::segment::{
    adjacent, closed_at, covered, hooked, is_segmentation, region_ok, scan_before, Region,
};
use vstd::prelude::*;

verus! {

/// Two regions have the same colour, the same pixels and the same first
/// pixel.
pub open spec fn same_region(r: Region, s: Region) -> bool {
    &&& r.color == s.color
    &&& r.positions().len() == s.positions().len()
    &&& r.positions()[0] == s.positions()[0]
    &&& forall|p: Pos| r.has(p) <==> s.has(p)
}

proof fn lemma_step_back(p: Pos, q: Pos)
    requires
        adjacent(p, q),
    ensures
        adjacent(q, p),
{
    if q == step(p, 0) {
        assert(p == step(q, 2));
    } else if q == step(p, 1) {
        assert(p == step(q, 3));
    } else if q == step(p, 2) {
        assert(p == step(q, 0));
    } else {
        assert(p == step(q, 1));
    }
}

/// A region that cannot grow holds every pixel of its colour next to one of
/// its own.
proof fn lemma_neighbour_joins(grid: Picture, s: Region, p: Pos, q: Pos)
    requires
        region_ok(grid, s),
        s.has(p),
        adjacent(p, q),
        grid.contains(q),
        grid.color_at(q) == grid.color_at(p),
    ensures
        s.has(q),
{
    let members = s.positions();
    let k = choose|k: int| 0 <= k < members.len() && members[k] == p;
    if q == step(p, 0) {
        assert(closed_at(grid, members, members[k], 0));
    } else if q == step(p, 1) {
        assert(closed_at(grid, members, members[k], 1));
    } else if q == step(p, 2) {
        assert(closed_at(grid, members, members[k], 2));
    } else {
        assert(closed_at(grid, members, members[k], 3));
    }
}

/// If a region `s` holds the first pixel of a region `r`, it holds them all.
proof fn lemma_spread(grid: Picture, r: Region, s: Region, k: int)
    requires
        region_ok(grid, r),
        region_ok(grid, s),
        s.has(r.positions()[0]),
        0 <= k < r.positions().len(),
    ensures
        s.has(r.positions()[k]),
    decreases k,
{
    let members = r.positions();
    if k > 0 {
        assert(hooked(members, k));
        let j = choose|j: int| 0 <= j < k && #[trigger] adjacent(members[j], members[k]);
        lemma_spread(grid, r, s, j);
        assert(grid.contains(members[j]) && grid.color_at(members[j]) == r.color);
        assert(grid.contains(members[k]) && grid.color_at(members[k]) == r.color);
        lemma_neighbour_joins(grid, s, members[j], members[k]);
    }
}

/// If a region `s` holds any pixel of a region `r`, it holds the first.
proof fn lemma_trace_back(grid: Picture, r: Region, s: Region, k: int)
    requires
        region_ok(grid, r),
        region_ok(grid, s),
        0 <= k < r.positions().len(),
        s.has(r.positions()[k]),
    ensures
        s.has(r.positions()[0]),
    decreases k,
{
    let members = r.positions();
    if k > 0 {
        assert(hooked(members, k));
        let j = choose|j: int| 0 <= j < k && #[trigger] adjacent(members[j], members[k]);
        assert(grid.contains(members[j]) && grid.color_at(members[j]) == r.color);
        assert(grid.contains(members[k]) && grid.color_at(members[k]) == r.color);
        lemma_step_back(members[j], members[k]);
        lemma_neighbour_joins(grid, s, members[k], members[j]);
        lemma_trace_back(grid, r, s, j);
    }
}

/// Two regions of one picture that share a pixel hold the same pixels.
proof fn lemma_overlap_is_equal(grid: Picture, r: Region, s: Region, p: Pos)
    requires
        region_ok(grid, r),
        region_ok(grid, s),
        r.has(p),
        s.has(p),
    ensures
        same_region(r, s),
{
    let rm = r.positions();
    let sm = s.positions();
    let kr = choose|k: int| 0 <= k < rm.len() && rm[k] == p;
    let ks = choose|k: int| 0 <= k < sm.len() && sm[k] == p;
    lemma_trace_back(grid, r, s, kr);
    lemma_trace_back(grid, s, r, ks);
    assert forall|q: Pos| r.has(q) <==> s.has(q) by {
        if r.has(q) {
            let k = choose|k: int| 0 <= k < rm.len() && rm[k] == q;
            lemma_spread(grid, r, s, k);
        }
        if s.has(q) {
            let k = choose|k: int| 0 <= k < sm.len() && sm[k] == q;
            lemma_spread(grid, s, r, k);
        }
    }
    assert(grid.color_at(rm[kr]) == r.color);
    assert(grid.color_at(sm[ks]) == s.color);
    // Each first pixel comes before every other pixel of the same set.
    assert(rm[0] == sm[0]) by {
        let i = choose|i: int| 0 <= i < sm.len() && sm[i] == rm[0];
        let j = choose|j: int| 0 <= j < rm.len() && rm[j] == sm[0];
        if i > 0 && j > 0 {
            assert(scan_before(sm[0], sm[i]));
            assert(scan_before(rm[0], rm[j]));
        }
    }
    assert(rm.len() == sm.len()) by {
        rm.unique_seq_to_set();
        sm.unique_seq_to_set();
        assert forall|q: Pos| rm.to_set().contains(q) <==> sm.to_set().contains(q) by {
            assert(r.has(q) <==> s.has(q));
        }
        assert(rm.to_set() =~= sm.to_set());
    }
}

/// The region of `b` that holds the first pixel of the `i`-th region of `a`.
pub open spec fn partner(a: Seq<Region>, b: Seq<Region>, i: int) -> int {
    choose|j: int| 0 <= j < b.len() && #[trigger] b[j].has(a[i].positions()[0])
}

proof fn lemma_partner(grid: Picture, a: Seq<Region>, b: Seq<Region>, i: int)
    requires
        is_segmentation(grid, a),
        is_segmentation(grid, b),
        0 <= i < a.len(),
    ensures
        0 <= partner(a, b, i) < b.len(),
        same_region(a[i], b[partner(a, b, i)]),
{
    let seed = a[i].positions()[0];
    assert(region_ok(grid, a[i]));
    assert(grid.contains(seed) && grid.color_at(seed) == a[i].color);
    assert(grid.is_opaque(seed));
    assert(covered(b, seed));
    let j = partner(a, b, i);
    assert(region_ok(grid, b[j]));
    assert(a[i].has(seed));
    lemma_overlap_is_equal(grid, a[i], b[j], seed);
}

/// Partners keep the order of the regions, so a partner is no earlier in
/// its list than the region is in its own.
proof fn lemma_partner_is_later(grid: Picture, a: Seq<Region>, b: Seq<Region>, i: int)
    requires
        is_segmentation(grid, a),
        is_segmentation(grid, b),
        0 <= i < a.len(),
    ensures
        i <= partner(a, b, i),
    decreases i,
{
    lemma_partner(grid, a, b, i);
    if i > 0 {
        lemma_partner_is_later(grid, a, b, i - 1);
        lemma_partner(grid, a, b, i - 1);
        let j = partner(a, b, i);
        let h = partner(a, b, i - 1);
        assert(scan_before(a[i - 1].positions()[0], a[i].positions()[0]));
        if j < h {
            assert(scan_before(b[j].positions()[0], b[h].positions()[0]));
        }
    }
}

/// A picture has one segmentation only, but for the order of the pixels of
/// a region after its first: two segmentations have as many regions, and
/// region by region the same colour, the same pixels and the same first
/// pixel.
pub proof fn lemma_segmentation_is_unique(grid: Picture, a: Seq<Region>, b: Seq<Region>)
    requires
        is_segmentation(grid, a),
        is_segmentation(grid, b),
    ensures
        a.len() == b.len(),
        forall|i: int| 0 <= i < a.len() ==> same_region(#[trigger] a[i], b[i]),
{
    assert forall|i: int| 0 <= i < a.len() implies partner(a, b, i) == i by {
        let j = partner(a, b, i);
        lemma_partner(grid, a, b, i);
        lemma_partner_is_later(grid, a, b, i);
        lemma_partner(grid, b, a, j);
        lemma_partner_is_later(grid, b, a, j);
        let back = partner(b, a, j);
        if back < i {
            assert(scan_before(a[back].positions()[0], a[i].positions()[0]));
        }
        if i < back {
            assert(scan_before(a[i].positions()[0], a[back].positions()[0]));
        }
    }
    assert forall|j: int| 0 <= j < b.len() implies partner(b, a, j) == j by {
        let i = partner(b, a, j);
        lemma_partner(grid, b, a, j);
        lemma_partner_is_later(grid, b, a, j);
        lemma_partner(grid, a, b, i);
        lemma_partner_is_later(grid, a, b, i);
        let back = partner(a, b, i);
        if back < j {
            assert(scan_before(b[back].positions()[0], b[j].positions()[0]));
        }
        if j < back {
            assert(scan_before(b[j].positions()[0], b[back].positions()[0]));
        }
    }
    if a.len() > 0 {
        assert(partner(a, b, a.len() - 1) == a.len() - 1);
        lemma_partner(grid, a, b, a.len() - 1);
    }
    if b.len() > 0 {
        assert(partner(b, a, b.len() - 1) == b.len() - 1);
        lemma_partner(grid, b, a, b.len() - 1);
    }
    assert forall|i: int| 0 <= i < a.len() implies same_region(#[trigger] a[i], b[i]) by {
        lemma_partner(grid, a, b, i);
        assert(partner(a, b, i) == i);
    }
}

} // verus!
