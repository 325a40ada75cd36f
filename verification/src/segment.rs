//! Segmentation of a pixel grid into regions.
//!
//! A region is a maximal set of pixels of one colour, not fully transparent,
//! that hang together by their sides.

use crate::geometry::{points_view, step, Color, Point, Pos};
use crate::grid::{Picture, PixelGrid};
use crate::seq_facts::lemma_push_contains;
use std::collections::VecDeque;
use vstd::prelude::*;

verus! {

/// One region: its colour and its pixels, in the order in which the flood
/// fill reached them.
#[derive(Clone, Debug, PartialEq, Eq)]
pub struct Region {
    pub color: Color,
    pub pixels: Vec<Point>,
}

impl Region {
    /// The pixel coordinates of the region, in order.
    pub open spec fn positions(&self) -> Seq<Pos> {
        points_view(self.pixels@)
    }

    /// Whether the pixel at `p` belongs to the region.
    pub open spec fn has(&self, p: Pos) -> bool {
        self.positions().contains(p)
    }
}

/// The order in which a grid is scanned: column by column, each from the
/// top.
pub open spec fn scan_before(p: Pos, q: Pos) -> bool {
    p.0 < q.0 || (p.0 == q.0 && p.1 < q.1)
}

/// Whether `q` is one of the four positions next to `p`.
pub open spec fn adjacent(p: Pos, q: Pos) -> bool {
    q == step(p, 0) || q == step(p, 1) || q == step(p, 2) || q == step(p, 3)
}

/// Whether the `k`-th position is next to an earlier one.
pub open spec fn hooked(order: Seq<Pos>, k: int) -> bool {
    exists|j: int| 0 <= j < k && #[trigger] adjacent(order[j], order[k])
}

/// Every position but the first is next to an earlier one, so that all of
/// them hang together.
pub open spec fn linked(order: Seq<Pos>) -> bool {
    forall|k: int| 0 < k < order.len() ==> #[trigger] hooked(order, k)
}

/// The neighbour of `p` in direction `d` is among `members` if it is a pixel
/// of the colour of `p`.
pub open spec fn closed_at(grid: Picture, members: Seq<Pos>, p: Pos, d: int) -> bool {
    grid.contains(step(p, d)) && grid.color_at(step(p, d)) == grid.color_at(p)
        ==> members.contains(step(p, d))
}

/// No pixel of the same colour is next to a member without being one.
pub open spec fn closed(grid: Picture, members: Seq<Pos>) -> bool {
    forall|k: int, d: int|
        0 <= k < members.len() && 0 <= d < 4 ==> #[trigger] closed_at(grid, members, members[k], d)
}

/// What holds of one region of a segmentation: it is not empty, lists no
/// pixel twice, holds pixels of its own colour only, which is not fully
/// transparent, hangs together, cannot grow, and starts with the pixel that
/// a scan meets first.
pub open spec fn region_ok(grid: Picture, region: Region) -> bool {
    let members = region.positions();
    &&& members.len() > 0
    &&& members.no_duplicates()
    &&& region.color.a > 0
    &&& forall|k: int|
        0 <= k < members.len() ==> grid.contains(#[trigger] members[k]) && grid.color_at(members[k])
            == region.color
    &&& linked(members)
    &&& closed(grid, members)
    &&& forall|k: int| 0 < k < members.len() ==> scan_before(members[0], #[trigger] members[k])
}

/// Whether some region holds the pixel at `p`.
pub open spec fn covered(regions: Seq<Region>, p: Pos) -> bool {
    exists|i: int| 0 <= i < regions.len() && #[trigger] regions[i].has(p)
}

/// Every region is well formed, and they come in the order in which a scan
/// meets their first pixels.
pub open spec fn regions_ok(grid: Picture, regions: Seq<Region>) -> bool {
    &&& forall|i: int| 0 <= i < regions.len() ==> region_ok(grid, #[trigger] regions[i])
    &&& forall|i: int, j: int|
        #![trigger regions[i], regions[j]]
        0 <= i < j < regions.len() ==> scan_before(
            regions[i].positions()[0],
            regions[j].positions()[0],
        )
}

/// No pixel belongs to two regions.
pub open spec fn disjoint(regions: Seq<Region>) -> bool {
    forall|i: int, j: int, p: Pos|
        0 <= i < j < regions.len() ==> !(#[trigger] regions[i].has(p) && #[trigger] regions[j].has(
            p,
        ))
}

/// `regions` is the segmentation of `grid`: well-formed regions, in scan
/// order, that share no pixel and between them hold every pixel that is not
/// fully transparent.
pub open spec fn is_segmentation(grid: Picture, regions: Seq<Region>) -> bool {
    &&& regions_ok(grid, regions)
    &&& disjoint(regions)
    &&& forall|p: Pos| #[trigger] grid.is_opaque(p) ==> covered(regions, p)
}

/// What holds of the regions found when a scan has come to `at`: they hold
/// every opaque pixel before `at`, and each of them starts before `at`.
spec fn scanned(grid: Picture, regions: Seq<Region>, at: Pos) -> bool {
    &&& regions_ok(grid, regions)
    &&& disjoint(regions)
    &&& forall|p: Pos| #[trigger] grid.is_opaque(p) && scan_before(p, at) ==> covered(regions, p)
    &&& forall|i: int|
        0 <= i < regions.len() ==> scan_before((#[trigger] regions[i]).positions()[0], at)
}

/// A pixel is marked exactly when a region holds it or the fill under way
/// has reached it.
spec fn marks_match(
    grid: Picture,
    marks: Seq<bool>,
    regions: Seq<Region>,
    order: Seq<Pos>,
) -> bool {
    &&& marks.len() == grid.cell_count()
    &&& forall|p: Pos|
        grid.contains(p) ==> (marks[#[trigger] grid.cell_index(p)] <==> (covered(regions, p)
            || order.contains(p)))
}

/// What holds of every pixel that a fill from `seed` reaches.
spec fn member_ok(grid: Picture, regions: Seq<Region>, seed: Pos, p: Pos) -> bool {
    &&& grid.contains(p)
    &&& grid.color_at(p) == grid.color_at(seed)
    &&& !covered(regions, p)
    &&& (p == seed || scan_before(seed, p))
}

/// The order in which a fill looks at the neighbours of a pixel: right,
/// down, left, up.
pub open spec fn fill_dir(m: int) -> int {
    if m == 0 {
        1
    } else if m == 1 {
        0
    } else if m == 2 {
        3
    } else {
        2
    }
}

/// The pixels reached once a fill has looked at the first `tried`
/// neighbours of `here`: those in `order`, then each neighbour that is a
/// pixel of the colour of `here` and was not reached before.
pub open spec fn fresh(grid: Picture, order: Seq<Pos>, here: Pos, tried: int) -> Seq<Pos>
    decreases tried,
{
    if tried <= 0 {
        order
    } else {
        let so_far = fresh(grid, order, here, tried - 1);
        let q = step(here, fill_dir(tried - 1));
        if grid.contains(q) && grid.color_at(q) == grid.color_at(here) && !so_far.contains(q) {
            so_far.push(q)
        } else {
            so_far
        }
    }
}

/// The pixels that a fill reaches in the end, when it has reached `order`
/// and has looked at the neighbours of the first `done` of them: it goes on
/// with the next of `order`, for as long as there is one. `fuel` bounds the
/// number of pixels still to look at.
pub open spec fn fill(grid: Picture, order: Seq<Pos>, done: int, fuel: nat) -> Seq<Pos>
    decreases fuel,
{
    if fuel == 0 || done < 0 || done >= order.len() {
        order
    } else {
        fill(grid, fresh(grid, order, order[done], 4), done + 1, (fuel - 1) as nat)
    }
}

/// The region of `seed`, in the order in which a breadth-first fill reaches
/// its pixels.
pub open spec fn region_of(grid: Picture, seed: Pos) -> Seq<Pos> {
    fill(grid, seq![seed], 0, grid.cell_count())
}

/// The pixels of every region are listed in the order in which a
/// breadth-first fill from the first reaches them.
pub open spec fn in_fill_order(grid: Picture, regions: Seq<Region>) -> bool {
    forall|i: int|
        0 <= i < regions.len() ==> (#[trigger] regions[i]).positions() == region_of(
            grid,
            regions[i].positions()[0],
        )
}

/// The neighbour of the `k`-th pixel reached, in direction `d`, has been
/// reached too if it is a pixel of the same colour.
spec fn explored(grid: Picture, order: Seq<Pos>, k: int, d: int) -> bool {
    closed_at(grid, order, order[k], d)
}

/// The state of a fill from `seed`: `order` lists the pixels reached, of
/// which the first `done` have left the queue; the neighbours of all but the
/// last of these have been looked at, and `tried` neighbours of the last.
spec fn filling(
    grid: Picture,
    regions: Seq<Region>,
    seed: Pos,
    marks: Seq<bool>,
    order: Seq<Pos>,
    done: int,
    tried: int,
) -> bool {
    &&& 0 <= done <= order.len()
    &&& 0 <= tried <= 4
    &&& order.len() > 0
    &&& order[0] == seed
    &&& grid.is_opaque(seed)
    &&& marks_match(grid, marks, regions, order)
    &&& order.no_duplicates()
    &&& forall|k: int| 0 <= k < order.len() ==> member_ok(grid, regions, seed, #[trigger] order[k])
    &&& linked(order)
    &&& forall|k: int, d: int|
        0 <= k < done - 1 && 0 <= d < 4 ==> #[trigger] explored(grid, order, k, d)
    &&& forall|m: int|
        0 <= m < tried && done >= 1 ==> #[trigger] explored(grid, order, done - 1, fill_dir(m))
}

/// The number of pixels not yet marked.
spec fn unmarked(marks: Seq<bool>) -> nat
    decreases marks.len(),
{
    if marks.len() == 0 {
        0
    } else if marks.last() {
        unmarked(marks.drop_last())
    } else {
        unmarked(marks.drop_last()) + 1
    }
}

proof fn lemma_unmarked_bound(marks: Seq<bool>)
    ensures
        unmarked(marks) <= marks.len(),
    decreases marks.len(),
{
    if marks.len() > 0 {
        lemma_unmarked_bound(marks.drop_last());
    }
}

proof fn lemma_mark(marks: Seq<bool>, i: int)
    requires
        0 <= i < marks.len(),
        !marks[i],
    ensures
        unmarked(marks.update(i, true)) + 1 == unmarked(marks),
    decreases marks.len(),
{
    let after = marks.update(i, true);
    if i == marks.len() - 1 {
        assert(after.drop_last() =~= marks.drop_last());
    } else {
        lemma_mark(marks.drop_last(), i);
        assert(after.drop_last() =~= marks.drop_last().update(i, true));
    }
}

proof fn lemma_covered_push(regions: Seq<Region>, region: Region, p: Pos)
    ensures
        covered(regions.push(region), p) <==> covered(regions, p) || region.has(p),
{
    let more = regions.push(region);
    if covered(regions, p) {
        let i = choose|i: int| 0 <= i < regions.len() && regions[i].has(p);
        assert(more[i].has(p));
    }
    if region.has(p) {
        assert(more[regions.len() as int].has(p));
    }
    if covered(more, p) {
        let i = choose|i: int| 0 <= i < more.len() && more[i].has(p);
        if i < regions.len() {
            assert(regions[i].has(p));
        }
    }
}

proof fn lemma_fill_start(
    grid: Picture,
    regions: Seq<Region>,
    seed: Pos,
    marks: Seq<bool>,
    marked: Seq<bool>,
)
    requires
        grid.is_opaque(seed),
        marks_match(grid, marks, regions, Seq::empty()),
        !marks[grid.cell_index(seed)],
        marked == marks.update(grid.cell_index(seed), true),
    ensures
        filling(grid, regions, seed, marked, seq![seed], 0, 4),
{
    let order = seq![seed];
    grid.lemma_cell_index(seed, seed);
    assert(order[0] == seed);
    assert forall|p: Pos| grid.contains(p) implies (marked[#[trigger] grid.cell_index(p)] <==> (
    covered(regions, p) || order.contains(p))) by {
        grid.lemma_cell_index(p, seed);
        assert(!Seq::<Pos>::empty().contains(p));
        if order.contains(p) {
            let k = choose|k: int| 0 <= k < order.len() && order[k] == p;
            assert(p == seed);
        }
    }
    assert(member_ok(grid, regions, seed, seed));
}

proof fn lemma_fill_pop(
    grid: Picture,
    regions: Seq<Region>,
    seed: Pos,
    marks: Seq<bool>,
    order: Seq<Pos>,
    done: int,
)
    requires
        filling(grid, regions, seed, marks, order, done, 4),
        done < order.len(),
    ensures
        filling(grid, regions, seed, marks, order, done + 1, 0),
{
    assert forall|k: int, d: int| 0 <= k < done && 0 <= d < 4 implies #[trigger] explored(
        grid,
        order,
        k,
        d,
    ) by {
        if k == done - 1 {
            assert(explored(grid, order, done - 1, fill_dir(fill_dir(d))));
        }
    }
}

proof fn lemma_fill_skip(
    grid: Picture,
    regions: Seq<Region>,
    seed: Pos,
    marks: Seq<bool>,
    order: Seq<Pos>,
    done: int,
    tried: int,
)
    requires
        regions_ok(grid, regions),
        filling(grid, regions, seed, marks, order, done, tried),
        1 <= done,
        tried < 4,
        ({
            let q = step(order[done - 1], fill_dir(tried));
            grid.contains(q) && grid.color_at(q) == grid.color_at(seed) ==> marks[grid.cell_index(
                q,
            )]
        }),
    ensures
        filling(grid, regions, seed, marks, order, done, tried + 1),
{
    let here = order[done - 1];
    let d = fill_dir(tried);
    let q = step(here, d);
    assert(member_ok(grid, regions, seed, here));
    assert(explored(grid, order, done - 1, d)) by {
        if grid.contains(q) && grid.color_at(q) == grid.color_at(here) {
            assert(marks[grid.cell_index(q)]);
            if covered(regions, q) {
                let i = choose|i: int| 0 <= i < regions.len() && regions[i].has(q);
                let members = regions[i].positions();
                assert(region_ok(grid, regions[i]));
                let k = choose|k: int| 0 <= k < members.len() && members[k] == q;
                let back = if d < 2 {
                    d + 2
                } else {
                    d - 2
                };
                assert(step(q, back) == here);
                assert(closed_at(grid, members, members[k], back));
                assert(regions[i].has(here));
                assert(covered(regions, here));
            }
        }
    }
    assert forall|m: int| 0 <= m < tried + 1 && done >= 1 implies #[trigger] explored(
        grid,
        order,
        done - 1,
        fill_dir(m),
    ) by {}
}

proof fn lemma_push_marks(
    grid: Picture,
    regions: Seq<Region>,
    marks: Seq<bool>,
    order: Seq<Pos>,
    q: Pos,
    marked: Seq<bool>,
)
    requires
        marks_match(grid, marks, regions, order),
        grid.contains(q),
        !marks[grid.cell_index(q)],
        marked == marks.update(grid.cell_index(q), true),
    ensures
        marks_match(grid, marked, regions, order.push(q)),
        !covered(regions, q),
        !order.contains(q),
{
    grid.lemma_cell_index(q, q);
    assert forall|p: Pos| grid.contains(p) implies (marked[#[trigger] grid.cell_index(p)] <==> (
    covered(regions, p) || order.push(q).contains(p))) by {
        grid.lemma_cell_index(p, q);
        lemma_push_contains(order, q, p);
    }
}

proof fn lemma_push_no_duplicates(order: Seq<Pos>, q: Pos)
    requires
        order.no_duplicates(),
        !order.contains(q),
    ensures
        order.push(q).no_duplicates(),
{
    let longer = order.push(q);
    assert forall|i: int, j: int| 0 <= i < longer.len() && 0 <= j < longer.len() && i != j
        implies longer[i] != longer[j] by {
        if i < order.len() && j < order.len() {
            assert(order[i] != order[j]);
        } else if i < order.len() {
            assert(order.contains(order[i]));
        } else {
            assert(order.contains(order[j]));
        }
    }
}

proof fn lemma_push_linked(order: Seq<Pos>, q: Pos, j: int)
    requires
        linked(order),
        0 <= j < order.len(),
        adjacent(order[j], q),
    ensures
        linked(order.push(q)),
{
    let longer = order.push(q);
    assert forall|k: int| 0 < k < longer.len() implies #[trigger] hooked(longer, k) by {
        if k < order.len() {
            assert(hooked(order, k));
            let i = choose|i: int| 0 <= i < k && adjacent(order[i], order[k]);
            assert(adjacent(longer[i], longer[k]));
        } else {
            assert(adjacent(longer[j], longer[k]));
        }
    }
}

proof fn lemma_push_explored(grid: Picture, order: Seq<Pos>, q: Pos, k: int, d: int)
    requires
        0 <= k < order.len(),
        explored(grid, order, k, d) || q == step(order[k], d),
    ensures
        explored(grid, order.push(q), k, d),
{
    lemma_push_contains(order, q, step(order[k], d));
}

proof fn lemma_push_member(grid: Picture, regions: Seq<Region>, seed: Pos, q: Pos)
    requires
        forall|p: Pos| #[trigger] grid.is_opaque(p) && scan_before(p, seed) ==> covered(regions, p),
        grid.is_opaque(seed),
        grid.contains(q),
        grid.color_at(q) == grid.color_at(seed),
        !covered(regions, q),
        q != seed,
    ensures
        member_ok(grid, regions, seed, q),
{
    if scan_before(q, seed) {
        assert(grid.is_opaque(q));
    }
}

proof fn lemma_fill_push(
    grid: Picture,
    regions: Seq<Region>,
    seed: Pos,
    marks: Seq<bool>,
    order: Seq<Pos>,
    done: int,
    tried: int,
    q: Pos,
    marked: Seq<bool>,
)
    requires
        scanned(grid, regions, seed),
        filling(grid, regions, seed, marks, order, done, tried),
        1 <= done,
        tried < 4,
        q == step(order[done - 1], fill_dir(tried)),
        grid.contains(q),
        !marks[grid.cell_index(q)],
        grid.color_at(q) == grid.color_at(seed),
        marked == marks.update(grid.cell_index(q), true),
    ensures
        filling(grid, regions, seed, marked, order.push(q), done, tried + 1),
{
    let longer = order.push(q);
    lemma_push_marks(grid, regions, marks, order, q, marked);
    lemma_push_no_duplicates(order, q);
    assert(order.contains(order[0]));
    lemma_push_member(grid, regions, seed, q);
    assert forall|k: int| 0 <= k < longer.len() implies member_ok(
        grid,
        regions,
        seed,
        #[trigger] longer[k],
    ) by {
        if k < order.len() {
            assert(member_ok(grid, regions, seed, order[k]));
        }
    }
    assert(adjacent(order[done - 1], q));
    lemma_push_linked(order, q, done - 1);
    assert forall|k: int, d: int| 0 <= k < done - 1 && 0 <= d < 4 implies #[trigger] explored(
        grid,
        longer,
        k,
        d,
    ) by {
        assert(explored(grid, order, k, d));
        lemma_push_explored(grid, order, q, k, d);
    }
    assert forall|m: int| 0 <= m < tried + 1 && done >= 1 implies #[trigger] explored(
        grid,
        longer,
        done - 1,
        fill_dir(m),
    ) by {
        if m < tried {
            assert(explored(grid, order, done - 1, fill_dir(m)));
        }
        lemma_push_explored(grid, order, q, done - 1, fill_dir(m));
    }
}

proof fn lemma_fill_done(
    grid: Picture,
    regions: Seq<Region>,
    seed: Pos,
    marks: Seq<bool>,
    region: Region,
)
    requires
        scanned(grid, regions, seed),
        filling(
            grid,
            regions,
            seed,
            marks,
            region.positions(),
            region.positions().len() as int,
            4,
        ),
        region.color == grid.color_at(seed),
    ensures
        scanned(grid, regions.push(region), (seed.0, seed.1 + 1)),
        marks_match(grid, marks, regions.push(region), Seq::empty()),
{
    let order = region.positions();
    let more = regions.push(region);
    let next = (seed.0, seed.1 + 1);
    assert(region_ok(grid, region)) by {
        assert forall|k: int| 0 <= k < order.len() implies grid.contains(#[trigger] order[k])
            && grid.color_at(order[k]) == region.color by {
            assert(member_ok(grid, regions, seed, order[k]));
        }
        assert forall|k: int, d: int| 0 <= k < order.len() && 0 <= d < 4 implies #[trigger] closed_at(
            grid,
            order,
            order[k],
            d,
        ) by {
            if k == order.len() - 1 {
                assert(explored(grid, order, k, fill_dir(fill_dir(d))));
            } else {
                assert(explored(grid, order, k, d));
            }
        }
        assert forall|k: int| 0 < k < order.len() implies scan_before(
            order[0],
            #[trigger] order[k],
        ) by {
            assert(member_ok(grid, regions, seed, order[k]));
        }
    }
    assert forall|i: int| 0 <= i < more.len() implies region_ok(grid, #[trigger] more[i]) by {
        if i < regions.len() {
            assert(region_ok(grid, regions[i]));
        }
    }
    assert forall|i: int, j: int|
        #![trigger more[i], more[j]]
        0 <= i < j < more.len() implies scan_before(
        more[i].positions()[0],
        more[j].positions()[0],
    ) by {
        if j < regions.len() {
            assert(scan_before(regions[i].positions()[0], regions[j].positions()[0]));
        } else {
            assert(scan_before(regions[i].positions()[0], seed));
        }
    }
    assert forall|i: int, j: int, p: Pos| 0 <= i < j < more.len() implies !(#[trigger] more[i].has(
        p,
    ) && #[trigger] more[j].has(p)) by {
        if j < regions.len() {
            assert(!(regions[i].has(p) && regions[j].has(p)));
        } else if more[j].has(p) {
            let k = choose|k: int| 0 <= k < order.len() && order[k] == p;
            assert(member_ok(grid, regions, seed, order[k]));
            assert(!regions[i].has(p));
        }
    }
    assert forall|p: Pos| #[trigger] grid.is_opaque(p) && scan_before(p, next) implies covered(
        more,
        p,
    ) by {
        lemma_covered_push(regions, region, p);
        if !scan_before(p, seed) {
            assert(p == seed);
            assert(order[0] == p);
        }
    }
    assert forall|i: int| 0 <= i < more.len() implies scan_before(
        (#[trigger] more[i]).positions()[0],
        next,
    ) by {
        if i < regions.len() {
            assert(scan_before(regions[i].positions()[0], seed));
        }
    }
    assert forall|p: Pos| grid.contains(p) implies (marks[#[trigger] grid.cell_index(p)] <==> (
    covered(more, p) || Seq::<Pos>::empty().contains(p))) by {
        lemma_covered_push(regions, region, p);
    }
}

proof fn lemma_scan_skip(grid: Picture, regions: Seq<Region>, marks: Seq<bool>, at: Pos)
    requires
        scanned(grid, regions, at),
        marks_match(grid, marks, regions, Seq::empty()),
        grid.contains(at),
        marks[grid.cell_index(at)] || grid.color_at(at).a == 0,
    ensures
        scanned(grid, regions, (at.0, at.1 + 1)),
{
    let next = (at.0, at.1 + 1);
    assert forall|p: Pos| #[trigger] grid.is_opaque(p) && scan_before(p, next) implies covered(
        regions,
        p,
    ) by {
        if !scan_before(p, at) {
            assert(p == at);
            assert(marks[grid.cell_index(at)]);
        }
    }
    assert forall|i: int| 0 <= i < regions.len() implies scan_before(
        (#[trigger] regions[i]).positions()[0],
        next,
    ) by {
        assert(scan_before(regions[i].positions()[0], at));
    }
}

proof fn lemma_next_column(grid: Picture, regions: Seq<Region>, x: int)
    requires
        scanned(grid, regions, (x, grid.height as int)),
    ensures
        scanned(grid, regions, (x + 1, 0)),
{
    let at = (x, grid.height as int);
    assert forall|p: Pos| #[trigger] grid.is_opaque(p) && scan_before(p, (x + 1, 0)) implies covered(
        regions,
        p,
    ) by {
        assert(scan_before(p, at));
    }
    assert forall|i: int| 0 <= i < regions.len() implies scan_before(
        (#[trigger] regions[i]).positions()[0],
        (x + 1, 0),
    ) by {
        assert(scan_before(regions[i].positions()[0], at));
    }
}

proof fn lemma_scan_start(grid: Picture, marks: Seq<bool>)
    requires
        marks.len() == grid.cell_count(),
        forall|i: int| 0 <= i < marks.len() ==> !marks[i],
    ensures
        scanned(grid, Seq::empty(), (0, 0)),
        marks_match(grid, marks, Seq::empty(), Seq::empty()),
{
    assert forall|p: Pos| grid.contains(p) implies (marks[#[trigger] grid.cell_index(p)] <==> (
    covered(Seq::empty(), p) || Seq::<Pos>::empty().contains(p))) by {
        grid.lemma_cell_index(p, p);
    }
}

proof fn lemma_scan_end(grid: Picture, regions: Seq<Region>)
    requires
        scanned(grid, regions, (grid.width as int, 0)),
    ensures
        is_segmentation(grid, regions),
{
    assert forall|p: Pos| #[trigger] grid.is_opaque(p) implies covered(regions, p) by {
        assert(scan_before(p, (grid.width as int, 0)));
    }
}

/// The regions of a segmentation part the opaque pixels among them: a
/// pixel belongs to a region exactly when it is in the picture and not fully
/// transparent, and no pixel belongs to two regions.
pub proof fn lemma_regions_partition(grid: Picture, regions: Seq<Region>)
    requires
        is_segmentation(grid, regions),
    ensures
        forall|p: Pos| covered(regions, p) <==> grid.is_opaque(p),
        forall|i: int, j: int, p: Pos|
            0 <= i < regions.len() && 0 <= j < regions.len() && i != j ==> !(
            #[trigger] regions[i].has(p) && #[trigger] regions[j].has(p)),
{
    assert forall|p: Pos| covered(regions, p) implies grid.is_opaque(p) by {
        let i = choose|i: int| 0 <= i < regions.len() && #[trigger] regions[i].has(p);
        let members = regions[i].positions();
        assert(region_ok(grid, regions[i]));
        let k = choose|k: int| 0 <= k < members.len() && members[k] == p;
        assert(grid.contains(members[k]));
    }
    assert forall|i: int, j: int, p: Pos|
        0 <= i < regions.len() && 0 <= j < regions.len() && i != j implies !(
    #[trigger] regions[i].has(p) && #[trigger] regions[j].has(p)) by {
        if i < j {
            assert(!(regions[i].has(p) && regions[j].has(p)));
        } else {
            assert(!(regions[j].has(p) && regions[i].has(p)));
        }
    }
}

/// A picture without an opaque pixel has no regions.
pub proof fn lemma_transparent_has_no_regions(grid: Picture, regions: Seq<Region>)
    requires
        is_segmentation(grid, regions),
        forall|p: Pos| grid.contains(p) ==> grid.color_at(p).a == 0,
    ensures
        regions.len() == 0,
{
    if regions.len() > 0 {
        let members = regions[0].positions();
        assert(region_ok(grid, regions[0]));
        assert(grid.contains(members[0]));
    }
}

fn fill_direction(m: u8) -> (d: u8)
    requires
        m < 4,
    ensures
        d == fill_dir(m as int),
        d < 4,
{
    if m == 0 {
        1
    } else if m == 1 {
        0
    } else if m == 2 {
        3
    } else {
        2
    }
}

/// Collects the region of `seed`: every pixel that a chain of side-by-side
/// pixels of the colour of `seed` joins to it. Marks what it collects.
fn flood_fill(
    grid: &PixelGrid,
    marks: &mut Vec<bool>,
    seed: Point,
    Ghost(regions): Ghost<Seq<Region>>,
) -> (piece: Vec<Point>)
    requires
        scanned(grid@, regions, seed@),
        grid@.is_opaque(seed@),
        marks_match(grid@, old(marks)@, regions, Seq::empty()),
        !old(marks)[grid@.cell_index(seed@)],
    ensures
        filling(grid@, regions, seed@, final(marks)@, points_view(piece@), piece.len() as int, 4),
        points_view(piece@) == region_of(grid@, seed@),
{
    let color = grid.color(seed);
    let width = grid.width();
    let height = grid.height();
    let mut piece: Vec<Point> = Vec::new();
    let mut queue: VecDeque<Point> = VecDeque::new();
    queue.push_back(seed);
    let at = grid.index_of(seed);
    let ghost blank = marks@;
    marks.set(at, true);
    let ghost mut order: Seq<Pos> = seq![seed@];
    proof {
        lemma_fill_start(grid@, regions, seed@, blank, marks@);
        assert(order =~= points_view(piece@) + points_view(queue@));
        lemma_unmarked_bound(blank);
        lemma_mark(blank, at as int);
    }
    while queue.len() > 0
        invariant
            scanned(grid@, regions, seed@),
            width == grid@.width,
            height == grid@.height,
            color == grid@.color_at(seed@),
            filling(grid@, regions, seed@, marks@, order, piece.len() as int, 4),
            order == points_view(piece@) + points_view(queue@),
            order.len() + unmarked(marks@) <= grid@.cell_count(),
            region_of(grid@, seed@) == fill(
                grid@,
                order,
                piece.len() as int,
                (grid@.cell_count() - piece.len()) as nat,
            ),
        decreases 2 * unmarked(marks@) + queue.len(),
    {
        let ghost budget = 2 * unmarked(marks@) + queue.len();
        let ghost reached = order;
        let here = queue.pop_front().unwrap();
        piece.push(here);
        proof {
            assert(order =~= points_view(piece@) + points_view(queue@));
            lemma_fill_pop(grid@, regions, seed@, marks@, order, piece.len() - 1);
            assert(reached[piece.len() - 1] == here@);
        }
        let mut m: u8 = 0;
        while m < 4
            invariant
                m <= 4,
                order == fresh(grid@, reached, here@, m as int),
                order.len() + unmarked(marks@) <= grid@.cell_count(),
                piece.len() <= reached.len() <= grid@.cell_count(),
                reached[piece.len() - 1] == here@,
                region_of(grid@, seed@) == fill(
                    grid@,
                    reached,
                    piece.len() - 1,
                    (grid@.cell_count() - (piece.len() - 1)) as nat,
                ),
                scanned(grid@, regions, seed@),
                width == grid@.width,
                height == grid@.height,
                color == grid@.color_at(seed@),
                filling(grid@, regions, seed@, marks@, order, piece.len() as int, m as int),
                order == points_view(piece@) + points_view(queue@),
                piece.len() >= 1,
                here == piece[piece.len() - 1],
                2 * unmarked(marks@) + queue.len() < budget,
            decreases 4 - m,
        {
            let d = fill_direction(m);
            let mut found = false;
            assert(order[piece.len() - 1] == here@);
            if let Some(n) = here.stepped(d) {
                if n.x < width && n.y < height {
                    let i = grid.index_of(n);
                    if !marks[i] {
                        if grid.color(n) == color {
                            let ghost sparse = marks@;
                            queue.push_back(n);
                            marks.set(i, true);
                            proof {
                                lemma_push_marks(grid@, regions, sparse, order, n@, marks@);
                                lemma_fill_push(
                                    grid@,
                                    regions,
                                    seed@,
                                    sparse,
                                    order,
                                    piece.len() as int,
                                    m as int,
                                    n@,
                                    marks@,
                                );
                                lemma_mark(sparse, i as int);
                                assert(member_ok(grid@, regions, seed@, order[piece.len() - 1]));
                                assert(fresh(grid@, reached, here@, m + 1) == order.push(n@));
                                order = order.push(n@);
                                assert(order =~= points_view(piece@) + points_view(queue@));
                            }
                            found = true;
                        }
                    }
                }
            }
            if !found {
                proof {
                    lemma_fill_skip(
                        grid@,
                        regions,
                        seed@,
                        marks@,
                        order,
                        piece.len() as int,
                        m as int,
                    );
                    assert(explored(grid@, order, piece.len() - 1, fill_dir(m as int)));
                    assert(fresh(grid@, reached, here@, m + 1) == order);
                }
            }
            m += 1;
        }
    }
    assert(order =~= points_view(piece@));
    piece
}

/// Segments a grid into its regions.
///
/// Columns are scanned from the left, each from the top. A pixel that is
/// not fully transparent and belongs to no region yet starts a new one,
/// which a breadth-first fill over equal neighbours completes.
pub fn segment_regions(grid: &PixelGrid) -> (regions: Vec<Region>)
    ensures
        is_segmentation(grid@, regions@),
        in_fill_order(grid@, regions@),
{
    let width = grid.width();
    let height = grid.height();
    let count = grid.len();
    let mut marks: Vec<bool> = Vec::new();
    while marks.len() < count
        invariant
            marks.len() <= count,
            forall|i: int| 0 <= i < marks.len() ==> !marks[i],
        decreases count - marks.len(),
    {
        marks.push(false);
    }
    let mut regions: Vec<Region> = Vec::new();
    proof {
        lemma_scan_start(grid@, marks@);
    }
    let mut x: u32 = 0;
    while x < width
        invariant
            x <= width,
            width == grid@.width,
            height == grid@.height,
            scanned(grid@, regions@, (x as int, 0)),
            marks_match(grid@, marks@, regions@, Seq::empty()),
            in_fill_order(grid@, regions@),
        decreases width - x,
    {
        let mut y: u32 = 0;
        while y < height
            invariant
                x < width,
                y <= height,
                width == grid@.width,
                height == grid@.height,
                scanned(grid@, regions@, (x as int, y as int)),
                marks_match(grid@, marks@, regions@, Seq::empty()),
                in_fill_order(grid@, regions@),
            decreases height - y,
        {
            let seed = Point { x, y };
            let at = grid.index_of(seed);
            let color = grid.color(seed);
            if marks[at] || color.a == 0 {
                proof {
                    lemma_scan_skip(grid@, regions@, marks@, seed@);
                }
            } else {
                let ghost earlier = regions@;
                let piece = flood_fill(grid, &mut marks, seed, Ghost(earlier));
                let region = Region { color, pixels: piece };
                proof {
                    lemma_fill_done(grid@, earlier, seed@, marks@, region);
                }
                regions.push(region);
                assert forall|i: int| 0 <= i < regions@.len() implies (#[trigger] regions@[i]).positions()
                    == region_of(grid@, regions@[i].positions()[0]) by {
                    if i < earlier.len() {
                        assert(regions@[i] == earlier[i]);
                    }
                }
            }
            y += 1;
        }
        proof {
            lemma_next_column(grid@, regions@, x as int);
        }
        x += 1;
    }
    proof {
        lemma_scan_end(grid@, regions@);
    }
    regions
}

} // verus!
