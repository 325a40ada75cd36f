//! The area that contours enclose.
//!
//! Areas are signed and taken twice, so that they stay integers: a loop
//! that keeps its inside on the left, as drawn with `y` growing downwards,
//! counts positive, a loop round a hole negative.

use crate::boundary::boundary;
use crate::geometry::{cross, delta, Pos, Seg};
use crate::join::{
    contour_points, extend, join_traces, joined_contours, path_points, trace, traces,
};
use crate::loops::lemma_traces_close;
use crate::outline::{
    lemma_boundary_balanced, lemma_boundary_contains, lemma_boundary_no_duplicates,
    lemma_boundary_sum, lemma_rim_is_step, lemma_sum_concat,
};
use crate::seq_facts::lemma_push_contains;
use crate::walks::{chained, is_step, lemma_extend_is_walk, lemma_join_uses_each_edge_once};
use vstd::prelude::*;

verus! {

/// The sum of [`cross`] over a list of segments.
pub open spec fn edge_sum(t: Seq<Seg>) -> int
    decreases t.len(),
{
    if t.len() == 0 {
        0
    } else {
        edge_sum(t.drop_last()) + cross(t.last())
    }
}

/// The sum of [`cross`] along a line of points, from each to the next.
pub open spec fn path_sum(points: Seq<Pos>) -> int
    decreases points.len(),
{
    if points.len() < 2 {
        0
    } else {
        path_sum(points.drop_last()) + cross((points[points.len() - 2], points.last()))
    }
}

/// Twice the signed area of the polygon with the given corners, by the
/// shoelace formula: the line of points, closed from the last to the first.
pub open spec fn twice_area(points: Seq<Pos>) -> int {
    if points.len() == 0 {
        0
    } else {
        path_sum(points) + cross((points.last(), points[0]))
    }
}

/// Twice the signed area of all the given polygons together.
pub open spec fn total_area(contours: Seq<Seq<Pos>>) -> int
    decreases contours.len(),
{
    if contours.len() == 0 {
        0
    } else {
        total_area(contours.drop_last()) + twice_area(contours.last())
    }
}

/// Whether `b` lies on the line through `a` in the direction `d`.
#[verifier::opaque]
pub open spec fn in_line(a: Pos, b: Pos, d: Pos) -> bool {
    (b.0 - a.0) * d.1 - (b.1 - a.1) * d.0 == 0
}

/// A whole walk: at least one edge, each starting where the one before ends.
pub open spec fn is_chain(t: Seq<Seg>) -> bool {
    t.len() >= 1 && chained(t, t[0].0)
}

/// Going on from `b` in the direction of the line from `a` adds to the sum
/// what the detour over `b` would.
proof fn lemma_straight_on(a: Pos, e: Seg)
    requires
        in_line(a, e.0, delta(e)),
    ensures
        cross((a, e.1)) == cross((a, e.0)) + cross(e),
        in_line(a, e.1, delta(e)),
{
    reveal(cross);
    reveal(in_line);
    let ax = a.0;
    let ay = a.1;
    let bx = e.0.0;
    let by = e.0.1;
    let dx = e.1.0 - e.0.0;
    let dy = e.1.1 - e.0.1;
    assert((bx + dx) * ay - ax * (by + dy) == (bx * ay - ax * by) + ((bx + dx) * by - bx * (by
        + dy)) + ((bx - ax) * dy - (by - ay) * dx)) by (nonlinear_arith);
    assert((bx + dx - ax) * dy - (by + dy - ay) * dx == (bx - ax) * dy - (by - ay) * dx)
        by (nonlinear_arith);
    assert(e == ((bx, by), (bx + dx, by + dy)));
}

proof fn lemma_own_line(e: Seg)
    ensures
        in_line(e.0, e.1, delta(e)),
{
    reveal(in_line);
    let dx = e.1.0 - e.0.0;
    let dy = e.1.1 - e.0.1;
    assert(dx * dy - dy * dx == 0) by (nonlinear_arith);
}

proof fn lemma_cross_of_point(p: Pos)
    ensures
        cross((p, p)) == 0,
{
    reveal(cross);
    assert(p.0 * p.1 - p.0 * p.1 == 0);
}

/// The points along a chain run from its start to its end, and the sum
/// along them is the sum over its edges, whether or not the points are kept
/// at which the chain goes straight on.
pub proof fn lemma_path_sum(t: Seq<Seg>, keep: bool)
    requires
        is_chain(t),
    ensures
        path_points(t, keep).len() >= 2,
        path_points(t, keep)[0] == t[0].0,
        path_points(t, keep).last() == t.last().1,
        in_line(
            path_points(t, keep)[path_points(t, keep).len() - 2],
            t.last().1,
            delta(t.last()),
        ),
        path_sum(path_points(t, keep)) == edge_sum(t),
    decreases t.len(),
{
    let points = path_points(t, keep);
    let e = t.last();
    if t.len() == 1 {
        assert(points =~= seq![t[0].0, t[0].1]);
        assert(points.drop_last() =~= seq![t[0].0]);
        assert(path_sum(points.drop_last()) == 0);
        assert(t.drop_last() =~= Seq::<Seg>::empty());
        assert(edge_sum(t.drop_last()) == 0);
        assert((points[0], points[1]) == t[0]);
        lemma_own_line(e);
    } else {
        let before = t.drop_last();
        assert(before[0] == t[0]);
        assert forall|i: int| 0 <= i < before.len() implies (#[trigger] before[i]).0 == (if i
            == 0 {
            before[0].0
        } else {
            before[i - 1].1
        }) by {
            assert(before[i] == t[i]);
            if i > 0 {
                assert(before[i - 1] == t[i - 1]);
            }
        }
        lemma_path_sum(before, keep);
        let base = path_points(before, keep);
        let prev = t[t.len() - 2];
        assert(prev == before.last());
        assert(e.0 == prev.1);
        let a = base[base.len() - 2];
        let b = base.last();
        assert(b == e.0);
        assert((b, e.1) == e);
        if !keep && delta(prev) == delta(e) {
            assert(points == base.drop_last().push(e.1));
            assert(points.drop_last() =~= base.drop_last());
            assert(points[points.len() - 2] == a);
            assert(path_sum(base) == path_sum(base.drop_last()) + cross((a, b)));
            assert(path_sum(points) == path_sum(base.drop_last()) + cross((a, e.1)));
            lemma_straight_on(a, e);
        } else {
            assert(points == base.push(e.1));
            assert(points.drop_last() =~= base);
            assert(points[points.len() - 2] == b);
            lemma_own_line(e);
        }
    }
}

/// The area of the contour of a chain is the sum over its edges and over
/// the segment that closes it.
pub proof fn lemma_contour_area(t: Seq<Seg>, keep: bool)
    requires
        is_chain(t),
    ensures
        twice_area(contour_points(t, keep)) == edge_sum(t) + cross((t.last().1, t[0].0)),
        contour_points(t, keep).len() >= 1,
        contour_points(t, keep)[0] == t[0].0,
{
    lemma_path_sum(t, keep);
    let points = path_points(t, keep);
    if points.first() == points.last() {
        let shut = points.drop_last();
        assert(shut.last() == points[points.len() - 2]);
        assert(path_sum(points) == path_sum(shut) + cross((shut.last(), points.last())));
        lemma_cross_of_point(points.last());
    }
}

/// Every walk into which edges are joined is a chain.
pub proof fn lemma_traces_are_chains(edges: Seq<Seg>, rem: Set<Seg>, i: int)
    requires
        rem.finite(),
        0 <= i < traces(edges, rem).len(),
    ensures
        is_chain(traces(edges, rem)[i]),
    decreases edges.len(),
{
    if edges.len() > 0 {
        let seed = edges.first();
        let rest = edges.drop_first();
        if rem.contains(seed) {
            let t = trace(rem, seed);
            if i == 0 {
                let onward = extend(rem.remove(seed), seed.0, seed.1);
                lemma_extend_is_walk(rem.remove(seed), seed.0, seed.1);
                assert(t[0] == seed);
                assert forall|k: int| 0 <= k < t.len() implies (#[trigger] t[k]).0 == (if k == 0 {
                    t[0].0
                } else {
                    t[k - 1].1
                }) by {
                    if k > 0 {
                        assert(t[k] == onward[k - 1]);
                        if k > 1 {
                            assert(t[k - 1] == onward[k - 2]);
                        }
                    }
                }
            } else {
                let later = traces(rest, rem.difference(t.to_set()));
                assert(traces(edges, rem)[i] == later[i - 1]);
                lemma_traces_are_chains(rest, rem.difference(t.to_set()), i - 1);
            }
        } else {
            lemma_traces_are_chains(rest, rem, i);
        }
    }
}

proof fn lemma_drop_last_contains(s: Seq<Pos>, p: Pos)
    requires
        s.len() >= 1,
        s.drop_last().contains(p),
    ensures
        s.contains(p),
{
    let i = choose|i: int| 0 <= i < s.drop_last().len() && s.drop_last()[i] == p;
    assert(s[i] == p);
}

/// Every point along a chain that stays when the points are left out at
/// which it goes straight on is a point along it when every point is kept.
pub proof fn lemma_short_path_within_full(t: Seq<Seg>, p: Pos)
    requires
        path_points(t, false).contains(p),
    ensures
        path_points(t, true).contains(p),
    decreases t.len(),
{
    if t.len() == 1 {
    } else if t.len() > 1 {
        let short = path_points(t.drop_last(), false);
        let full = path_points(t.drop_last(), true);
        let e = t.last();
        lemma_push_contains(full, e.1, p);
        if p != e.1 {
            if delta(t[t.len() - 2]) == delta(e) {
                lemma_push_contains(short.drop_last(), e.1, p);
                if short.len() >= 1 {
                    lemma_drop_last_contains(short, p);
                } else {
                    assert(short.drop_last() =~= Seq::<Pos>::empty());
                    if short.drop_last().contains(p) {
                        let i = choose|i: int|
                            0 <= i < short.drop_last().len() && short.drop_last()[i] == p;
                    }
                }
            } else {
                lemma_push_contains(short, e.1, p);
            }
            lemma_short_path_within_full(t.drop_last(), p);
        }
    }
}

/// Every corner of the contour of a chain is a point of its contour with
/// every point kept.
pub proof fn lemma_short_contour_within_full(t: Seq<Seg>, p: Pos)
    requires
        is_chain(t),
        contour_points(t, false).contains(p),
    ensures
        contour_points(t, true).contains(p),
{
    let short = path_points(t, false);
    let full = path_points(t, true);
    lemma_path_sum(t, false);
    lemma_path_sum(t, true);
    if short.first() == short.last() {
        lemma_drop_last_contains(short, p);
        lemma_short_path_within_full(t, p);
        let i = choose|i: int| 0 <= i < full.len() && full[i] == p;
        if i == full.len() - 1 {
            assert(full.drop_last()[0] == p);
        } else {
            assert(full.drop_last()[i] == p);
        }
    } else {
        lemma_short_path_within_full(t, p);
    }
}

/// With every point kept or with the points left out at which a contour
/// goes straight on, joining gives as many contours, each along the same
/// walk: it starts at the same point and encloses the same area either way,
/// and every corner of the shorter one is a point of the longer.
pub proof fn lemma_both_modes_same_polygons(edges: Seq<Seg>)
    ensures
        joined_contours(edges, false).len() == joined_contours(edges, true).len(),
        forall|i: int|
            #![trigger joined_contours(edges, false)[i]]
            0 <= i < joined_contours(edges, true).len() ==> {
                &&& joined_contours(edges, false)[i].len() >= 1
                &&& joined_contours(edges, true)[i].len() >= 1
                &&& joined_contours(edges, false)[i][0] == joined_contours(edges, true)[i][0]
                &&& twice_area(joined_contours(edges, false)[i]) == twice_area(
                    joined_contours(edges, true)[i],
                )
                &&& forall|p: Pos|
                    joined_contours(edges, false)[i].contains(p) ==> joined_contours(
                        edges,
                        true,
                    )[i].contains(p)
            },
        total_area(joined_contours(edges, false)) == total_area(joined_contours(edges, true)),
{
    let walks = join_traces(edges);
    let short = joined_contours(edges, false);
    let full = joined_contours(edges, true);
    assert forall|i: int| 0 <= i < walks.len() implies short[i].len() >= 1 && full[i].len() >= 1
        && short[i][0] == full[i][0] && twice_area(#[trigger] short[i]) == twice_area(full[i])
        && (forall|p: Pos| short[i].contains(p) ==> full[i].contains(p)) by {
        lemma_traces_are_chains(edges, edges.to_set(), i);
        lemma_contour_area(walks[i], false);
        lemma_contour_area(walks[i], true);
        assert forall|p: Pos| short[i].contains(p) implies full[i].contains(p) by {
            lemma_short_contour_within_full(walks[i], p);
        }
    }
    lemma_total_area_same(short, full, walks.len() as int);
    assert(short.take(walks.len() as int) =~= short);
    assert(full.take(walks.len() as int) =~= full);
}

proof fn lemma_total_area_same(a: Seq<Seq<Pos>>, b: Seq<Seq<Pos>>, n: int)
    requires
        0 <= n <= a.len(),
        a.len() == b.len(),
        forall|i: int| 0 <= i < a.len() ==> twice_area(#[trigger] a[i]) == twice_area(b[i]),
    ensures
        total_area(a.take(n)) == total_area(b.take(n)),
    decreases n,
{
    if n > 0 {
        lemma_total_area_same(a, b, n - 1);
        assert(a.take(n).drop_last() =~= a.take(n - 1));
        assert(b.take(n).drop_last() =~= b.take(n - 1));
        assert(twice_area(a[n - 1]) == twice_area(b[n - 1]));
    }
}

/// With every point kept, the points along a chain spell out its edges:
/// one point more than edges, and each edge from a point to the next.
pub proof fn lemma_kept_points_are_edges(t: Seq<Seg>)
    requires
        is_chain(t),
    ensures
        path_points(t, true).len() == t.len() + 1,
        forall|i: int|
            0 <= i < t.len() ==> #[trigger] t[i] == (
                path_points(t, true)[i],
                path_points(t, true)[i + 1],
            ),
    decreases t.len(),
{
    let points = path_points(t, true);
    if t.len() > 1 {
        let before = t.drop_last();
        assert(before[0] == t[0]);
        assert forall|i: int| 0 <= i < before.len() implies (#[trigger] before[i]).0 == (if i
            == 0 {
            before[0].0
        } else {
            before[i - 1].1
        }) by {
            assert(before[i] == t[i]);
            if i > 0 {
                assert(before[i - 1] == t[i - 1]);
            }
        }
        lemma_kept_points_are_edges(before);
        let base = path_points(before, true);
        assert(points == base.push(t.last().1));
        assert forall|i: int| 0 <= i < t.len() implies #[trigger] t[i] == (
            points[i],
            points[i + 1],
        ) by {
            if i < t.len() - 1 {
                assert(before[i] == t[i]);
            } else {
                assert(before[i - 1] == t[i - 1]);
                assert(t[i].0 == t[i - 1].1);
            }
        }
    }
}

/// The walks along the boundary of a set of pixels are closed: each goes by
/// unit steps from edge to edge and ends where it starts.
pub proof fn lemma_boundary_walks_close(members: Seq<Pos>, i: int)
    requires
        0 <= i < join_traces(boundary(members)).len(),
    ensures
        is_chain(join_traces(boundary(members))[i]),
        join_traces(boundary(members))[i].last().1 == join_traces(boundary(members))[i][0].0,
{
    let rim = boundary(members);
    lemma_boundary_balanced(members);
    assert forall|e: Seg| rim.to_set().contains(e) implies is_step(e) by {
        lemma_boundary_contains(members, e);
        lemma_rim_is_step(members, e);
    }
    lemma_traces_close(rim, rim.to_set(), i);
    lemma_traces_are_chains(rim, rim.to_set(), i);
}

proof fn lemma_sum_remove(t: Seq<Seg>, j: int)
    requires
        0 <= j < t.len(),
    ensures
        edge_sum(t) == edge_sum(t.remove(j)) + cross(t[j]),
    decreases t.len(),
{
    if j == t.len() - 1 {
        assert(t.remove(j) =~= t.drop_last());
    } else {
        lemma_sum_remove(t.drop_last(), j);
        assert(t.remove(j).drop_last() =~= t.drop_last().remove(j));
        assert(t.remove(j).last() == t.last());
    }
}

/// Two lists of the same edges, each without repeats, have the same sum.
pub proof fn lemma_sum_same_edges(a: Seq<Seg>, b: Seq<Seg>)
    requires
        a.no_duplicates(),
        b.no_duplicates(),
        forall|e: Seg| a.contains(e) <==> b.contains(e),
    ensures
        edge_sum(a) == edge_sum(b),
    decreases a.len(),
{
    if a.len() == 0 {
        if b.len() > 0 {
            assert(b.contains(b[0]));
        }
    } else {
        let x = a.last();
        assert(a.contains(x));
        let j = choose|j: int| 0 <= j < b.len() && b[j] == x;
        let a1 = a.drop_last();
        let b1 = b.remove(j);
        assert forall|e: Seg| a1.contains(e) <==> b1.contains(e) by {
            if a1.contains(e) {
                let i = choose|i: int| 0 <= i < a1.len() && a1[i] == e;
                assert(a[i] == e);
                assert(a.contains(e));
                let k = choose|k: int| 0 <= k < b.len() && b[k] == e;
                assert(k != j);
                if k < j {
                    assert(b1[k] == e);
                } else {
                    assert(b1[k - 1] == e);
                }
            }
            if b1.contains(e) {
                let k = choose|k: int| 0 <= k < b1.len() && b1[k] == e;
                let from = if k < j {
                    k
                } else {
                    k + 1
                };
                assert(b[from] == e);
                assert(b.contains(e));
                let i = choose|i: int| 0 <= i < a.len() && a[i] == e;
                assert(i != a.len() - 1);
                assert(a1[i] == e);
            }
        }
        assert(b1.no_duplicates()) by {
            assert forall|i: int, k: int| 0 <= i < b1.len() && 0 <= k < b1.len() && i != k
                implies b1[i] != b1[k] by {
                let fi = if i < j {
                    i
                } else {
                    i + 1
                };
                let fk = if k < j {
                    k
                } else {
                    k + 1
                };
                assert(b1[i] == b[fi] && b1[k] == b[fk]);
            }
        }
        lemma_sum_same_edges(a1, b1);
        lemma_sum_remove(b, j);
    }
}

proof fn lemma_closed_walks_area(walks: Seq<Seq<Seg>>, contours: Seq<Seq<Pos>>, n: int)
    requires
        0 <= n <= walks.len(),
        contours.len() == walks.len(),
        forall|i: int| 0 <= i < walks.len() ==> twice_area(#[trigger] contours[i]) == edge_sum(walks[i]),
    ensures
        total_area(contours.take(n)) == edge_sum(walks.take(n).flatten()),
    decreases n,
{
    if n > 0 {
        lemma_closed_walks_area(walks, contours, n - 1);
        assert(contours.take(n).drop_last() =~= contours.take(n - 1));
        assert(twice_area(contours[n - 1]) == edge_sum(walks[n - 1]));
        assert(walks.take(n) =~= walks.take(n - 1).push(walks[n - 1]));
        walks.take(n - 1).lemma_flatten_push(walks[n - 1]);
        lemma_sum_concat(walks.take(n - 1).flatten(), walks[n - 1]);
    } else {
        assert(walks.take(0) =~= Seq::<Seq<Seg>>::empty());
    }
}

/// The contours of a set of pixels enclose, between them, as many unit
/// squares as the set has pixels: outer loops count positive, loops round
/// holes negative. This holds with every point kept as with the points left
/// out at which a contour goes straight on.
pub proof fn lemma_area_is_pixel_count(members: Seq<Pos>, keep: bool)
    requires
        members.no_duplicates(),
    ensures
        total_area(joined_contours(boundary(members), keep)) == 2 * members.len(),
{
    let rim = boundary(members);
    let walks = join_traces(rim);
    let contours = joined_contours(rim, keep);
    assert forall|i: int| 0 <= i < walks.len() implies twice_area(#[trigger] contours[i])
        == edge_sum(walks[i]) by {
        lemma_boundary_walks_close(members, i);
        lemma_contour_area(walks[i], keep);
        lemma_cross_of_point(walks[i][0].0);
    }
    lemma_closed_walks_area(walks, contours, walks.len() as int);
    assert(contours.take(walks.len() as int) =~= contours);
    assert(walks.take(walks.len() as int) =~= walks);
    lemma_join_uses_each_edge_once(rim);
    lemma_boundary_no_duplicates(members, members.len() as int);
    assert forall|e: Seg| walks.flatten().contains(e) <==> rim.contains(e) by {
        assert(walks.flatten().to_set().contains(e) <==> rim.to_set().contains(e));
    }
    lemma_sum_same_edges(walks.flatten(), rim);
    lemma_boundary_sum(members);
}

} // verus!
