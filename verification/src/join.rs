//! Joining a set of directed edges into contours.
//!
//! A contour starts with an edge that is still unused and is continued from
//! its end point by the first unused edge in the fixed direction order of
//! [`step`], until it is back at its starting point or no edge leads on.

use crate::geometry::{
    contours_view, delta, edges_view, points_view, seg_on_lattice, step, Edge, Point, Pos, Seg,
};
use crate::seq_facts::lemma_to_set_prepend;
use std::collections::HashSet;
use vstd::prelude::*;

verus! {

/// The edge by which a walk leaves `at`: the first one in direction order
/// that is still in `rem`.
pub open spec fn next_seg(rem: Set<Seg>, at: Pos) -> Option<Seg> {
    if rem.contains((at, step(at, 0))) {
        Some((at, step(at, 0)))
    } else if rem.contains((at, step(at, 1))) {
        Some((at, step(at, 1)))
    } else if rem.contains((at, step(at, 2))) {
        Some((at, step(at, 2)))
    } else if rem.contains((at, step(at, 3))) {
        Some((at, step(at, 3)))
    } else {
        None
    }
}

/// The edges that a walk standing at `at` goes on to take: one edge at
/// least if any leads on, and no more once an edge has ended at `start`.
pub open spec fn extend(rem: Set<Seg>, start: Pos, at: Pos) -> Seq<Seg>
    decreases rem.len(),
    when rem.finite()
    via extend_decreases
{
    match next_seg(rem, at) {
        None => Seq::empty(),
        Some(e) => if e.1 == start {
            seq![e]
        } else {
            seq![e] + extend(rem.remove(e), start, e.1)
        },
    }
}

#[via_fn]
proof fn extend_decreases(rem: Set<Seg>, start: Pos, at: Pos) {
    if let Some(e) = next_seg(rem, at) {
        assert(rem.contains(e));
    }
}

/// The whole walk that starts with the edge `seed`, taken from `rem`.
pub open spec fn trace(rem: Set<Seg>, seed: Seg) -> Seq<Seg> {
    seq![seed] + extend(rem.remove(seed), seed.0, seed.1)
}

/// The walks that consume `rem`, seeded by the edges of `edges` in their
/// order; an edge that an earlier walk has used seeds none.
pub open spec fn traces(edges: Seq<Seg>, rem: Set<Seg>) -> Seq<Seq<Seg>>
    decreases edges.len(),
{
    if edges.len() == 0 {
        Seq::empty()
    } else if rem.contains(edges.first()) {
        let t = trace(rem, edges.first());
        seq![t] + traces(edges.drop_first(), rem.difference(t.to_set()))
    } else {
        traces(edges.drop_first(), rem)
    }
}

/// The points along a walk: where it starts, then the end of every edge.
/// Unless `keep` is set, the end of an edge is left out where the next edge
/// goes on by the same displacement.
pub open spec fn path_points(t: Seq<Seg>, keep: bool) -> Seq<Pos>
    decreases t.len(),
{
    if t.len() == 0 {
        Seq::empty()
    } else if t.len() == 1 {
        seq![t[0].0, t[0].1]
    } else {
        let before = path_points(t.drop_last(), keep);
        if !keep && delta(t[t.len() - 2]) == delta(t.last()) {
            before.drop_last().push(t.last().1)
        } else {
            before.push(t.last().1)
        }
    }
}

/// The contour of a walk: its points, without the last one where the walk
/// has come back to its first.
pub open spec fn contour_points(t: Seq<Seg>, keep: bool) -> Seq<Pos> {
    let points = path_points(t, keep);
    if points.first() == points.last() {
        points.drop_last()
    } else {
        points
    }
}

/// The walks into which a list of edges is joined.
pub open spec fn join_traces(edges: Seq<Seg>) -> Seq<Seq<Seg>> {
    traces(edges, edges.to_set())
}

/// The contours into which a list of edges is joined.
pub open spec fn joined_contours(edges: Seq<Seg>, keep: bool) -> Seq<Seq<Pos>> {
    let walks = join_traces(edges);
    Seq::new(walks.len(), |i: int| contour_points(walks[i], keep))
}

/// The number under which an edge is held in the hash set of unused edges.
spec fn seg_key(s: Seg) -> u128 {
    (((s.0.0 * 0x1_0000_0000 + s.0.1) * 0x1_0000_0000 + s.1.0) * 0x1_0000_0000 + s.1.1) as u128
}

/// `keys` holds the key of each edge of `rem`, and of no other edge.
spec fn keys_match(keys: Set<u128>, rem: Set<Seg>) -> bool {
    &&& forall|s: Seg| #[trigger] rem.contains(s) ==> seg_on_lattice(s) && keys.contains(seg_key(s))
    &&& forall|s: Seg| seg_on_lattice(s) && #[trigger] keys.contains(seg_key(s)) ==> rem.contains(s)
}

proof fn lemma_seg_key_injective()
    ensures
        forall|a: Seg, b: Seg|
            #![trigger seg_key(a), seg_key(b)]
            seg_on_lattice(a) && seg_on_lattice(b) && seg_key(a) == seg_key(b) ==> a == b,
{
}

fn edge_key(e: Edge) -> (k: u128)
    ensures
        k == seg_key(e@),
{
    ((e.start.x as u128 * 0x1_0000_0000 + e.start.y as u128) * 0x1_0000_0000 + e.end.x as u128)
        * 0x1_0000_0000 + e.end.y as u128
}

/// Looks for the edge by which a walk leaves `at`.
fn next_edge_from(remaining: &HashSet<u128>, at: Point, Ghost(rem): Ghost<Set<Seg>>) -> (found:
    Option<Edge>)
    requires
        keys_match(remaining@, rem),
    ensures
        match found {
            Some(e) => next_seg(rem, at@) == Some(e@),
            None => next_seg(rem, at@) is None,
        },
{
    broadcast use vstd::std_specs::hash::group_hash_axioms;

    let mut d: u8 = 0;
    while d < 4
        invariant
            d <= 4,
            keys_match(remaining@, rem),
            forall|c: int| 0 <= c < d ==> !rem.contains((at@, #[trigger] step(at@, c))),
        decreases 4 - d,
    {
        if let Some(to) = at.stepped(d) {
            let e = Edge { start: at, end: to };
            let k = edge_key(e);
            if remaining.contains(&k) {
                assert(seg_on_lattice(e@));
                assert(rem.contains(e@));
                return Some(e);
            }
            assert(!rem.contains(e@));
        }
        d += 1;
    }
    None
}

/// Walks on from the end of `seed` and takes every edge used out of
/// `remaining`.
fn trace_contour(
    remaining: &mut HashSet<u128>,
    seed: Edge,
    keep_every_point: bool,
    Ghost(rem): Ghost<Set<Seg>>,
) -> (piece: Vec<Point>)
    requires
        keys_match(old(remaining)@, rem),
        rem.finite(),
    ensures
        points_view(piece@) == contour_points(
            seq![seed@] + extend(rem, seed@.0, seed@.1),
            keep_every_point,
        ),
        keys_match(final(remaining)@, rem.difference(extend(rem, seed@.0, seed@.1).to_set())),
{
    broadcast use vstd::std_specs::hash::group_hash_axioms;

    let mut piece: Vec<Point> = Vec::new();
    piece.push(seed.start);
    piece.push(seed.end);
    let mut last = seed;
    let ghost whole = extend(rem, seed@.0, seed@.1);
    let ghost mut tail: Seq<Seg> = Seq::empty();
    let ghost mut left: Set<Seg> = rem;
    proof {
        assert(points_view(piece@) =~= path_points(seq![seed@] + tail, keep_every_point));
        assert(tail + extend(left, seed@.0, last@.1) =~= whole);
        assert(left =~= rem.difference(tail.to_set()));
    }
    loop
        invariant_except_break
            whole == tail + extend(left, seed@.0, last@.1),
        invariant
            keys_match(remaining@, left),
            left.finite(),
            left == rem.difference(tail.to_set()),
            (seq![seed@] + tail).last() == last@,
            points_view(piece@) == path_points(seq![seed@] + tail, keep_every_point),
            piece.len() >= 2,
        ensures
            whole == tail,
        decreases left.len(),
    {
        match next_edge_from(remaining, last.end, Ghost(left)) {
            None => {
                assert(tail + Seq::<Seg>::empty() =~= tail);
                break ;
            },
            Some(e) => {
                let k = edge_key(e);
                remaining.remove(&k);
                let ghost walked = seq![seed@] + tail;
                let ghost longer = seq![seed@] + tail.push(e@);
                proof {
                    lemma_seg_key_injective();
                    assert(longer =~= walked.push(e@));
                    assert(longer.drop_last() =~= walked);
                    assert(longer[longer.len() - 2] == last@);
                    tail.lemma_push_to_set_commute(e@);
                    assert(left.remove(e@) =~= rem.difference(tail.push(e@).to_set()));
                }
                if !keep_every_point && last.same_delta(e) {
                    piece.pop();
                }
                piece.push(e.end);
                proof {
                    assert(points_view(piece@) =~= path_points(longer, keep_every_point));
                    if e@.1 == seed@.0 {
                        assert(tail + seq![e@] =~= tail.push(e@));
                    } else {
                        assert(tail + (seq![e@] + extend(left.remove(e@), seed@.0, e@.1))
                            =~= tail.push(e@) + extend(left.remove(e@), seed@.0, e@.1));
                    }
                    tail = tail.push(e@);
                    left = left.remove(e@);
                }
                last = e;
                if e.end == seed.start {
                    break ;
                }
            },
        }
    }
    let n = piece.len();
    let ghost points = points_view(piece@);
    if piece[0] == piece[n - 1] {
        piece.pop();
        assert(points_view(piece@) =~= points.drop_last());
    }
    piece
}

/// Joins edges into contours.
///
/// Each contour is seeded by the first edge of `edges` that no earlier
/// contour has used, and is continued from its end point by the first unused
/// edge in direction order (down, right, up, left) until it is back at its
/// starting point or no edge leads on. A point where the contour goes
/// straight on is left out unless `keep_every_point` is set. An edge that
/// occurs twice in `edges` counts once.
pub fn joined_edges(edges: &Vec<Edge>, keep_every_point: bool) -> (contours: Vec<Vec<Point>>)
    ensures
        contours_view(contours@) == joined_contours(edges_view(edges@), keep_every_point),
{
    broadcast use vstd::std_specs::hash::group_hash_axioms;

    let ghost all = edges_view(edges@);
    let mut remaining: HashSet<u128> = HashSet::new();
    let ghost mut rem: Set<Seg> = Set::empty();
    let mut i: usize = 0;
    while i < edges.len()
        invariant
            i <= edges.len(),
            all == edges_view(edges@),
            keys_match(remaining@, rem),
            rem == all.take(i as int).to_set(),
        decreases edges.len() - i,
    {
        let k = edge_key(edges[i]);
        remaining.insert(k);
        proof {
            lemma_seg_key_injective();
            all.take(i as int).lemma_push_to_set_commute(all[i as int]);
            assert(all.take(i + 1) =~= all.take(i as int).push(all[i as int]));
            rem = rem.insert(all[i as int]);
        }
        i += 1;
    }
    assert(all.take(i as int) =~= all);

    let mut contours: Vec<Vec<Point>> = Vec::new();
    let ghost mut done: Seq<Seq<Seg>> = Seq::empty();
    let mut k: usize = 0;
    assert(all.skip(0) =~= all);
    assert(done + traces(all.skip(0), rem) =~= join_traces(all));
    while k < edges.len()
        invariant
            k <= edges.len(),
            all == edges_view(edges@),
            keys_match(remaining@, rem),
            rem.finite(),
            join_traces(all) == done + traces(all.skip(k as int), rem),
            contours.len() == done.len(),
            forall|j: int|
                0 <= j < done.len() ==> points_view(#[trigger] contours[j]@) == contour_points(
                    done[j],
                    keep_every_point,
                ),
        decreases edges.len() - k,
    {
        let seed = edges[k];
        let seed_key = edge_key(seed);
        let ghost rest = all.skip(k as int);
        assert(rest.first() == seed@);
        assert(rest.drop_first() =~= all.skip(k + 1));
        if remaining.contains(&seed_key) {
            remaining.remove(&seed_key);
            let ghost walk = trace(rem, seed@);
            let ghost onward = extend(rem.remove(seed@), seed@.0, seed@.1);
            proof {
                lemma_seg_key_injective();
                assert(keys_match(remaining@, rem.remove(seed@)));
            }
            let piece = trace_contour(
                &mut remaining,
                seed,
                keep_every_point,
                Ghost(rem.remove(seed@)),
            );
            contours.push(piece);
            proof {
                lemma_to_set_prepend(seed@, onward);
                assert(rem.remove(seed@).difference(onward.to_set()) =~= rem.difference(
                    walk.to_set(),
                ));
                assert(done + (seq![walk] + traces(all.skip(k + 1), rem.difference(walk.to_set())))
                    =~= done.push(walk) + traces(all.skip(k + 1), rem.difference(walk.to_set())));
                done = done.push(walk);
                rem = rem.difference(walk.to_set());
            }
        }
        k += 1;
    }
    assert(all.skip(k as int) =~= Seq::<Seg>::empty());
    assert(done + Seq::<Seq<Seg>>::empty() =~= done);
    assert(contours_view(contours@) =~= joined_contours(all, keep_every_point));
    contours
}

} // verus!
