//! The boundary of a set of pixels, as directed unit edges.
//!
//! Pixel `(x, y)` is the unit square with the corners `(x, y)` and
//! `(x + 1, y + 1)`. Each of its four sides is an edge that runs so that the
//! pixel lies on its left as drawn, `y` growing downwards: down the left
//! side, right along the bottom, up the right side, left along the top.

use crate::geometry::{edges_view, on_lattice, points_view, step, Edge, Point, Pos, Seg};
use crate::seq_facts::lemma_push_contains;
use std::collections::HashSet;
use vstd::prelude::*;

verus! {

/// The corner of pixel `p` at which its side `s` starts. The sides are
/// numbered in the order in which they are listed: 0 is the left side, 1 the
/// bottom, 2 the right side, 3 the top.
pub open spec fn corner(p: Pos, s: int) -> Pos {
    if s == 0 {
        p
    } else if s == 1 {
        (p.0, p.1 + 1)
    } else if s == 2 {
        (p.0 + 1, p.1 + 1)
    } else {
        (p.0 + 1, p.1)
    }
}

/// Side `s` of pixel `p`: from its corner to the next one.
pub open spec fn side(p: Pos, s: int) -> Seg {
    (corner(p, s), corner(p, if s == 3 { 0 } else { s + 1 }))
}

/// The pixel on the other side of side `s` of pixel `p`.
pub open spec fn across(p: Pos, s: int) -> Pos {
    step(p, if s == 0 { 3 } else { s - 1 })
}

/// The first `count` sides of pixel `p`, without those that `p` shares with
/// another of `members`.
pub open spec fn pixel_sides(members: Seq<Pos>, p: Pos, count: int) -> Seq<Seg>
    decreases count,
{
    if count <= 0 {
        Seq::empty()
    } else if members.contains(across(p, count - 1)) {
        pixel_sides(members, p, count - 1)
    } else {
        pixel_sides(members, p, count - 1).push(side(p, count - 1))
    }
}

/// The boundary edges of the first `count` of `members`.
pub open spec fn boundary_upto(members: Seq<Pos>, count: int) -> Seq<Seg>
    decreases count,
{
    if count <= 0 {
        Seq::empty()
    } else {
        boundary_upto(members, count - 1) + pixel_sides(members, members[count - 1], 4)
    }
}

/// The boundary of `members`: pixel by pixel in their order, the sides of
/// each in theirs, every side across which lies no member.
pub open spec fn boundary(members: Seq<Pos>) -> Seq<Seg> {
    boundary_upto(members, members.len() as int)
}

/// Whether `p` can be the coordinate of a pixel: a grid is at most
/// `u32::MAX` wide and high.
pub open spec fn is_pixel(p: Pos) -> bool {
    0 <= p.0 < u32::MAX && 0 <= p.1 < u32::MAX
}

/// The number under which a pixel is held in the hash set of members.
spec fn pos_key(p: Pos) -> u64 {
    (p.0 * 0x1_0000_0000 + p.1) as u64
}

/// `keys` holds the key of each of `members`, and of no other position.
spec fn keys_hold(keys: Set<u64>, members: Seq<Pos>) -> bool {
    &&& forall|p: Pos| #[trigger] members.contains(p) ==> on_lattice(p) && keys.contains(pos_key(p))
    &&& forall|p: Pos| on_lattice(p) && #[trigger] keys.contains(pos_key(p)) ==> members.contains(p)
}

proof fn lemma_pos_key_injective()
    ensures
        forall|a: Pos, b: Pos|
            #![trigger pos_key(a), pos_key(b)]
            on_lattice(a) && on_lattice(b) && pos_key(a) == pos_key(b) ==> a == b,
{
}

fn point_key(p: Point) -> (k: u64)
    ensures
        k == pos_key(p@),
{
    p.x as u64 * 0x1_0000_0000 + p.y as u64
}

/// Side `s` of pixel `p`.
fn side_edge(p: Point, s: u8) -> (e: Edge)
    requires
        s < 4,
        is_pixel(p@),
    ensures
        e@ == side(p@, s as int),
{
    let near = Point { x: p.x, y: p.y };
    let below = Point { x: p.x, y: p.y + 1 };
    let far = Point { x: p.x + 1, y: p.y + 1 };
    let beside = Point { x: p.x + 1, y: p.y };
    if s == 0 {
        Edge { start: near, end: below }
    } else if s == 1 {
        Edge { start: below, end: far }
    } else if s == 2 {
        Edge { start: far, end: beside }
    } else {
        Edge { start: beside, end: near }
    }
}

/// Lists the boundary edges of a set of pixels.
///
/// For each pixel in turn and each of its sides, left, bottom, right, top,
/// the side is listed when the pixel across it is not one of `pixels`.
pub fn boundary_edges(pixels: &Vec<Point>) -> (edges: Vec<Edge>)
    requires
        forall|i: int| 0 <= i < pixels.len() ==> is_pixel(#[trigger] pixels[i]@),
    ensures
        edges_view(edges@) == boundary(points_view(pixels@)),
{
    broadcast use vstd::std_specs::hash::group_hash_axioms;

    let ghost members = points_view(pixels@);
    let mut inside: HashSet<u64> = HashSet::new();
    let mut i: usize = 0;
    while i < pixels.len()
        invariant
            i <= pixels.len(),
            members == points_view(pixels@),
            keys_hold(inside@, members.take(i as int)),
        decreases pixels.len() - i,
    {
        let k = point_key(pixels[i]);
        inside.insert(k);
        proof {
            lemma_pos_key_injective();
            assert(members.take(i + 1) =~= members.take(i as int).push(members[i as int]));
            assert forall|p: Pos| #[trigger]
                members.take(i + 1).contains(p) <==> members.take(i as int).contains(p) || p
                    == members[i as int] by {
                lemma_push_contains(members.take(i as int), members[i as int], p);
            }
        }
        i += 1;
    }
    assert(members.take(i as int) =~= members);

    let mut edges: Vec<Edge> = Vec::new();
    let mut n: usize = 0;
    assert(edges_view(edges@) =~= boundary_upto(members, 0));
    while n < pixels.len()
        invariant
            n <= pixels.len(),
            members == points_view(pixels@),
            forall|i: int| 0 <= i < pixels.len() ==> is_pixel(#[trigger] pixels[i]@),
            keys_hold(inside@, members),
            edges_view(edges@) == boundary_upto(members, n as int),
        decreases pixels.len() - n,
    {
        let p = pixels[n];
        let ghost before = edges_view(edges@);
        let mut s: u8 = 0;
        assert(is_pixel(pixels[n as int]@));
        assert(edges_view(edges@) =~= before + pixel_sides(members, p@, 0));
        while s < 4
            invariant
                s <= 4,
                is_pixel(p@),
                keys_hold(inside@, members),
                edges_view(edges@) == before + pixel_sides(members, p@, s as int),
            decreases 4 - s,
        {
            let outside = match p.stepped(if s == 0 { 3 } else { s - 1 }) {
                None => true,
                Some(q) => {
                    let k = point_key(q);
                    !inside.contains(&k)
                },
            };
            let ghost listed = pixel_sides(members, p@, s as int);
            assert(outside == !members.contains(across(p@, s as int)));
            if outside {
                let e = side_edge(p, s);
                let ghost so_far = edges_view(edges@);
                edges.push(e);
                assert(pixel_sides(members, p@, s + 1) == listed.push(side(p@, s as int)));
                assert(edges_view(edges@) =~= so_far.push(e@));
                assert(so_far.push(e@) =~= before + listed.push(side(p@, s as int)));
            }
            s += 1;
        }
        n += 1;
    }
    edges
}

} // verus!
