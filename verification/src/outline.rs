//! What holds of the boundary of a set of pixels.

use crate::area::edge_sum;
use crate::boundary::{across, boundary, boundary_upto, pixel_sides, side};
use crate::geometry::{cross, step, Pos, Seg};
use crate::loops::{balanced, surplus};
use crate::seq_facts::{lemma_concat_contains, lemma_push_contains};
use crate::walks::is_step;
use vstd::prelude::*;

verus! {

/// `e` is one of the first `count` sides of `p`, and no member lies across
/// it.
pub open spec fn is_open_side(members: Seq<Pos>, p: Pos, count: int, e: Seg) -> bool {
    exists|s: int|
        0 <= s < count && e == #[trigger] side(p, s) && !members.contains(across(p, s))
}

/// `e` is a side of one of the first `count` members, and no member lies
/// across it.
pub open spec fn is_rim_upto(members: Seq<Pos>, count: int, e: Seg) -> bool {
    exists|k: int| 0 <= k < count && #[trigger] is_open_side(members, members[k], 4, e)
}

/// `e` is a side of a member across which lies no member.
pub open spec fn is_rim(members: Seq<Pos>, e: Seg) -> bool {
    is_rim_upto(members, members.len() as int, e)
}

/// The pixel whose side `d` starts at the corner `u`.
pub open spec fn owner(u: Pos, d: int) -> Pos {
    if d == 0 {
        u
    } else if d == 1 {
        (u.0, u.1 - 1)
    } else if d == 2 {
        (u.0 - 1, u.1 - 1)
    } else {
        (u.0 - 1, u.1)
    }
}

/// The sides listed for a pixel are its sides across which lies no member.
pub proof fn lemma_pixel_sides_contains(members: Seq<Pos>, p: Pos, count: int, e: Seg)
    requires
        0 <= count <= 4,
    ensures
        pixel_sides(members, p, count).contains(e) <==> is_open_side(members, p, count, e),
    decreases count,
{
    if count > 0 {
        lemma_pixel_sides_contains(members, p, count - 1, e);
        let earlier = pixel_sides(members, p, count - 1);
        if is_open_side(members, p, count - 1, e) {
            let s = choose|s: int|
                0 <= s < count - 1 && e == #[trigger] side(p, s) && !members.contains(
                    across(p, s),
                );
            assert(0 <= s < count && e == side(p, s));
        }
        if members.contains(across(p, count - 1)) {
            if is_open_side(members, p, count, e) {
                let s = choose|s: int|
                    0 <= s < count && e == #[trigger] side(p, s) && !members.contains(
                        across(p, s),
                    );
                assert(0 <= s < count - 1 && e == side(p, s));
            }
        } else {
            lemma_push_contains(earlier, side(p, count - 1), e);
            if e == side(p, count - 1) {
                assert(0 <= count - 1 < count && e == side(p, count - 1));
            }
            if is_open_side(members, p, count, e) {
                let s = choose|s: int|
                    0 <= s < count && e == #[trigger] side(p, s) && !members.contains(
                        across(p, s),
                    );
                if s < count - 1 {
                    assert(0 <= s < count - 1 && e == side(p, s));
                }
            }
        }
    } else {
        assert(!Seq::<Seg>::empty().contains(e));
    }
}

/// The edges listed for the first `count` members are their sides across
/// which lies no member.
pub proof fn lemma_boundary_upto_contains(members: Seq<Pos>, count: int, e: Seg)
    requires
        0 <= count <= members.len(),
    ensures
        boundary_upto(members, count).contains(e) <==> is_rim_upto(members, count, e),
    decreases count,
{
    if count > 0 {
        lemma_boundary_upto_contains(members, count - 1, e);
        let p = members[count - 1];
        lemma_pixel_sides_contains(members, p, 4, e);
        lemma_concat_contains(boundary_upto(members, count - 1), pixel_sides(members, p, 4), e);
        if is_rim_upto(members, count - 1, e) {
            let k = choose|k: int|
                0 <= k < count - 1 && #[trigger] is_open_side(members, members[k], 4, e);
            assert(0 <= k < count && is_open_side(members, members[k], 4, e));
        }
        if is_open_side(members, p, 4, e) {
            assert(0 <= count - 1 < count && is_open_side(members, members[count - 1], 4, e));
        }
        if is_rim_upto(members, count, e) {
            let k = choose|k: int|
                0 <= k < count && #[trigger] is_open_side(members, members[k], 4, e);
            if k < count - 1 {
                assert(0 <= k < count - 1 && is_open_side(members, members[k], 4, e));
            }
        }
    } else {
        assert(!Seq::<Seg>::empty().contains(e));
    }
}

/// The boundary lists exactly the sides of members across which lies no
/// member.
pub proof fn lemma_boundary_contains(members: Seq<Pos>, e: Seg)
    ensures
        boundary(members).contains(e) <==> is_rim(members, e),
{
    lemma_boundary_upto_contains(members, members.len() as int, e);
}

/// The unit edge from `u` in direction `d` is on the boundary exactly when
/// the pixel on its left is a member and the pixel on its right is none.
pub proof fn lemma_rim_step(members: Seq<Pos>, u: Pos, d: int)
    requires
        0 <= d < 4,
    ensures
        is_rim(members, (u, step(u, d))) <==> members.contains(owner(u, d)) && !members.contains(
            across(owner(u, d), d),
        ),
{
    let e = (u, step(u, d));
    let p = owner(u, d);
    assert(side(p, d) == e);
    if members.contains(p) && !members.contains(across(p, d)) {
        let k = choose|k: int| 0 <= k < members.len() && members[k] == p;
        assert(0 <= d < 4 && e == side(p, d) && !members.contains(across(p, d)));
        assert(is_open_side(members, members[k], 4, e));
    }
    if is_rim(members, e) {
        let k = choose|k: int|
            0 <= k < members.len() && #[trigger] is_open_side(members, members[k], 4, e);
        let s = choose|s: int|
            0 <= s < 4 && e == #[trigger] side(members[k], s) && !members.contains(
                across(members[k], s),
            );
        assert(s == d);
        assert(members[k] == p);
    }
}

/// Every edge of a boundary goes one unit.
pub proof fn lemma_rim_is_step(members: Seq<Pos>, e: Seg)
    requires
        is_rim(members, e),
    ensures
        is_step(e),
{
    let k = choose|k: int|
        0 <= k < members.len() && #[trigger] is_open_side(members, members[k], 4, e);
    let s = choose|s: int|
        0 <= s < 4 && e == #[trigger] side(members[k], s) && !members.contains(
            across(members[k], s),
        );
    assert(e.1 == step(e.0, s));
}

/// On a boundary as many edges leave each corner as enter it.
pub proof fn lemma_boundary_balanced(members: Seq<Pos>)
    ensures
        balanced(boundary(members).to_set()),
{
    let rim = boundary(members).to_set();
    assert forall|v: Pos| #[trigger] surplus(rim, v) == 0 by {
        assert forall|d: int| 0 <= d < 4 implies (rim.contains((v, #[trigger] step(v, d)))
            <==> members.contains(owner(v, d)) && !members.contains(across(owner(v, d), d))) by {
            lemma_boundary_contains(members, (v, step(v, d)));
            lemma_rim_step(members, v, d);
        }
        assert forall|d: int| 0 <= d < 4 implies (rim.contains((#[trigger] step(v, d), v))
            <==> members.contains(owner(step(v, d), if d < 2 { d + 2 } else { d - 2 }))
            && !members.contains(
            across(owner(step(v, d), if d < 2 { d + 2 } else { d - 2 }), if d < 2 {
                d + 2
            } else {
                d - 2
            }),
        )) by {
            let back = if d < 2 {
                d + 2
            } else {
                d - 2
            };
            assert(step(step(v, d), back) == v);
            lemma_boundary_contains(members, (step(v, d), v));
            lemma_rim_step(members, step(v, d), back);
        }
        let nw = members.contains((v.0 - 1, v.1 - 1));
        let ne = members.contains((v.0, v.1 - 1));
        let sw = members.contains((v.0 - 1, v.1));
        let se = members.contains((v.0, v.1));
        assert(rim.contains((v, step(v, 0))) == (se && !sw));
        assert(rim.contains((v, step(v, 1))) == (ne && !se));
        assert(rim.contains((v, step(v, 2))) == (nw && !ne));
        assert(rim.contains((v, step(v, 3))) == (sw && !nw));
        assert(rim.contains((step(v, 0), v)) == (sw && !se));
        assert(rim.contains((step(v, 1), v)) == (se && !ne));
        assert(rim.contains((step(v, 2), v)) == (ne && !nw));
        assert(rim.contains((step(v, 3), v)) == (nw && !sw));
    }
}

proof fn lemma_pixel_sides_no_duplicates(members: Seq<Pos>, p: Pos, count: int)
    requires
        0 <= count <= 4,
    ensures
        pixel_sides(members, p, count).no_duplicates(),
    decreases count,
{
    if count > 0 {
        lemma_pixel_sides_no_duplicates(members, p, count - 1);
        let earlier = pixel_sides(members, p, count - 1);
        let e = side(p, count - 1);
        if !members.contains(across(p, count - 1)) {
            lemma_pixel_sides_contains(members, p, count - 1, e);
            if is_open_side(members, p, count - 1, e) {
                let s = choose|s: int|
                    0 <= s < count - 1 && e == #[trigger] side(p, s) && !members.contains(
                        across(p, s),
                    );
                assert(side(p, s) != side(p, count - 1));
            }
            assert forall|i: int, j: int|
                0 <= i < earlier.push(e).len() && 0 <= j < earlier.push(e).len() && i != j
                implies earlier.push(e)[i] != earlier.push(e)[j] by {
                if i < earlier.len() {
                    assert(earlier.contains(earlier[i]));
                }
                if j < earlier.len() {
                    assert(earlier.contains(earlier[j]));
                }
            }
        }
    }
}

/// The boundary of pixels that are listed once lists no edge twice.
pub proof fn lemma_boundary_no_duplicates(members: Seq<Pos>, count: int)
    requires
        members.no_duplicates(),
        0 <= count <= members.len(),
    ensures
        boundary_upto(members, count).no_duplicates(),
    decreases count,
{
    if count > 0 {
        lemma_boundary_no_duplicates(members, count - 1);
        let p = members[count - 1];
        let a = boundary_upto(members, count - 1);
        let b = pixel_sides(members, p, 4);
        lemma_pixel_sides_no_duplicates(members, p, 4);
        assert forall|i: int, j: int| 0 <= i < a.len() && 0 <= j < b.len() implies a[i] != b[j] by {
            if a[i] == b[j] {
                let e = a[i];
                assert(a.contains(e));
                assert(b.contains(e));
                lemma_boundary_upto_contains(members, count - 1, e);
                lemma_pixel_sides_contains(members, p, 4, e);
                let k = choose|k: int|
                    0 <= k < count - 1 && #[trigger] is_open_side(members, members[k], 4, e);
                let s = choose|s: int|
                    0 <= s < 4 && e == #[trigger] side(members[k], s) && !members.contains(
                        across(members[k], s),
                    );
                let t = choose|t: int|
                    0 <= t < 4 && e == #[trigger] side(p, t) && !members.contains(across(p, t));
                assert(s == t);
                assert(members[k] == members[count - 1]);
            }
        }
        vstd::seq_lib::lemma_no_dup_in_concat(a, b);
    }
}

/// What each side of a pixel adds to an area.
pub proof fn lemma_side_cross(p: Pos)
    ensures
        cross(side(p, 0)) == -p.0,
        cross(side(p, 1)) == p.1 + 1,
        cross(side(p, 2)) == p.0 + 1,
        cross(side(p, 3)) == -p.1,
{
    reveal(cross);
    let x = p.0;
    let y = p.1;
    assert(x * y - x * (y + 1) == -x) by (nonlinear_arith);
    assert((x + 1) * (y + 1) - x * (y + 1) == y + 1) by (nonlinear_arith);
    assert((x + 1) * (y + 1) - (x + 1) * y == x + 1) by (nonlinear_arith);
    assert(x * y - (x + 1) * y == -y) by (nonlinear_arith);
}

/// The sum over the first `count` sides of `p` across which lies no member.
spec fn rim_sum(members: Seq<Pos>, p: Pos, count: int) -> int
    decreases count,
{
    if count <= 0 {
        0
    } else if members.contains(across(p, count - 1)) {
        rim_sum(members, p, count - 1)
    } else {
        rim_sum(members, p, count - 1) + cross(side(p, count - 1))
    }
}

/// The sum over the first `count` sides of `q` across which lies one of
/// `list`.
spec fn touch(list: Seq<Pos>, q: Pos, count: int) -> int
    decreases count,
{
    if count <= 0 {
        0
    } else if list.contains(across(q, count - 1)) {
        touch(list, q, count - 1) + cross(side(q, count - 1))
    } else {
        touch(list, q, count - 1)
    }
}

/// The sum of [`rim_sum`] over the first `count` of `list`.
spec fn list_rim(members: Seq<Pos>, list: Seq<Pos>, count: int) -> int
    decreases count,
{
    if count <= 0 {
        0
    } else {
        list_rim(members, list, count - 1) + rim_sum(members, list[count - 1], 4)
    }
}

/// A further edge adds its own part to a sum.
pub proof fn lemma_sum_push(t: Seq<Seg>, e: Seg)
    ensures
        edge_sum(t.push(e)) == edge_sum(t) + cross(e),
{
    assert(t.push(e).drop_last() =~= t);
}

/// The sum over two lists, one after the other, is the sum of their sums.
pub proof fn lemma_sum_concat(a: Seq<Seg>, b: Seq<Seg>)
    ensures
        edge_sum(a + b) == edge_sum(a) + edge_sum(b),
    decreases b.len(),
{
    if b.len() == 0 {
        assert(a + b =~= a);
    } else {
        lemma_sum_concat(a, b.drop_last());
        assert((a + b).drop_last() =~= a + b.drop_last());
        assert((a + b).last() == b.last());
    }
}

proof fn lemma_pixel_sides_sum(members: Seq<Pos>, p: Pos, count: int)
    requires
        0 <= count <= 4,
    ensures
        edge_sum(pixel_sides(members, p, count)) == rim_sum(members, p, count),
    decreases count,
{
    if count > 0 {
        lemma_pixel_sides_sum(members, p, count - 1);
        lemma_sum_push(pixel_sides(members, p, count - 1), side(p, count - 1));
    }
}

proof fn lemma_boundary_upto_sum(members: Seq<Pos>, count: int)
    requires
        0 <= count <= members.len(),
    ensures
        edge_sum(boundary_upto(members, count)) == list_rim(members, members, count),
    decreases count,
{
    if count > 0 {
        lemma_boundary_upto_sum(members, count - 1);
        lemma_pixel_sides_sum(members, members[count - 1], 4);
        lemma_sum_concat(
            boundary_upto(members, count - 1),
            pixel_sides(members, members[count - 1], 4),
        );
    }
}

/// When `q` joins the members, a pixel `m` loses the side that it shares
/// with `q`, and `q` has that side the other way round to lose.
proof fn lemma_grow_step(members: Seq<Pos>, prefix: Seq<Pos>, q: Pos, m: Pos)
    requires
        !members.contains(q),
        !prefix.contains(m),
        m != q,
    ensures
        rim_sum(members.push(q), m, 4) + touch(prefix, q, 4) == rim_sum(members, m, 4) + touch(
            prefix.push(m),
            q,
            4,
        ),
{
    reveal_with_fuel(rim_sum, 5);
    reveal_with_fuel(touch, 5);
    lemma_side_cross(m);
    lemma_side_cross(q);
    lemma_push_contains(members, q, across(m, 0));
    lemma_push_contains(members, q, across(m, 1));
    lemma_push_contains(members, q, across(m, 2));
    lemma_push_contains(members, q, across(m, 3));
    lemma_push_contains(prefix, m, across(q, 0));
    lemma_push_contains(prefix, m, across(q, 1));
    lemma_push_contains(prefix, m, across(q, 2));
    lemma_push_contains(prefix, m, across(q, 3));
}

/// The sides of a new member `q` that stay, and those that it shares with
/// the members so far, are its four sides, which enclose one pixel.
proof fn lemma_own_rim(members: Seq<Pos>, q: Pos)
    ensures
        rim_sum(members.push(q), q, 4) + touch(members, q, 4) == 2,
{
    reveal_with_fuel(rim_sum, 5);
    reveal_with_fuel(touch, 5);
    lemma_side_cross(q);
    lemma_push_contains(members, q, across(q, 0));
    lemma_push_contains(members, q, across(q, 1));
    lemma_push_contains(members, q, across(q, 2));
    lemma_push_contains(members, q, across(q, 3));
}

proof fn lemma_not_in_prefix(list: Seq<Pos>, n: int)
    requires
        list.no_duplicates(),
        0 <= n < list.len(),
    ensures
        !list.take(n).contains(list[n]),
{
    if list.take(n).contains(list[n]) {
        let i = choose|i: int| 0 <= i < list.take(n).len() && list.take(n)[i] == list[n];
        assert(list[i] == list[n]);
    }
}

proof fn lemma_rim_grows(list: Seq<Pos>, n: int, j: int)
    requires
        list.no_duplicates(),
        0 <= j <= n < list.len(),
    ensures
        list_rim(list.take(n).push(list[n]), list, j) == list_rim(list.take(n), list, j) + touch(
            list.take(j),
            list[n],
            4,
        ),
    decreases j,
{
    let q = list[n];
    if j > 0 {
        lemma_rim_grows(list, n, j - 1);
        lemma_not_in_prefix(list, n);
        lemma_not_in_prefix(list, j - 1);
        assert(list.take(j) =~= list.take(j - 1).push(list[j - 1]));
        lemma_grow_step(list.take(n), list.take(j - 1), q, list[j - 1]);
    } else {
        reveal_with_fuel(touch, 5);
        assert(list.take(0) =~= Seq::<Pos>::empty());
        assert(!Seq::<Pos>::empty().contains(across(q, 0)));
        assert(!Seq::<Pos>::empty().contains(across(q, 1)));
        assert(!Seq::<Pos>::empty().contains(across(q, 2)));
        assert(!Seq::<Pos>::empty().contains(across(q, 3)));
    }
}

proof fn lemma_rim_total(list: Seq<Pos>, n: int)
    requires
        list.no_duplicates(),
        0 <= n <= list.len(),
    ensures
        list_rim(list.take(n), list, n) == 2 * n,
    decreases n,
{
    if n > 0 {
        lemma_rim_total(list, n - 1);
        lemma_rim_grows(list, n - 1, n - 1);
        lemma_own_rim(list.take(n - 1), list[n - 1]);
        assert(list.take(n) =~= list.take(n - 1).push(list[n - 1]));
    }
}

/// The boundary of a set of pixels encloses as many unit squares as the set
/// has pixels.
pub proof fn lemma_boundary_sum(members: Seq<Pos>)
    requires
        members.no_duplicates(),
    ensures
        edge_sum(boundary(members)) == 2 * members.len(),
{
    lemma_boundary_upto_sum(members, members.len() as int);
    lemma_rim_total(members, members.len() as int);
    assert(members.take(members.len() as int) =~= members);
}

} // verus!
