//! Why the walks along a boundary come back to where they start.
//!
//! In a set of unit edges in which as many edges leave each point as enter
//! it, a walk can only come to rest at the point it started from.

use crate::geometry::{step, Pos, Seg};
use crate::join::{extend, next_seg, trace, traces};
use crate::seq_facts::lemma_to_set_prepend;
use crate::walks::is_step;
use vstd::prelude::*;

verus! {

/// One for true, nought for false.
pub open spec fn count(b: bool) -> int {
    if b {
        1
    } else {
        0
    }
}

/// The number of unit edges of `rem` that leave `v`.
pub open spec fn out_degree(rem: Set<Seg>, v: Pos) -> int {
    count(rem.contains((v, step(v, 0)))) + count(rem.contains((v, step(v, 1)))) + count(
        rem.contains((v, step(v, 2))),
    ) + count(rem.contains((v, step(v, 3))))
}

/// The number of unit edges of `rem` that enter `v`.
pub open spec fn in_degree(rem: Set<Seg>, v: Pos) -> int {
    count(rem.contains((step(v, 0), v))) + count(rem.contains((step(v, 1), v))) + count(
        rem.contains((step(v, 2), v)),
    ) + count(rem.contains((step(v, 3), v)))
}

/// How many more unit edges leave `v` than enter it.
pub open spec fn surplus(rem: Set<Seg>, v: Pos) -> int {
    out_degree(rem, v) - in_degree(rem, v)
}

/// As many unit edges leave each point as enter it.
pub open spec fn balanced(rem: Set<Seg>) -> bool {
    forall|v: Pos| #[trigger] surplus(rem, v) == 0
}

/// The state of `rem` while a walk from `start` stands at `at`: one edge
/// more leaves `at` than enters it, one more enters `start` than leaves it.
pub open spec fn underway(rem: Set<Seg>, start: Pos, at: Pos) -> bool {
    forall|v: Pos| #[trigger]
        surplus(rem, v) == (if v == at {
            1int
        } else if v == start {
            -1int
        } else {
            0int
        })
}

proof fn lemma_remove_step(rem: Set<Seg>, e: Seg, v: Pos)
    requires
        rem.contains(e),
        is_step(e),
    ensures
        surplus(rem.remove(e), v) == surplus(rem, v) - count(v == e.0) + count(v == e.1),
{
    let less = rem.remove(e);
    assert forall|d: int| 0 <= d < 4 implies (less.contains((v, #[trigger] step(v, d)))
        == (rem.contains((v, step(v, d))) && !(v == e.0 && step(v, d) == e.1))) by {}
    assert forall|d: int| 0 <= d < 4 implies (less.contains((#[trigger] step(v, d), v))
        == (rem.contains((step(v, d), v)) && !(v == e.1 && step(v, d) == e.0))) by {}
}

/// A walk under way comes to rest at its start, and leaves the rest
/// balanced.
pub proof fn lemma_walk_closes(rem: Set<Seg>, start: Pos, at: Pos)
    requires
        rem.finite(),
        at != start,
        underway(rem, start, at),
    ensures
        extend(rem, start, at).len() >= 1,
        extend(rem, start, at).last().1 == start,
        balanced(rem.difference(extend(rem, start, at).to_set())),
    decreases rem.len(),
{
    assert(surplus(rem, at) == 1);
    assert(next_seg(rem, at) is Some);
    let e = next_seg(rem, at)->0;
    let less = rem.remove(e);
    assert(rem.contains(e) && is_step(e) && e.0 == at);
    assert forall|v: Pos| #[trigger]
        surplus(less, v) == surplus(rem, v) - count(v == e.0) + count(v == e.1) by {
        lemma_remove_step(rem, e, v);
    }
    if e.1 == start {
        assert(extend(rem, start, at) == seq![e]);
        assert(seq![e].to_set() =~= Set::<Seg>::empty().insert(e)) by {
            lemma_to_set_prepend(e, Seq::<Seg>::empty());
            assert(seq![e] + Seq::<Seg>::empty() =~= seq![e]);
            assert(Seq::<Seg>::empty().to_set() =~= Set::<Seg>::empty());
        }
        assert(rem.difference(seq![e].to_set()) =~= less);
        assert forall|v: Pos| #[trigger] surplus(less, v) == 0 by {
            assert(surplus(rem, v) == (if v == at {
                1int
            } else if v == start {
                -1int
            } else {
                0int
            }));
        }
    } else {
        let rest = extend(less, start, e.1);
        assert(extend(rem, start, at) == seq![e] + rest);
        assert forall|v: Pos| #[trigger]
            surplus(less, v) == (if v == e.1 {
                1int
            } else if v == start {
                -1int
            } else {
                0int
            }) by {
            assert(surplus(rem, v) == (if v == at {
                1int
            } else if v == start {
                -1int
            } else {
                0int
            }));
        }
        lemma_walk_closes(less, start, e.1);
        lemma_to_set_prepend(e, rest);
        assert(rem.difference((seq![e] + rest).to_set()) =~= less.difference(rest.to_set()));
        assert((seq![e] + rest).last() == rest.last());
    }
}

/// In a balanced set, the walk seeded by a unit edge comes back to where
/// the seed starts, and leaves the rest balanced.
pub proof fn lemma_trace_closes(rem: Set<Seg>, seed: Seg)
    requires
        rem.finite(),
        balanced(rem),
        rem.contains(seed),
        is_step(seed),
    ensures
        trace(rem, seed).last().1 == seed.0,
        balanced(rem.difference(trace(rem, seed).to_set())),
{
    let less = rem.remove(seed);
    let onward = extend(less, seed.0, seed.1);
    assert forall|v: Pos| #[trigger]
        surplus(less, v) == (if v == seed.1 {
            1int
        } else if v == seed.0 {
            -1int
        } else {
            0int
        }) by {
        lemma_remove_step(rem, seed, v);
        assert(surplus(rem, v) == 0);
    }
    lemma_walk_closes(less, seed.0, seed.1);
    lemma_to_set_prepend(seed, onward);
    assert(rem.difference(trace(rem, seed).to_set()) =~= less.difference(onward.to_set()));
    assert(trace(rem, seed).last() == onward.last());
}

/// In a balanced set of unit edges every walk comes back to where it
/// starts.
pub proof fn lemma_traces_close(edges: Seq<Seg>, rem: Set<Seg>, i: int)
    requires
        rem.finite(),
        balanced(rem),
        forall|e: Seg| rem.contains(e) ==> is_step(e),
        0 <= i < traces(edges, rem).len(),
    ensures
        traces(edges, rem)[i].len() >= 1,
        traces(edges, rem)[i].last().1 == traces(edges, rem)[i][0].0,
    decreases edges.len(),
{
    if edges.len() > 0 {
        let seed = edges.first();
        let rest = edges.drop_first();
        if rem.contains(seed) {
            let t = trace(rem, seed);
            lemma_trace_closes(rem, seed);
            if i == 0 {
                assert(t[0] == seed);
            } else {
                let left = rem.difference(t.to_set());
                let later = traces(rest, left);
                assert(traces(edges, rem)[i] == later[i - 1]);
                lemma_traces_close(rest, left, i - 1);
            }
        } else {
            lemma_traces_close(rest, rem, i);
        }
    }
}

} // verus!
