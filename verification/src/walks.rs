//! What holds of the walks into which edges are joined.

use crate::geometry::{step, Pos, Seg};
use crate::join::{extend, join_traces, next_seg, trace, traces};
use crate::seq_facts::lemma_concat_contains;
use vstd::prelude::*;

verus! {

/// Whether a segment goes one unit in one of the four directions.
pub open spec fn is_step(e: Seg) -> bool {
    e.1 == step(e.0, 0) || e.1 == step(e.0, 1) || e.1 == step(e.0, 2) || e.1 == step(e.0, 3)
}

/// Whether the segments follow each other from `from`: the first starts
/// there, and each further one where the one before it ends.
pub open spec fn chained(t: Seq<Seg>, from: Pos) -> bool {
    forall|i: int|
        0 <= i < t.len() ==> (#[trigger] t[i]).0 == (if i == 0 {
            from
        } else {
            t[i - 1].1
        })
}

/// What holds of the edges that a walk goes on to take from `at`: they are
/// taken from `rem`, none twice, each goes one unit, each starts where the
/// one before it ends, and only the last can end at `start`.
pub open spec fn is_walk(t: Seq<Seg>, rem: Set<Seg>, start: Pos, at: Pos) -> bool {
    &&& t.no_duplicates()
    &&& chained(t, at)
    &&& forall|i: int| 0 <= i < t.len() ==> rem.contains(#[trigger] t[i]) && is_step(t[i])
    &&& forall|i: int| 0 <= i < t.len() - 1 ==> (#[trigger] t[i]).1 != start
}

/// The edges that a walk takes are a walk in the sense of [`is_walk`].
pub proof fn lemma_extend_is_walk(rem: Set<Seg>, start: Pos, at: Pos)
    requires
        rem.finite(),
    ensures
        is_walk(extend(rem, start, at), rem, start, at),
    decreases rem.len(),
{
    match next_seg(rem, at) {
        None => {},
        Some(e) => {
            assert(rem.contains(e) && is_step(e) && e.0 == at);
            if e.1 != start {
                let rest = extend(rem.remove(e), start, e.1);
                lemma_extend_is_walk(rem.remove(e), start, e.1);
                let t = seq![e] + rest;
                assert(t == extend(rem, start, at));
                assert forall|i: int| 0 <= i < t.len() implies rem.contains(#[trigger] t[i])
                    && is_step(t[i]) by {
                    if i > 0 {
                        assert(t[i] == rest[i - 1]);
                    }
                }
                assert forall|i: int| 0 <= i < t.len() implies (#[trigger] t[i]).0 == (if i == 0 {
                    at
                } else {
                    t[i - 1].1
                }) by {
                    if i > 0 {
                        assert(t[i] == rest[i - 1]);
                        if i > 1 {
                            assert(t[i - 1] == rest[i - 2]);
                        }
                    }
                }
                assert forall|i: int| 0 <= i < t.len() - 1 implies (#[trigger] t[i]).1 != start by {
                    if i > 0 {
                        assert(t[i] == rest[i - 1]);
                    }
                }
                assert forall|i: int, j: int| 0 <= i < t.len() && 0 <= j < t.len() && i != j
                    implies t[i] != t[j] by {
                    if i > 0 {
                        assert(t[i] == rest[i - 1]);
                    }
                    if j > 0 {
                        assert(t[j] == rest[j - 1]);
                    }
                }
            }
        },
    }
}

proof fn lemma_prepend_no_duplicates(x: Seg, s: Seq<Seg>)
    requires
        s.no_duplicates(),
        !s.contains(x),
    ensures
        (seq![x] + s).no_duplicates(),
{
    let t = seq![x] + s;
    assert forall|i: int, j: int| 0 <= i < t.len() && 0 <= j < t.len() && i != j implies t[i]
        != t[j] by {
        if i > 0 {
            assert(t[i] == s[i - 1]);
            assert(s.contains(s[i - 1]));
        }
        if j > 0 {
            assert(t[j] == s[j - 1]);
            assert(s.contains(s[j - 1]));
        }
    }
}

proof fn lemma_walk_within(t: Seq<Seg>, rem: Set<Seg>, start: Pos, at: Pos, e: Seg)
    requires
        is_walk(t, rem, start, at),
        t.contains(e),
    ensures
        rem.contains(e),
        is_step(e),
{
    let i = choose|i: int| 0 <= i < t.len() && t[i] == e;
    assert(rem.contains(t[i]) && is_step(t[i]));
}

/// A whole walk takes its edges from `rem`, none twice, and starts with its
/// seed.
pub proof fn lemma_trace_in_rem(rem: Set<Seg>, seed: Seg)
    requires
        rem.finite(),
        rem.contains(seed),
    ensures
        trace(rem, seed).len() >= 1,
        trace(rem, seed)[0] == seed,
        trace(rem, seed).no_duplicates(),
        forall|e: Seg| trace(rem, seed).contains(e) ==> rem.contains(e),
{
    let onward = extend(rem.remove(seed), seed.0, seed.1);
    lemma_extend_is_walk(rem.remove(seed), seed.0, seed.1);
    if onward.contains(seed) {
        lemma_walk_within(onward, rem.remove(seed), seed.0, seed.1, seed);
    }
    lemma_prepend_no_duplicates(seed, onward);
    assert forall|e: Seg| (seq![seed] + onward).contains(e) implies rem.contains(e) by {
        lemma_concat_contains(seq![seed], onward, e);
        if onward.contains(e) {
            lemma_walk_within(onward, rem.remove(seed), seed.0, seed.1, e);
        } else {
            let i = choose|i: int| 0 <= i < seq![seed].len() && seq![seed][i] == e;
        }
    }
}

proof fn lemma_rest_contains(edges: Seq<Seg>, e: Seg)
    requires
        edges.contains(e),
        edges.len() > 0,
        e != edges.first(),
    ensures
        edges.drop_first().contains(e),
{
    let i = choose|i: int| 0 <= i < edges.len() && edges[i] == e;
    assert(edges.drop_first()[i - 1] == e);
}

/// Every edge lies on exactly one walk, once: the walks, laid end to end,
/// list the edges still in `rem` and list none twice.
pub proof fn lemma_traces_use_each_edge_once(edges: Seq<Seg>, rem: Set<Seg>)
    requires
        rem.finite(),
        forall|e: Seg| rem.contains(e) ==> edges.contains(e),
    ensures
        traces(edges, rem).flatten().no_duplicates(),
        forall|e: Seg| traces(edges, rem).flatten().contains(e) <==> rem.contains(e),
    decreases edges.len(),
{
    if edges.len() == 0 {
        assert forall|e: Seg| !rem.contains(e) by {
            if rem.contains(e) {
                assert(edges.contains(e));
            }
        }
    } else {
        let seed = edges.first();
        let rest = edges.drop_first();
        if rem.contains(seed) {
            let t = trace(rem, seed);
            let left = rem.difference(t.to_set());
            let later = traces(rest, left);
            let flat = later.flatten();
            lemma_trace_in_rem(rem, seed);
            assert(t.contains(t[0]));
            assert forall|e: Seg| left.contains(e) implies rest.contains(e) by {
                lemma_rest_contains(edges, e);
            }
            lemma_traces_use_each_edge_once(rest, left);
            let all = seq![t] + later;
            assert(all.first() == t);
            assert(all.drop_first() =~= later);
            assert(traces(edges, rem).flatten() == t + flat);
            assert forall|e: Seg| (t + flat).contains(e) <==> rem.contains(e) by {
                lemma_concat_contains(t, flat, e);
                assert(flat.contains(e) <==> left.contains(e));
                assert(left.contains(e) <==> rem.contains(e) && !t.contains(e));
            }
            assert forall|i: int, j: int| 0 <= i < t.len() && 0 <= j < flat.len() implies t[i]
                != flat[j] by {
                assert(t.contains(t[i]));
                assert(flat.contains(flat[j]));
                assert(left.contains(flat[j]));
            }
            vstd::seq_lib::lemma_no_dup_in_concat(t, flat);
        } else {
            assert forall|e: Seg| rem.contains(e) implies rest.contains(e) by {
                lemma_rest_contains(edges, e);
            }
            lemma_traces_use_each_edge_once(rest, rem);
        }
    }
}

/// Joining consumes every edge exactly once: the walks, laid end to end,
/// list the very edges that were given and list none twice.
pub proof fn lemma_join_uses_each_edge_once(edges: Seq<Seg>)
    ensures
        join_traces(edges).flatten().no_duplicates(),
        join_traces(edges).flatten().to_set() == edges.to_set(),
{
    lemma_traces_use_each_edge_once(edges, edges.to_set());
    assert(join_traces(edges).flatten().to_set() =~= edges.to_set());
}

} // verus!
