//! Small facts about sequences that several modules use.

use vstd::prelude::*;

verus! {

/// What a sequence contains after a push: what it did, and the new element.
pub proof fn lemma_push_contains<A>(s: Seq<A>, x: A, y: A)
    ensures
        s.push(x).contains(y) <==> s.contains(y) || x == y,
{
    let t = s.push(x);
    if s.contains(y) {
        let k = choose|k: int| 0 <= k < s.len() && s[k] == y;
        assert(t[k] == y);
    }
    if x == y {
        assert(t[s.len() as int] == y);
    }
    if t.contains(y) {
        let k = choose|k: int| 0 <= k < t.len() && t[k] == y;
        if k < s.len() {
            assert(s[k] == y);
        }
    }
}

/// What a concatenation contains: what either part does.
pub proof fn lemma_concat_contains<A>(s: Seq<A>, t: Seq<A>, y: A)
    ensures
        (s + t).contains(y) <==> s.contains(y) || t.contains(y),
{
    let u = s + t;
    if s.contains(y) {
        let k = choose|k: int| 0 <= k < s.len() && s[k] == y;
        assert(u[k] == y);
    }
    if t.contains(y) {
        let k = choose|k: int| 0 <= k < t.len() && t[k] == y;
        assert(u[s.len() + k] == y);
    }
    if u.contains(y) {
        let k = choose|k: int| 0 <= k < u.len() && u[k] == y;
        if k < s.len() {
            assert(s[k] == y);
        } else {
            assert(t[k - s.len()] == y);
        }
    }
}

/// The elements of a sequence with one put in front: that one and those of
/// the sequence.
pub proof fn lemma_to_set_prepend<A>(x: A, s: Seq<A>)
    ensures
        (seq![x] + s).to_set() == s.to_set().insert(x),
{
    let joined = seq![x] + s;
    assert forall|y: A| joined.to_set().contains(y) <==> s.to_set().insert(x).contains(y) by {
        lemma_concat_contains(seq![x], s, y);
        if seq![x].contains(y) {
            let i = choose|i: int| 0 <= i < seq![x].len() && seq![x][i] == y;
        }
        if x == y {
            assert(seq![x][0] == y);
        }
    }
    assert(joined.to_set() =~= s.to_set().insert(x));
}

} // verus!
