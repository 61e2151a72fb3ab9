use vstd::prelude::*;

verus! {

/// The largest weight a single directed edge can carry.
pub const MAX_EDGE: u64 = 0xFFFF_FFFF;

/// A dense weight matrix is square: every row holds one entry per node.
pub open spec fn is_square(t: Seq<Seq<u32>>) -> bool {
    forall|i: int| 0 <= i < t.len() ==> (#[trigger] t[i]).len() == t.len()
}

/// Weight of the directed edge `i -> j`; zero means there is no edge.
pub open spec fn edge(t: Seq<Seq<u32>>, i: usize, j: usize) -> int {
    t[i as int][j as int] as int
}

/// Every node of `r` is an index of the matrix.
pub open spec fn nodes_in_range(t: Seq<Seq<u32>>, r: Seq<usize>) -> bool {
    forall|k: int| 0 <= k < r.len() ==> (#[trigger] r[k]) < t.len()
}

/// Every node of `r` is taken from the candidate sequence `c`.
pub open spec fn nodes_from(r: Seq<usize>, c: Seq<usize>) -> bool {
    forall|k: int| 0 <= k < r.len() ==> c.contains(#[trigger] r[k])
}

/// Sum of the weights of consecutive pairs of a walk.
pub open spec fn walk_weight(t: Seq<Seq<u32>>, r: Seq<usize>) -> int
    decreases r.len(),
{
    if r.len() < 2 {
        0
    } else {
        walk_weight(t, r.drop_last()) + edge(t, r[r.len() - 2], r[r.len() - 1])
    }
}

/// Prepending a node adds the weight of the edge into the former first node.
pub proof fn lemma_walk_prepend(t: Seq<Seq<u32>>, x: usize, r: Seq<usize>)
    requires
        r.len() > 0,
    ensures
        walk_weight(t, seq![x] + r) == edge(t, x, r[0]) + walk_weight(t, r),
    decreases r.len(),
{
    let s = seq![x] + r;
    if r.len() == 1 {
        assert(s.drop_last() =~= seq![x]);
        assert(s[0] == x && s[1] == r[0]);
        assert(walk_weight(t, seq![x]) == 0);
        assert(walk_weight(t, s) == walk_weight(t, s.drop_last()) + edge(t, s[0], s[1]));
    } else {
        assert(s.drop_last() =~= seq![x] + r.drop_last());
        lemma_walk_prepend(t, x, r.drop_last());
        assert(r.drop_last()[0] == r[0]);
        assert(s[s.len() - 2] == r[r.len() - 2] && s[s.len() - 1] == r[r.len() - 1]);
    }
}

/// Appending a node adds the weight of the edge out of the former last node.
pub proof fn lemma_walk_push(t: Seq<Seq<u32>>, r: Seq<usize>, x: usize)
    requires
        r.len() > 0,
    ensures
        walk_weight(t, r.push(x)) == walk_weight(t, r) + edge(t, r.last(), x),
{
    assert(r.push(x).drop_last() =~= r);
}

} // verus!
