//! Paths and cycles in a directed graph over the nodes `0..n`, whose edges are given
//! by a relation. `edge(a, b)` reads "a depends on b".
use vstd::prelude::*;

verus! {

/// The step of `p` from position `k` to `k + 1` follows an edge.
pub open spec fn step_ok(edge: spec_fn(int, int) -> bool, p: Seq<int>, k: int) -> bool {
    edge(p[k], p[k + 1])
}

/// `p` is a walk along `edge` through nodes of `0..n` (possibly a single node).
pub open spec fn is_path(edge: spec_fn(int, int) -> bool, n: int, p: Seq<int>) -> bool {
    &&& p.len() >= 1
    &&& forall|k: int| 0 <= k < p.len() ==> 0 <= #[trigger] p[k] < n
    &&& forall|k: int| 0 <= k < p.len() - 1 ==> #[trigger] step_ok(edge, p, k)
}

/// Some walk leads from `a` to `b` (every node reaches itself).
pub open spec fn reaches(edge: spec_fn(int, int) -> bool, n: int, a: int, b: int) -> bool {
    exists|p: Seq<int>| is_path(edge, n, p) && p[0] == a && p.last() == b
}

/// Some walk of at least one edge leads from a node back to itself.
pub open spec fn has_cycle(edge: spec_fn(int, int) -> bool, n: int) -> bool {
    exists|p: Seq<int>| is_path(edge, n, p) && p.len() >= 2 && p[0] == p.last()
}

/// A ranking under which every edge goes from a higher to a lower rank.
pub open spec fn ranks_edges(edge: spec_fn(int, int) -> bool, n: int, rank: Seq<int>) -> bool {
    &&& rank.len() == n
    &&& forall|a: int, b: int|
        0 <= a < n && 0 <= b < n && #[trigger] edge(a, b) ==> rank[b] < rank[a]
}

proof fn lemma_ranked_path_descends(
    edge: spec_fn(int, int) -> bool,
    n: int,
    rank: Seq<int>,
    p: Seq<int>,
)
    requires
        ranks_edges(edge, n, rank),
        is_path(edge, n, p),
        p.len() >= 2,
    ensures
        rank[p.last()] < rank[p[0]],
    decreases p.len(),
{
    if p.len() > 2 {
        let q = p.drop_last();
        assert(is_path(edge, n, q)) by {
            assert forall|k: int| 0 <= k < q.len() - 1 implies #[trigger] step_ok(edge, q, k) by {
                assert(step_ok(edge, p, k));
            }
            assert forall|k: int| 0 <= k < q.len() implies 0 <= #[trigger] q[k] < n by {
                assert(0 <= p[k] < n);
            }
        }
        lemma_ranked_path_descends(edge, n, rank, q);
        assert(step_ok(edge, p, p.len() - 2));
    } else {
        assert(step_ok(edge, p, 0));
    }
}

/// A graph with a ranking of its edges has no cycle.
pub proof fn lemma_ranked_acyclic(edge: spec_fn(int, int) -> bool, n: int, rank: Seq<int>)
    requires
        ranks_edges(edge, n, rank),
    ensures
        !has_cycle(edge, n),
{
    if has_cycle(edge, n) {
        let p = choose|p: Seq<int>| is_path(edge, n, p) && p.len() >= 2 && p[0] == p.last();
        lemma_ranked_path_descends(edge, n, rank, p);
    }
}

/// A path followed by one more edge.
pub proof fn lemma_path_extend(edge: spec_fn(int, int) -> bool, n: int, p: Seq<int>, b: int)
    requires
        is_path(edge, n, p),
        0 <= b < n,
        edge(p.last(), b),
    ensures
        is_path(edge, n, p.push(b)),
{
    let q = p.push(b);
    assert forall|k: int| 0 <= k < q.len() - 1 implies #[trigger] step_ok(edge, q, k) by {
        if k < p.len() - 1 {
            assert(step_ok(edge, p, k));
        }
    }
    assert forall|k: int| 0 <= k < q.len() implies 0 <= #[trigger] q[k] < n by {
        if k < p.len() {
            assert(0 <= p[k] < n);
        }
    }
}

/// A contiguous piece of a path is a path.
pub proof fn lemma_subpath(edge: spec_fn(int, int) -> bool, n: int, p: Seq<int>, i: int, j: int)
    requires
        is_path(edge, n, p),
        0 <= i < j <= p.len(),
    ensures
        is_path(edge, n, p.subrange(i, j)),
{
    let q = p.subrange(i, j);
    assert forall|k: int| 0 <= k < q.len() - 1 implies #[trigger] step_ok(edge, q, k) by {
        assert(step_ok(edge, p, i + k));
    }
    assert forall|k: int| 0 <= k < q.len() implies 0 <= #[trigger] q[k] < n by {
        assert(0 <= p[i + k] < n);
    }
}

/// Two walks joined where the first ends and the second starts.
pub proof fn lemma_path_join(edge: spec_fn(int, int) -> bool, n: int, p: Seq<int>, q: Seq<int>)
    requires
        is_path(edge, n, p),
        is_path(edge, n, q),
        p.last() == q[0],
    ensures
        is_path(edge, n, p + q.drop_first()),
        (p + q.drop_first())[0] == p[0],
        (p + q.drop_first()).last() == q.last(),
{
    let r = p + q.drop_first();
    assert forall|k: int| 0 <= k < r.len() - 1 implies #[trigger] step_ok(edge, r, k) by {
        if k < p.len() - 1 {
            assert(step_ok(edge, p, k));
        } else {
            let m = k - p.len() + 1;
            assert(step_ok(edge, q, m));
        }
    }
    assert forall|k: int| 0 <= k < r.len() implies 0 <= #[trigger] r[k] < n by {
        if k < p.len() {
            assert(0 <= p[k] < n);
        } else {
            assert(0 <= q[k - p.len() + 1] < n);
        }
    }
}

} // verus!
