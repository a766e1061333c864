//! Paths in a directed graph given as a set of edges, and what it means for
//! such a graph to have no cycle.

use vstd::prelude::*;

verus! {

/// Whether the graph has an edge from node `i` of `p` to the node after it.
pub open spec fn linked<T>(edges: Set<(T, T)>, p: Seq<T>, i: int) -> bool {
    edges.contains((p[i], p[i + 1]))
}

/// A path is a non-empty sequence of nodes in which each node has an edge to
/// the next one. A single node is a path.
pub open spec fn is_path<T>(edges: Set<(T, T)>, p: Seq<T>) -> bool {
    &&& p.len() >= 1
    &&& forall|i: int| 0 <= i < p.len() - 1 ==> #[trigger] linked(edges, p, i)
}

/// Whether `p` is a path from `x` to `y`.
pub open spec fn path_between<T>(edges: Set<(T, T)>, p: Seq<T>, x: T, y: T) -> bool {
    is_path(edges, p) && p.first() == x && p.last() == y
}

/// Whether some path leads from `x` to `y`. Every node reaches itself.
pub open spec fn reaches<T>(edges: Set<(T, T)>, x: T, y: T) -> bool {
    exists|p: Seq<T>| #[trigger] path_between(edges, p, x, y)
}

/// Whether some path with at least one edge leads from `x` to `y`.
pub open spec fn reaches_by_edges<T>(edges: Set<(T, T)>, x: T, y: T) -> bool {
    exists|p: Seq<T>| #[trigger] path_between(edges, p, x, y) && p.len() >= 2
}

/// A graph is acyclic when no path with at least one edge ends where it began.
pub open spec fn acyclic<T>(edges: Set<(T, T)>) -> bool {
    forall|p: Seq<T>| #[trigger] is_path(edges, p) && p.len() >= 2 ==> p.first() != p.last()
}

/// Every node reaches itself.
pub proof fn lemma_reaches_self<T>(edges: Set<(T, T)>, x: T)
    ensures
        reaches(edges, x, x),
{
    assert(path_between(edges, seq![x], x, x));
}

/// An edge is a path with one edge.
pub proof fn lemma_edge_reaches<T>(edges: Set<(T, T)>, x: T, y: T)
    requires
        edges.contains((x, y)),
    ensures
        reaches(edges, x, y),
        reaches_by_edges(edges, x, y),
{
    let p = seq![x, y];
    assert forall|i: int| 0 <= i < p.len() - 1 implies #[trigger] linked(edges, p, i) by {
        assert(p[0] == x && p[1] == y);
    }
    assert(path_between(edges, p, x, y));
}

/// A path followed by an edge from its end is a path.
pub proof fn lemma_path_push<T>(edges: Set<(T, T)>, p: Seq<T>, y: T)
    requires
        is_path(edges, p),
        edges.contains((p.last(), y)),
    ensures
        is_path(edges, p.push(y)),
        p.push(y).first() == p.first(),
        p.push(y).last() == y,
{
    let q = p.push(y);
    assert forall|i: int| 0 <= i < q.len() - 1 implies #[trigger] linked(edges, q, i) by {
        if i < p.len() - 1 {
            assert(linked(edges, p, i));
        }
    }
}

/// An edge into the start of a path, followed by the path, is a path.
pub proof fn lemma_path_prepend<T>(edges: Set<(T, T)>, x: T, p: Seq<T>)
    requires
        is_path(edges, p),
        edges.contains((x, p.first())),
    ensures
        is_path(edges, seq![x] + p),
        (seq![x] + p).first() == x,
        (seq![x] + p).last() == p.last(),
{
    let q = seq![x] + p;
    assert forall|i: int| 0 <= i < q.len() - 1 implies #[trigger] linked(edges, q, i) by {
        if i >= 1 {
            assert(linked(edges, p, i - 1));
            assert(q[i] == p[i - 1]);
            assert(q[i + 1] == p[i]);
        }
    }
}

/// A stretch of a path is a path.
pub proof fn lemma_subpath<T>(edges: Set<(T, T)>, p: Seq<T>, from: int, to: int)
    requires
        is_path(edges, p),
        0 <= from < to <= p.len(),
    ensures
        is_path(edges, p.subrange(from, to)),
{
    let q = p.subrange(from, to);
    assert forall|i: int| 0 <= i < q.len() - 1 implies #[trigger] linked(edges, q, i) by {
        assert(linked(edges, p, from + i));
    }
}

/// Two paths, the second starting where the first ends, join into one.
pub proof fn lemma_path_join<T>(edges: Set<(T, T)>, p: Seq<T>, q: Seq<T>)
    requires
        is_path(edges, p),
        is_path(edges, q),
        p.last() == q.first(),
    ensures
        is_path(edges, p + q.subrange(1, q.len() as int)),
        (p + q.subrange(1, q.len() as int)).first() == p.first(),
        (p + q.subrange(1, q.len() as int)).last() == q.last(),
        (p + q.subrange(1, q.len() as int)).len() == p.len() + q.len() - 1,
{
    let r = p + q.subrange(1, q.len() as int);
    assert forall|i: int| 0 <= i < r.len() - 1 implies #[trigger] linked(edges, r, i) by {
        if i < p.len() - 1 {
            assert(linked(edges, p, i));
        } else {
            let j = i - (p.len() - 1);
            assert(linked(edges, q, j));
            assert(r[i + 1] == q[j + 1]);
            if j == 0 {
                assert(r[i] == p.last());
            } else {
                assert(r[i] == q[j]);
            }
        }
    }
}

/// Reaching is transitive.
pub proof fn lemma_reaches_transitive<T>(edges: Set<(T, T)>, x: T, y: T, z: T)
    requires
        reaches(edges, x, y),
        reaches(edges, y, z),
    ensures
        reaches(edges, x, z),
{
    let p = choose|p: Seq<T>| #[trigger] path_between(edges, p, x, y);
    let q = choose|q: Seq<T>| #[trigger] path_between(edges, q, y, z);
    lemma_path_join(edges, p, q);
    assert(path_between(edges, p + q.subrange(1, q.len() as int), x, z));
}

/// Reaching by at least one edge, then reaching, is reaching by at least one
/// edge.
pub proof fn lemma_reaches_by_edges_then<T>(edges: Set<(T, T)>, x: T, y: T, z: T)
    requires
        reaches_by_edges(edges, x, y),
        reaches(edges, y, z),
    ensures
        reaches_by_edges(edges, x, z),
{
    let p = choose|p: Seq<T>| #[trigger] path_between(edges, p, x, y) && p.len() >= 2;
    let q = choose|q: Seq<T>| #[trigger] path_between(edges, q, y, z);
    lemma_path_join(edges, p, q);
    assert(path_between(edges, p + q.subrange(1, q.len() as int), x, z));
}

/// From a node without outgoing edges only the node itself is reached.
pub proof fn lemma_sink_reaches_itself_only<T>(edges: Set<(T, T)>, x: T, y: T)
    requires
        forall|z: T| !edges.contains((x, z)),
        reaches(edges, x, y),
    ensures
        x == y,
{
    let p = choose|p: Seq<T>| #[trigger] path_between(edges, p, x, y);
    if p.len() >= 2 {
        assert(linked(edges, p, 0));
    }
}

/// Where a path runs in the graph with one more edge, from `a` to `b`: either
/// it needs no more than the old edges, or the old edges lead from its start
/// to `a` and from `b` to its end.
pub proof fn lemma_path_through_new_edge<T>(edges: Set<(T, T)>, a: T, b: T, p: Seq<T>)
    requires
        is_path(edges.insert((a, b)), p),
        p.len() >= 2,
    ensures
        reaches_by_edges(edges, p.first(), p.last()) || (reaches(edges, p.first(), a) && reaches(
            edges,
            b,
            p.last(),
        )),
    decreases p.len(),
{
    let larger = edges.insert((a, b));
    let x = p.first();
    let y = p.last();
    let q = p.drop_last();
    let z = q.last();
    assert(linked(larger, p, p.len() - 2));
    assert(larger.contains((z, y)));
    lemma_subpath(larger, p, 0, p.len() - 1);
    assert(q =~= p.subrange(0, p.len() - 1));
    if edges.contains((z, y)) {
        lemma_edge_reaches(edges, z, y);
        if p.len() == 2 {
            assert(z == x);
        } else {
            lemma_path_through_new_edge(edges, a, b, q);
            if reaches_by_edges(edges, x, z) {
                lemma_reaches_by_edges_then(edges, x, z, y);
            } else {
                lemma_reaches_transitive(edges, b, z, y);
            }
        }
    } else {
        assert(z == a && y == b);
        lemma_reaches_self(edges, b);
        if p.len() == 2 {
            assert(z == x);
            lemma_reaches_self(edges, a);
        } else {
            lemma_path_through_new_edge(edges, a, b, q);
            if reaches_by_edges(edges, x, z) {
                let w = choose|w: Seq<T>| #[trigger] path_between(edges, w, x, z) && w.len() >= 2;
                assert(path_between(edges, w, x, a));
            }
        }
    }
}

/// An acyclic graph stays acyclic when it gains an edge from `a` to `b`,
/// unless `b` reached `a` before.
pub proof fn lemma_insert_keeps_acyclic<T>(edges: Set<(T, T)>, a: T, b: T)
    requires
        acyclic(edges),
        !reaches(edges, b, a),
    ensures
        acyclic(edges.insert((a, b))),
{
    let larger = edges.insert((a, b));
    assert forall|p: Seq<T>| #[trigger] is_path(larger, p) && p.len() >= 2 implies p.first()
        != p.last() by {
        if p.first() == p.last() {
            let x = p.first();
            lemma_path_through_new_edge(edges, a, b, p);
            if reaches_by_edges(edges, x, x) {
                let w = choose|w: Seq<T>| #[trigger] path_between(edges, w, x, x) && w.len() >= 2;
                assert(is_path(edges, w));
            } else {
                lemma_reaches_transitive(edges, b, x, a);
            }
        }
    }
}

/// A map of nodes that sends edges to edges sends paths to paths.
pub proof fn lemma_path_image<A, B>(
    from: Set<(A, A)>,
    to: Set<(B, B)>,
    f: spec_fn(A) -> B,
    p: Seq<A>,
)
    requires
        is_path(from, p),
        forall|x: A, y: A| #[trigger] from.contains((x, y)) ==> to.contains((f(x), f(y))),
    ensures
        is_path(to, p.map_values(f)),
{
    let q = p.map_values(f);
    assert forall|i: int| 0 <= i < q.len() - 1 implies #[trigger] linked(to, q, i) by {
        assert(linked(from, p, i));
        assert(from.contains((p[i], p[i + 1])));
    }
}

/// A map of nodes that sends edges to edges keeps reaching.
pub proof fn lemma_reaches_image<A, B>(
    from: Set<(A, A)>,
    to: Set<(B, B)>,
    f: spec_fn(A) -> B,
    x: A,
    y: A,
)
    requires
        reaches(from, x, y),
        forall|u: A, v: A| #[trigger] from.contains((u, v)) ==> to.contains((f(u), f(v))),
    ensures
        reaches(to, f(x), f(y)),
{
    let p = choose|p: Seq<A>| #[trigger] path_between(from, p, x, y);
    lemma_path_image(from, to, f, p);
    assert(path_between(to, p.map_values(f), f(x), f(y)));
}

/// In an acyclic graph no path visits a node twice.
pub proof fn lemma_acyclic_path_distinct<T>(edges: Set<(T, T)>, p: Seq<T>)
    requires
        acyclic(edges),
        is_path(edges, p),
    ensures
        p.no_duplicates(),
{
    assert forall|i: int, j: int| 0 <= i < p.len() && 0 <= j < p.len() && i != j implies p[i]
        != p[j] by {
        let (lo, hi) = if i < j {
            (i, j)
        } else {
            (j, i)
        };
        lemma_subpath(edges, p, lo, hi + 1);
        let q = p.subrange(lo, hi + 1);
        assert(is_path(edges, q) && q.len() >= 2);
        assert(q.first() == p[lo] && q.last() == p[hi]);
    }
}

/// A sequence of distinct numbers below `bound` has at most `bound` entries.
pub proof fn lemma_distinct_below_bound(p: Seq<usize>, bound: nat)
    requires
        p.no_duplicates(),
        forall|i: int| 0 <= i < p.len() ==> p[i] < bound,
    ensures
        p.len() <= bound,
{
    let q = p.map_values(|x: usize| x as int);
    let ints = vstd::set_lib::set_int_range(0, bound as int);
    vstd::set_lib::lemma_int_range(0, bound as int);
    assert(q.no_duplicates()) by {
        assert forall|i: int, j: int| 0 <= i < q.len() && 0 <= j < q.len() && i != j implies q[i]
            != q[j] by {
            assert(p[i] != p[j]);
        }
    }
    q.unique_seq_to_set();
    assert(q.to_set().subset_of(ints)) by {
        assert forall|y: int| q.to_set().contains(y) implies ints.contains(y) by {
            let i = choose|i: int| 0 <= i < q.len() && q[i] == y;
            assert(p[i] < bound);
        }
    }
    vstd::set_lib::lemma_len_subset(q.to_set(), ints);
}

} // verus!
