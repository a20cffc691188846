use vstd::prelude::*;

verus! {

/// Some edge joins `a` and `b`, in either direction.
pub open spec fn adjacent(edges: Seq<(u32, u32)>, a: u32, b: u32) -> bool {
    exists|i: int|
        0 <= i < edges.len() && ((#[trigger] edges[i]) == (a, b) || edges[i] == (b, a))
}

/// `path` is not empty and each of its vertices is adjacent to the next.
pub open spec fn is_walk(edges: Seq<(u32, u32)>, path: Seq<u32>) -> bool {
    &&& path.len() > 0
    &&& forall|k: int|
        0 <= k < path.len() - 1 ==> adjacent(edges, #[trigger] path[k], path[k + 1])
}

/// `a` and `b` lie in the same component of the undirected graph that
/// `edges` spans: some walk leads from one to the other.
pub open spec fn connected(edges: Seq<(u32, u32)>, a: u32, b: u32) -> bool {
    exists|path: Seq<u32>| #[trigger] is_walk(edges, path) && path[0] == a && path.last() == b
}

/// The number of positions of `s` that do not hold their own index.
pub open spec fn moved(s: Seq<u32>) -> nat
    decreases s.len(),
{
    if s.len() == 0 {
        0
    } else if s.last() != s.len() - 1 {
        moved(s.drop_last()) + 1
    } else {
        moved(s.drop_last())
    }
}

/// Every edge names vertices below `n` only.
pub open spec fn in_range(edges: Seq<(u32, u32)>, n: nat) -> bool {
    forall|i: int| 0 <= i < edges.len() ==> (#[trigger] edges[i]).0 < n && edges[i].1 < n
}

/// Every vertex is connected to itself.
pub proof fn lemma_connected_refl(edges: Seq<(u32, u32)>, a: u32)
    ensures
        connected(edges, a, a),
{
    let path = seq![a];
    assert(is_walk(edges, path));
    assert(path[0] == a && path.last() == a);
}

/// The two ends of an edge are connected.
pub proof fn lemma_connected_edge(edges: Seq<(u32, u32)>, i: int)
    requires
        0 <= i < edges.len(),
    ensures
        connected(edges, edges[i].0, edges[i].1),
        connected(edges, edges[i].1, edges[i].0),
{
    let a = edges[i].0;
    let b = edges[i].1;
    assert(edges[i] == (a, b));
    let there = seq![a, b];
    assert(adjacent(edges, a, b));
    assert(is_walk(edges, there)) by {
        assert forall|k: int| 0 <= k < there.len() - 1 implies adjacent(
            edges,
            #[trigger] there[k],
            there[k + 1],
        ) by {
            assert(k == 0);
        }
    }
    assert(there[0] == a && there.last() == b);
    let back = seq![b, a];
    assert(adjacent(edges, b, a));
    assert(is_walk(edges, back)) by {
        assert forall|k: int| 0 <= k < back.len() - 1 implies adjacent(
            edges,
            #[trigger] back[k],
            back[k + 1],
        ) by {
            assert(k == 0);
        }
    }
    assert(back[0] == b && back.last() == a);
}

/// Connection does not depend on the direction.
pub proof fn lemma_connected_sym(edges: Seq<(u32, u32)>, a: u32, b: u32)
    requires
        connected(edges, a, b),
    ensures
        connected(edges, b, a),
{
    let path = choose|path: Seq<u32>|
        #[trigger] is_walk(edges, path) && path[0] == a && path.last() == b;
    let back = Seq::new(path.len(), |k: int| path[path.len() - 1 - k]);
    assert forall|k: int| 0 <= k < back.len() - 1 implies adjacent(
        edges,
        #[trigger] back[k],
        back[k + 1],
    ) by {
        let j = path.len() - 2 - k;
        assert(adjacent(edges, path[j], path[j + 1]));
        let i = choose|i: int|
            0 <= i < edges.len() && ((#[trigger] edges[i]) == (path[j], path[j + 1]) || edges[i]
                == (path[j + 1], path[j]));
        assert(edges[i] == (back[k], back[k + 1]) || edges[i] == (back[k + 1], back[k]));
    }
    assert(is_walk(edges, back));
    assert(back[0] == b && back.last() == a);
}

/// Two walks that meet make one walk.
pub proof fn lemma_connected_trans(edges: Seq<(u32, u32)>, a: u32, b: u32, c: u32)
    requires
        connected(edges, a, b),
        connected(edges, b, c),
    ensures
        connected(edges, a, c),
{
    let p = choose|path: Seq<u32>|
        #[trigger] is_walk(edges, path) && path[0] == a && path.last() == b;
    let q = choose|path: Seq<u32>|
        #[trigger] is_walk(edges, path) && path[0] == b && path.last() == c;
    let r = p.drop_last() + q;
    assert forall|k: int| 0 <= k < r.len() - 1 implies adjacent(
        edges,
        #[trigger] r[k],
        r[k + 1],
    ) by {
        if k < p.len() - 2 {
            assert(adjacent(edges, p[k], p[k + 1]));
        } else if k == p.len() - 2 {
            assert(adjacent(edges, p[k], p[k + 1]));
            assert(r[k + 1] == q[0]);
        } else {
            let j = k - (p.len() - 1);
            assert(adjacent(edges, q[j], q[j + 1]));
        }
    }
    assert(is_walk(edges, r));
    assert(r[0] == a && r.last() == c);
}

/// What is connected stays connected when edges are added.
pub proof fn lemma_connected_mono(
    edges: Seq<(u32, u32)>,
    more: Seq<(u32, u32)>,
    a: u32,
    b: u32,
)
    requires
        connected(edges, a, b),
        edges.len() <= more.len(),
        forall|i: int| 0 <= i < edges.len() ==> edges[i] == more[i],
    ensures
        connected(more, a, b),
{
    let path = choose|path: Seq<u32>|
        #[trigger] is_walk(edges, path) && path[0] == a && path.last() == b;
    assert forall|k: int| 0 <= k < path.len() - 1 implies adjacent(
        more,
        #[trigger] path[k],
        path[k + 1],
    ) by {
        assert(adjacent(edges, path[k], path[k + 1]));
        let i = choose|i: int|
            0 <= i < edges.len() && ((#[trigger] edges[i]) == (path[k], path[k + 1]) || edges[i]
                == (path[k + 1], path[k]));
        assert(more[i] == edges[i]);
    }
    assert(is_walk(more, path));
}

/// A function that agrees on the two ends of every edge has one value along
/// a walk.
pub proof fn lemma_constant_on_walk(
    edges: Seq<(u32, u32)>,
    f: spec_fn(u32) -> int,
    path: Seq<u32>,
    k: int,
)
    requires
        forall|i: int| 0 <= i < edges.len() ==> f((#[trigger] edges[i]).0) == f(edges[i].1),
        is_walk(edges, path),
        0 <= k < path.len(),
    ensures
        f(path[k]) == f(path[0]),
    decreases k,
{
    if k > 0 {
        lemma_constant_on_walk(edges, f, path, k - 1);
        assert(adjacent(edges, path[k - 1], path[k - 1 + 1]));
        let i = choose|i: int|
            0 <= i < edges.len() && ((#[trigger] edges[i]) == (path[k - 1], path[k]) || edges[i]
                == (path[k], path[k - 1]));
        assert(f(edges[i].0) == f(edges[i].1));
    }
}

/// A function that agrees on the two ends of every edge has one value on
/// each component.
pub proof fn lemma_constant_on_component(
    edges: Seq<(u32, u32)>,
    f: spec_fn(u32) -> int,
    a: u32,
    b: u32,
)
    requires
        forall|i: int| 0 <= i < edges.len() ==> f((#[trigger] edges[i]).0) == f(edges[i].1),
        connected(edges, a, b),
    ensures
        f(a) == f(b),
{
    let path = choose|path: Seq<u32>|
        #[trigger] is_walk(edges, path) && path[0] == a && path.last() == b;
    lemma_constant_on_walk(edges, f, path, path.len() - 1);
}

} // verus!
