use crate::graph_iterator::EdgeMapper;
use crate::graph_iterator::EdgeVisitor;
use vstd::prelude::*;

verus! {

/// A forest of vertices with ranks, and the edges that have shaped it.
pub struct Forest {
    /// The parent of each vertex; a root is its own parent.
    pub roots: Seq<u32>,
    /// A bound on the height of the tree below each vertex.
    pub ranks: Seq<u8>,
    /// The edges seen so far, in order.
    pub seen: Seq<(u32, u32)>,
}

/// Every parent is a vertex, and ranks rise strictly from child to parent.
pub open spec fn forest_ok(roots: Seq<u32>, ranks: Seq<u8>) -> bool {
    &&& roots.len() == ranks.len()
    &&& forall|v: int|
        0 <= v < roots.len() ==> (#[trigger] roots[v]) < roots.len() && (roots[v] != v
            ==> ranks[v] < ranks[roots[v] as int])
}

/// The root of the tree that holds `v`.
pub open spec fn root_of(roots: Seq<u32>, ranks: Seq<u8>, v: int) -> int
    decreases 256 - ranks[v],
    when forest_ok(roots, ranks) && 0 <= v < roots.len()
{
    if roots[v] == v {
        v
    } else {
        root_of(roots, ranks, roots[v] as int)
    }
}

/// One edge seen: where its ends lie in two trees, the root of lower rank
/// goes below the other; of two roots of one rank, the root of the target
/// goes below the root of the source, whose rank rises by one.
pub open spec fn unite(s: Forest, x: u32, y: u32) -> Forest {
    let seen = s.seen.push((x, y));
    if x < s.roots.len() && y < s.roots.len() && forest_ok(s.roots, s.ranks) {
        let a = root_of(s.roots, s.ranks, x as int);
        let b = root_of(s.roots, s.ranks, y as int);
        if a == b {
            Forest { roots: s.roots, ranks: s.ranks, seen }
        } else if s.ranks[a] < s.ranks[b] {
            Forest { roots: s.roots.update(a, b as u32), ranks: s.ranks, seen }
        } else if s.ranks[a] > s.ranks[b] {
            Forest { roots: s.roots.update(b, a as u32), ranks: s.ranks, seen }
        } else {
            Forest {
                roots: s.roots.update(b, a as u32),
                ranks: s.ranks.update(a, (s.ranks[a] + 1) as u8),
                seen,
            }
        }
    } else {
        Forest { roots: s.roots, ranks: s.ranks, seen }
    }
}

/// The forest before the first edge: each of `n` vertices is the root of
/// its own tree, with rank zero.
pub open spec fn fresh_forest(n: nat) -> Forest {
    Forest {
        roots: Seq::new(n, |v: int| v as u32),
        ranks: Seq::new(n, |v: int| 0u8),
        seen: Seq::empty(),
    }
}

/// The sizes of the trees whose roots lie below `k`, added up.
pub open spec fn tree_total(roots: Seq<u32>, sizes: Seq<nat>, k: nat) -> nat
    decreases k,
{
    if k == 0 {
        0
    } else if roots[k - 1] == k - 1 {
        tree_total(roots, sizes, (k - 1) as nat) + sizes[k - 1]
    } else {
        tree_total(roots, sizes, (k - 1) as nat)
    }
}

/// The root of a tree is a vertex and its own parent.
pub proof fn lemma_root_is_root(roots: Seq<u32>, ranks: Seq<u8>, v: int)
    requires
        forest_ok(roots, ranks),
        0 <= v < roots.len(),
    ensures
        0 <= root_of(roots, ranks, v) < roots.len(),
        roots[root_of(roots, ranks, v)] == root_of(roots, ranks, v),
    decreases 256 - ranks[v],
{
    if roots[v] != v {
        lemma_root_is_root(roots, ranks, roots[v] as int);
    }
}

/// Once the root `c` has gone below the root `p`, the vertices of its tree
/// have `p` as their root, and all others keep theirs.
pub proof fn lemma_link_roots(
    roots: Seq<u32>,
    ranks: Seq<u8>,
    ranks2: Seq<u8>,
    c: int,
    p: int,
    v: int,
)
    requires
        forest_ok(roots, ranks),
        forest_ok(roots.update(c, p as u32), ranks2),
        0 <= c < roots.len(),
        0 <= p < roots.len(),
        roots[c] == c,
        roots[p] == p,
        c != p,
        0 <= v < roots.len(),
    ensures
        root_of(roots.update(c, p as u32), ranks2, v) == (if root_of(roots, ranks, v) == c {
            p
        } else {
            root_of(roots, ranks, v)
        }),
    decreases 256 - ranks[v],
{
    let roots2 = roots.update(c, p as u32);
    if roots[v] == v {
        if v == c {
            assert(roots2[c] == p);
            assert(roots2[p] == p);
            assert(root_of(roots2, ranks2, p) == p);
            assert(root_of(roots2, ranks2, c) == root_of(roots2, ranks2, p));
        } else {
            assert(roots2[v] == v);
        }
    } else {
        assert(roots2[v] == roots[v]);
        lemma_link_roots(roots, ranks, ranks2, c, p, roots[v] as int);
    }
}

/// Two trees are no larger together than all trees.
pub proof fn lemma_two_trees(roots: Seq<u32>, sizes: Seq<nat>, k: nat, a: int, b: int)
    requires
        0 <= a < k,
        0 <= b < k,
        a != b,
        roots[a] == a,
        roots[b] == b,
    ensures
        sizes[a] + sizes[b] <= tree_total(roots, sizes, k),
    decreases k,
{
    if a == k - 1 {
        lemma_one_tree(roots, sizes, (k - 1) as nat, b);
    } else if b == k - 1 {
        lemma_one_tree(roots, sizes, (k - 1) as nat, a);
    } else {
        lemma_two_trees(roots, sizes, (k - 1) as nat, a, b);
    }
}

/// One tree is no larger than all trees.
pub proof fn lemma_one_tree(roots: Seq<u32>, sizes: Seq<nat>, k: nat, a: int)
    requires
        0 <= a < k,
        roots[a] == a,
    ensures
        sizes[a] <= tree_total(roots, sizes, k),
    decreases k,
{
    if a < k - 1 {
        lemma_one_tree(roots, sizes, (k - 1) as nat, a);
    }
}

/// When the root `c` goes below the root `p` and hands it its size, the
/// trees are as large together as before.
pub proof fn lemma_link_total(roots: Seq<u32>, sizes: Seq<nat>, c: int, p: int, k: nat)
    requires
        0 <= c < roots.len(),
        0 <= p < roots.len(),
        roots.len() == sizes.len(),
        k <= roots.len(),
        roots[c] == c,
        roots[p] == p,
        c != p,
    ensures
        tree_total(roots.update(c, p as u32), sizes.update(p, sizes[p] + sizes[c]), k) + (if c
            < k {
            sizes[c]
        } else {
            0
        }) == tree_total(roots, sizes, k) + (if p < k {
            sizes[c]
        } else {
            0
        }),
    decreases k,
{
    if k > 0 {
        lemma_link_total(roots, sizes, c, p, (k - 1) as nat);
    }
}

/// Trees of one vertex each are as large together as there are vertices.
pub proof fn lemma_single_trees(roots: Seq<u32>, sizes: Seq<nat>, k: nat)
    requires
        k <= roots.len(),
        k <= sizes.len(),
        forall|i: int| 0 <= i < k ==> roots[i] == i && sizes[i] == 1,
    ensures
        tree_total(roots, sizes, k) == k,
    decreases k,
{
    if k > 0 {
        lemma_single_trees(roots, sizes, (k - 1) as nat);
    }
}

/// Where each vertex is connected to its parent, each is connected to its
/// root.
pub proof fn lemma_connected_to_root(
    edges: Seq<(u32, u32)>,
    roots: Seq<u32>,
    ranks: Seq<u8>,
    v: int,
)
    requires
        forest_ok(roots, ranks),
        roots.len() <= u32::MAX,
        0 <= v < roots.len(),
        forall|w: int|
            0 <= w < roots.len() ==> crate::components::connected(
                edges,
                w as u32,
                #[trigger] roots[w],
            ),
    ensures
        crate::components::connected(edges, v as u32, root_of(roots, ranks, v) as u32),
    decreases 256 - ranks[v],
{
    if roots[v] == v {
        crate::components::lemma_connected_refl(edges, v as u32);
    } else {
        lemma_connected_to_root(edges, roots, ranks, roots[v] as int);
        assert(crate::components::connected(edges, v as u32, roots[v]));
        crate::components::lemma_connected_trans(
            edges,
            v as u32,
            roots[v],
            root_of(roots, ranks, v) as u32,
        );
    }
}

/// A rank whose power of two is below 2^32 is below 32.
pub proof fn lemma_rank_small(rank: nat, n: nat)
    requires
        vstd::arithmetic::power2::pow2(rank) <= n,
        n <= u32::MAX,
    ensures
        rank < 32,
{
    vstd::arithmetic::power2::lemma2_to64();
    if rank > 32 {
        vstd::arithmetic::power2::lemma_pow2_strictly_increases(32, rank);
    }
}

/// The vertices of a graph in trees, one tree for each component of the
/// edges seen.
pub struct UnionFind {
    roots: Vec<u32>,
    ranks: Vec<u8>,
    seen: Ghost<Seq<(u32, u32)>>,
    sizes: Ghost<Seq<nat>>,
}

impl UnionFind {
    /// The root of the tree that holds `v`.
    pub open spec fn root(&self, v: u32) -> u32 {
        root_of(self.state().roots, self.state().ranks, v as int) as u32
    }

    /// The number of vertices.
    pub open spec fn nodes(&self) -> nat {
        self.state().roots.len()
    }

    /// Each tree holds at least two to the power of its root's rank
    /// vertices, and the trees hold all vertices once.
    pub closed spec fn sizes_ok(&self) -> bool {
        &&& self.sizes@.len() == self.roots@.len()
        &&& tree_total(self.roots@, self.sizes@, self.roots@.len()) == self.roots@.len()
        &&& forall|v: int|
            0 <= v < self.roots@.len() && (#[trigger] self.roots@[v]) == v
                ==> vstd::arithmetic::power2::pow2(self.ranks@[v] as nat) <= self.sizes@[v]
    }

    /// Each vertex is connected to its parent by the edges seen, and the
    /// two ends of each edge seen lie in one tree.
    pub closed spec fn follows_edges(&self) -> bool {
        &&& crate::components::in_range(self.seen@, self.roots@.len())
        &&& forall|v: int|
            0 <= v < self.roots@.len() ==> crate::components::connected(
                self.seen@,
                v as u32,
                #[trigger] self.roots@[v],
            )
        &&& forall|i: int|
            0 <= i < self.seen@.len() ==> root_of(
                self.roots@,
                self.ranks@,
                (#[trigger] self.seen@[i]).0 as int,
            ) == root_of(self.roots@, self.ranks@, self.seen@[i].1 as int)
    }

    /// Puts each of `nodes` vertices in a tree of its own.
    pub fn new(nodes: u32) -> (r: Self)
        ensures
            r.inv(),
            r.nodes() == nodes,
            r.state() == fresh_forest(nodes as nat),
            forall|v: u32| v < nodes ==> r.root(v) == v,
    {
        let mut roots: Vec<u32> = Vec::new();
        let mut ranks: Vec<u8> = Vec::new();
        let mut v: u32 = 0;
        while v < nodes
            invariant
                v <= nodes,
                roots@.len() == v,
                ranks@.len() == v,
                forall|i: int| 0 <= i < v ==> roots@[i] == i && ranks@[i] == 0,
            decreases nodes - v,
        {
            roots.push(v);
            ranks.push(0);
            v += 1;
        }
        let ghost sizes = Seq::new(nodes as nat, |i: int| 1nat);
        let r = UnionFind {
            roots,
            ranks,
            seen: Ghost(Seq::empty()),
            sizes: Ghost(sizes),
        };
        proof {
            lemma_single_trees(r.roots@, sizes, nodes as nat);
            vstd::arithmetic::power2::lemma2_to64();
            assert(forest_ok(r.roots@, r.ranks@));
            assert forall|w: int| 0 <= w < r.roots@.len() implies crate::components::connected(
                r.seen@,
                w as u32,
                #[trigger] r.roots@[w],
            ) by {
                crate::components::lemma_connected_refl(r.seen@, w as u32);
            }
            assert(r.sizes_ok());
            assert(r.follows_edges());
            assert(r.roots@ =~= fresh_forest(nodes as nat).roots);
            assert(r.ranks@ =~= fresh_forest(nodes as nat).ranks);
        }
        r
    }

    /// Walks from `v` up to the root of its tree.
    pub fn find(&self, v: u32) -> (r: u32)
        requires
            self.inv(),
            v < self.nodes(),
        ensures
            r == self.root(v),
            r < self.nodes(),
    {
        let mut a: u32 = self.roots[v as usize];
        proof {
            lemma_root_is_root(self.roots@, self.ranks@, v as int);
        }
        while a != self.roots[a as usize]
            invariant
                forest_ok(self.roots@, self.ranks@),
                a < self.roots@.len(),
                v < self.roots@.len(),
                root_of(self.roots@, self.ranks@, a as int) == root_of(
                    self.roots@,
                    self.ranks@,
                    v as int,
                ),
            decreases 256 - self.ranks@[a as int],
        {
            a = self.roots[a as usize];
        }
        a
    }

    /// The number of vertices that are not the root of their tree.
    pub fn non_roots(&self) -> (r: u32)
        requires
            self.inv(),
        ensures
            r == crate::components::moved(self.state().roots),
    {
        let mut count: u32 = 0;
        let mut i: usize = 0;
        while i < self.roots.len()
            invariant
                i <= self.roots@.len(),
                self.roots@.len() <= u32::MAX,
                count == crate::components::moved(self.roots@.take(i as int)),
                count <= i,
            decreases self.roots@.len() - i,
        {
            assert(self.roots@.take(i + 1).drop_last() == self.roots@.take(i as int));
            if self.roots[i] != i as u32 {
                count += 1;
            }
            i += 1;
        }
        assert(self.roots@.take(i as int) == self.roots@);
        count
    }

    /// Two vertices have one root exactly where the edges seen connect
    /// them.
    pub proof fn lemma_roots_are_components(&self, u: u32, v: u32)
        requires
            self.inv(),
            u < self.nodes(),
            v < self.nodes(),
        ensures
            self.root(u) == self.root(v) <==> crate::components::connected(
                self.state().seen,
                u,
                v,
            ),
            crate::components::connected(self.state().seen, v, self.root(v)),
    {
        let roots = self.roots@;
        let ranks = self.ranks@;
        let seen = self.seen@;
        lemma_root_is_root(roots, ranks, u as int);
        lemma_root_is_root(roots, ranks, v as int);
        lemma_connected_to_root(seen, roots, ranks, u as int);
        lemma_connected_to_root(seen, roots, ranks, v as int);
        if self.root(u) == self.root(v) {
            crate::components::lemma_connected_sym(seen, v, self.root(v));
            crate::components::lemma_connected_trans(seen, u, self.root(u), v);
        }
        if crate::components::connected(seen, u, v) {
            let f = |w: u32| root_of(roots, ranks, w as int);
            assert forall|i: int| 0 <= i < seen.len() implies f((#[trigger] seen[i]).0) == f(
                seen[i].1,
            ) by {}
            crate::components::lemma_constant_on_component(seen, f, u, v);
        }
    }
}

impl EdgeVisitor for UnionFind {
    type State = Forest;

    closed spec fn state(&self) -> Forest {
        Forest { roots: self.roots@, ranks: self.ranks@, seen: self.seen@ }
    }

    closed spec fn inv(&self) -> bool {
        &&& forest_ok(self.roots@, self.ranks@)
        &&& self.roots@.len() <= u32::MAX
        &&& self.sizes_ok()
        &&& self.follows_edges()
    }

    open spec fn accepts(s: Forest, x: u32, y: u32) -> bool {
        x < s.roots.len() && y < s.roots.len()
    }

    open spec fn step(s: Forest, x: u32, y: u32) -> Forest {
        unite(s, x, y)
    }

    fn visit(&mut self, x: u32, y: u32) {
        let a: u32 = self.find(x);
        let b: u32 = self.find(y);
        let ghost roots = self.roots@;
        let ghost ranks = self.ranks@;
        let ghost seen = self.seen@;
        let ghost sizes = self.sizes@;
        let ghost seen2 = seen.push((x, y));
        proof {
            lemma_root_is_root(roots, ranks, x as int);
            lemma_root_is_root(roots, ranks, y as int);
            lemma_connected_to_root(seen, roots, ranks, x as int);
            lemma_connected_to_root(seen, roots, ranks, y as int);
            crate::components::lemma_connected_mono(seen, seen2, x, a);
            crate::components::lemma_connected_mono(seen, seen2, y, b);
            crate::components::lemma_connected_edge(seen2, seen.len() as int);
            assert forall|w: int| 0 <= w < roots.len() implies crate::components::connected(
                seen2,
                w as u32,
                #[trigger] roots[w],
            ) by {
                crate::components::lemma_connected_mono(seen, seen2, w as u32, roots[w]);
            }
        }
        self.seen = Ghost(seen2);
        if a != b {
            let ra: u8 = self.ranks[a as usize];
            let rb: u8 = self.ranks[b as usize];
            proof {
                lemma_two_trees(roots, sizes, roots.len(), a as int, b as int);
            }
            if ra < rb {
                self.roots.set(a as usize, b);
                self.sizes = Ghost(sizes.update(b as int, sizes[b as int] + sizes[a as int]));
                proof {
                    crate::components::lemma_connected_sym(seen2, x, a);
                    crate::components::lemma_connected_trans(seen2, a, x, y);
                    crate::components::lemma_connected_trans(seen2, a, y, b);
                    self.lemma_linked(roots, ranks, seen, sizes, x, y, a as int, b as int);
                }
            } else if ra > rb {
                self.roots.set(b as usize, a);
                self.sizes = Ghost(sizes.update(a as int, sizes[a as int] + sizes[b as int]));
                proof {
                    crate::components::lemma_connected_sym(seen2, y, b);
                    crate::components::lemma_connected_trans(seen2, b, y, x);
                    crate::components::lemma_connected_trans(seen2, b, x, a);
                    self.lemma_linked(roots, ranks, seen, sizes, x, y, b as int, a as int);
                }
            } else {
                proof {
                    vstd::arithmetic::power2::lemma_pow2_unfold((ra + 1) as nat);
                    lemma_rank_small((ra + 1) as nat, roots.len());
                }
                self.roots.set(b as usize, a);
                self.ranks.set(a as usize, ra + 1);
                self.sizes = Ghost(sizes.update(a as int, sizes[a as int] + sizes[b as int]));
                proof {
                    crate::components::lemma_connected_sym(seen2, y, b);
                    crate::components::lemma_connected_trans(seen2, b, y, x);
                    crate::components::lemma_connected_trans(seen2, b, x, a);
                    self.lemma_linked(roots, ranks, seen, sizes, x, y, b as int, a as int);
                }
            }
        } else {
            proof {
                assert forall|i: int| 0 <= i < seen2.len() implies root_of(
                    roots,
                    ranks,
                    (#[trigger] seen2[i]).0 as int,
                ) == root_of(roots, ranks, seen2[i].1 as int) by {
                    if i < seen.len() {
                        assert(seen2[i] == seen[i]);
                    }
                }
                assert(crate::components::in_range(seen2, roots.len()));
            }
        }
    }
}

impl UnionFind {
    /// What holds once the root `c` has gone below the root `p` for the
    /// edge `(x, y)`, whose ends had these two roots.
    proof fn lemma_linked(
        &self,
        roots: Seq<u32>,
        ranks: Seq<u8>,
        seen: Seq<(u32, u32)>,
        sizes: Seq<nat>,
        x: u32,
        y: u32,
        c: int,
        p: int,
    )
        requires
            forest_ok(roots, ranks),
            roots.len() <= u32::MAX,
            sizes.len() == roots.len(),
            tree_total(roots, sizes, roots.len()) == roots.len(),
            forall|v: int|
                0 <= v < roots.len() && (#[trigger] roots[v]) == v
                    ==> vstd::arithmetic::power2::pow2(ranks[v] as nat) <= sizes[v],
            crate::components::in_range(seen, roots.len()),
            forall|i: int|
                0 <= i < seen.len() ==> root_of(roots, ranks, (#[trigger] seen[i]).0 as int)
                    == root_of(roots, ranks, seen[i].1 as int),
            x < roots.len(),
            y < roots.len(),
            0 <= c < roots.len(),
            0 <= p < roots.len(),
            c != p,
            roots[c] == c,
            roots[p] == p,
            (root_of(roots, ranks, x as int) == c && root_of(roots, ranks, y as int) == p) || (
            root_of(roots, ranks, x as int) == p && root_of(roots, ranks, y as int) == c),
            self.roots@ == roots.update(c, p as u32),
            self.ranks@ == ranks || (ranks[c] == ranks[p] && ranks[p] < 255 && self.ranks@
                == ranks.update(p, (ranks[p] + 1) as u8)),
            self.ranks@ == ranks ==> ranks[c] < ranks[p],
            self.seen@ == seen.push((x, y)),
            self.sizes@ == sizes.update(p, sizes[p] + sizes[c]),
            forall|w: int|
                0 <= w < roots.len() ==> crate::components::connected(
                    self.seen@,
                    w as u32,
                    #[trigger] roots[w],
                ),
            crate::components::connected(self.seen@, c as u32, p as u32),
        ensures
            self.inv(),
    {
        let roots2 = self.roots@;
        let ranks2 = self.ranks@;
        let seen2 = self.seen@;
        let sizes2 = self.sizes@;
        assert(forest_ok(roots2, ranks2)) by {
            assert forall|v: int| 0 <= v < roots2.len() implies (#[trigger] roots2[v])
                < roots2.len() && (roots2[v] != v ==> ranks2[v] < ranks2[roots2[v] as int]) by {
                assert(roots[v] < roots.len());
            }
        }
        assert(self.sizes_ok()) by {
            lemma_link_total(roots, sizes, c, p, roots.len());
            if self.ranks@ != ranks {
                vstd::arithmetic::power2::lemma_pow2_unfold((ranks[p] + 1) as nat);
            }
            assert forall|v: int|
                0 <= v < roots2.len() && (#[trigger] roots2[v]) == v
                    implies vstd::arithmetic::power2::pow2(ranks2[v] as nat) <= sizes2[v] by {
                assert(roots[v] == v);
            }
        }
        assert(self.follows_edges()) by {
            assert forall|v: int| 0 <= v < roots2.len() implies crate::components::connected(
                seen2,
                v as u32,
                #[trigger] roots2[v],
            ) by {
                if v != c {
                    assert(roots2[v] == roots[v]);
                }
            }
            assert forall|i: int| 0 <= i < seen2.len() implies root_of(
                roots2,
                ranks2,
                (#[trigger] seen2[i]).0 as int,
            ) == root_of(roots2, ranks2, seen2[i].1 as int) by {
                if i < seen.len() {
                    assert(seen2[i] == seen[i]);
                }
                lemma_link_roots(roots, ranks, ranks2, c, p, seen2[i].0 as int);
                lemma_link_roots(roots, ranks, ranks2, c, p, seen2[i].1 as int);
            }
            assert(crate::components::in_range(seen2, roots2.len()));
        }
    }
}

/// A forest keeps its number of vertices, and takes up the edges it sees
/// in order.
pub proof fn lemma_fold_shape(s: Forest, edges: Seq<(u32, u32)>)
    ensures
        crate::graph_iterator::fold_edges::<UnionFind>(s, edges).roots.len() == s.roots.len(),
        crate::graph_iterator::fold_edges::<UnionFind>(s, edges).seen == s.seen + edges,
    decreases edges.len(),
{
    if edges.len() > 0 {
        lemma_fold_shape(s, edges.drop_last());
        let before = crate::graph_iterator::fold_edges::<UnionFind>(s, edges.drop_last());
        let x = edges.last().0;
        let y = edges.last().1;
        if x < before.roots.len() && y < before.roots.len() && forest_ok(
            before.roots,
            before.ranks,
        ) {
            lemma_root_is_root(before.roots, before.ranks, x as int);
            lemma_root_is_root(before.roots, before.ranks, y as int);
        }
        assert((s.seen + edges.drop_last()).push(edges.last()) == s.seen + edges);
    } else {
        assert(s.seen + edges == s.seen);
    }
}

/// Puts the vertices of a graph in trees, one for each component: each
/// edge in turn joins the trees of its two ends, the root of lower rank
/// going below the other.
pub fn union_find<G: EdgeMapper>(graph: &G, nodes: u32) -> (r: UnionFind)
    requires
        graph.wf(),
        crate::components::in_range(graph.edges(), nodes as nat),
    ensures
        r.inv(),
        r.nodes() == nodes,
        r.state() == crate::graph_iterator::fold_edges::<UnionFind>(
            fresh_forest(nodes as nat),
            graph.edges(),
        ),
        r.state().seen == graph.edges(),
        forall|u: u32, v: u32|
            u < nodes && v < nodes ==> (r.root(u) == r.root(v)
                <==> #[trigger] crate::components::connected(graph.edges(), u, v)),
        forall|v: u32|
            v < nodes ==> crate::components::connected(graph.edges(), v, #[trigger] r.root(v)),
{
    let ghost all = graph.edges();
    let mut forest = UnionFind::new(nodes);
    let ghost s0 = forest.state();
    proof {
        assert forall|i: int| 0 <= i < all.len() implies UnionFind::accepts(
            #[trigger] crate::graph_iterator::fold_edges::<UnionFind>(s0, all.take(i)),
            all[i].0,
            all[i].1,
        ) by {
            lemma_fold_shape(s0, all.take(i));
        }
    }
    graph.map_edges(&mut forest);
    proof {
        lemma_fold_shape(s0, all);
        assert(s0.seen + all == all);
        assert forall|u: u32, v: u32| u < nodes && v < nodes implies (forest.root(u)
            == forest.root(v) <==> #[trigger] crate::components::connected(all, u, v)) by {
            forest.lemma_roots_are_components(u, v);
        }
        assert forall|v: u32| v < nodes implies crate::components::connected(
            all,
            v,
            #[trigger] forest.root(v),
        ) by {
            forest.lemma_roots_are_components(v, v);
        }
    }
    forest
}

} // verus!
