use crate::graph_iterator::EdgeMapper;
use crate::graph_iterator::EdgeVisitor;
use vstd::prelude::*;

verus! {

/// One edge seen: the smaller of the two labels at its ends replaces the
/// larger. An edge that names a vertex without a label changes nothing.
pub open spec fn relax(label: Seq<u32>, x: u32, y: u32) -> Seq<u32> {
    if x < label.len() && y < label.len() {
        if label[x as int] < label[y as int] {
            label.update(y as int, label[x as int])
        } else if label[x as int] > label[y as int] {
            label.update(x as int, label[y as int])
        } else {
            label
        }
    } else {
        label
    }
}

/// The labels after one pass over `edges`.
pub open spec fn pass(label: Seq<u32>, edges: Seq<(u32, u32)>) -> Seq<u32> {
    crate::graph_iterator::fold_edges::<Labels>(label, edges)
}

/// The labels after `k` passes over `edges`.
pub open spec fn after_passes(label: Seq<u32>, edges: Seq<(u32, u32)>, k: nat) -> Seq<u32>
    decreases k,
{
    if k == 0 {
        label
    } else {
        pass(after_passes(label, edges, (k - 1) as nat), edges)
    }
}

/// Each of the first passes but the last changes a label.
#[verifier::opaque]
pub open spec fn changing(label: Seq<u32>, edges: Seq<(u32, u32)>, n: nat) -> bool {
    forall|k: nat|
        1 <= k < n ==> #[trigger] after_passes(label, edges, k) != after_passes(
            label,
            edges,
            (k - 1) as nat,
        )
}

/// One more pass that changes a label.
proof fn lemma_changing_step(label: Seq<u32>, edges: Seq<(u32, u32)>, n: nat)
    requires
        changing(label, edges, n),
        n >= 1 ==> after_passes(label, edges, n) != after_passes(label, edges, (n - 1) as nat),
    ensures
        changing(label, edges, n + 1),
{
    reveal(changing);
}

/// The labels before the first pass: each vertex has its own number.
pub open spec fn own_labels(n: nat) -> Seq<u32> {
    Seq::new(n, |v: int| v as u32)
}

/// The two ends of every edge have the same label.
pub open spec fn settled(label: Seq<u32>, edges: Seq<(u32, u32)>) -> bool {
    forall|i: int|
        0 <= i < edges.len() ==> label[(#[trigger] edges[i]).0 as int] == label[edges[i].1 as int]
}

/// The sum of all labels: it falls whenever a pass changes a label.
pub open spec fn label_sum(label: Seq<u32>) -> nat
    decreases label.len(),
{
    if label.len() == 0 {
        0
    } else {
        label_sum(label.drop_last()) + label.last() as nat
    }
}

/// Each label names a vertex of the component of its own vertex, none
/// above that vertex.
pub open spec fn sound(label: Seq<u32>, edges: Seq<(u32, u32)>) -> bool {
    forall|v: int|
        0 <= v < label.len() ==> (#[trigger] label[v]) <= v && crate::components::connected(
            edges,
            v as u32,
            label[v],
        )
}

/// Each vertex has the smallest number of its component as its label.
pub open spec fn least_labels(label: Seq<u32>, edges: Seq<(u32, u32)>) -> bool {
    &&& sound(label, edges)
    &&& forall|u: u32, v: u32|
        u < label.len() && v < label.len() && #[trigger] crate::components::connected(edges, u, v)
            ==> label[v as int] <= u
}

/// The labels of a graph during label propagation.
pub struct Labels {
    label: Vec<u32>,
}

impl View for Labels {
    type V = Seq<u32>;

    closed spec fn view(&self) -> Seq<u32> {
        self.label@
    }
}

impl EdgeVisitor for Labels {
    type State = Seq<u32>;

    open spec fn state(&self) -> Seq<u32> {
        self@
    }

    open spec fn inv(&self) -> bool {
        true
    }

    open spec fn accepts(s: Seq<u32>, x: u32, y: u32) -> bool {
        x < s.len() && y < s.len()
    }

    open spec fn step(s: Seq<u32>, x: u32, y: u32) -> Seq<u32> {
        relax(s, x, y)
    }

    fn visit(&mut self, x: u32, y: u32) {
        let a: u32 = self.label[x as usize];
        let b: u32 = self.label[y as usize];
        if a < b {
            self.label.set(y as usize, a);
        } else if a > b {
            self.label.set(x as usize, b);
        }
    }
}

impl Labels {
    /// Gives each of `nodes` vertices its own number as label.
    pub fn new(nodes: u32) -> (r: Self)
        ensures
            r@ == own_labels(nodes as nat),
    {
        let mut label: Vec<u32> = Vec::new();
        let mut v: u32 = 0;
        while v < nodes
            invariant
                v <= nodes,
                label@ == own_labels(v as nat),
            decreases nodes - v,
        {
            label.push(v);
            v += 1;
            assert(label@ == own_labels(v as nat));
        }
        Labels { label }
    }

    /// The label of vertex `v`.
    pub fn get(&self, v: u32) -> (r: u32)
        requires
            v < self@.len(),
        ensures
            r == self@[v as int],
    {
        self.label[v as usize]
    }

    /// The number of vertices.
    pub fn len(&self) -> (r: usize)
        ensures
            r == self@.len(),
    {
        self.label.len()
    }

    /// The sum of all labels.
    pub fn sum(&self) -> (r: u64)
        requires
            self@.len() <= u32::MAX,
        ensures
            r == label_sum(self@),
    {
        let mut total: u64 = 0;
        let mut i: usize = 0;
        while i < self.label.len()
            invariant
                i <= self.label@.len(),
                self.label@.len() <= u32::MAX,
                total == label_sum(self.label@.take(i as int)),
                total <= i * 0xffff_ffff,
            decreases self.label@.len() - i,
        {
            assert(self.label@.take(i + 1).drop_last() == self.label@.take(i as int));
            total = total + self.label[i] as u64;
            i += 1;
        }
        assert(self.label@.take(i as int) == self.label@);
        total
    }

    /// The number of vertices whose label is not their own number.
    pub fn non_roots(&self) -> (r: u32)
        requires
            self@.len() <= u32::MAX,
        ensures
            r == crate::components::moved(self@),
    {
        let mut count: u32 = 0;
        let mut i: usize = 0;
        while i < self.label.len()
            invariant
                i <= self.label@.len(),
                self.label@.len() <= u32::MAX,
                count == crate::components::moved(self.label@.take(i as int)),
                count <= i,
            decreases self.label@.len() - i,
        {
            assert(self.label@.take(i + 1).drop_last() == self.label@.take(i as int));
            if self.label[i] != i as u32 {
                count += 1;
            }
            i += 1;
        }
        assert(self.label@.take(i as int) == self.label@);
        count
    }
}

/// A pass keeps the number of labels and raises none of them.
pub proof fn lemma_pass_shape(label: Seq<u32>, edges: Seq<(u32, u32)>)
    ensures
        pass(label, edges).len() == label.len(),
        forall|v: int| 0 <= v < label.len() ==> pass(label, edges)[v] <= label[v],
    decreases edges.len(),
{
    if edges.len() > 0 {
        lemma_pass_shape(label, edges.drop_last());
    }
}

/// A pass over edges of the graph keeps each label within the component of
/// its vertex, and at or below the vertex.
pub proof fn lemma_pass_sound(label: Seq<u32>, edges: Seq<(u32, u32)>, graph: Seq<(u32, u32)>)
    requires
        sound(label, graph),
        edges.len() <= graph.len(),
        forall|i: int| 0 <= i < edges.len() ==> edges[i] == graph[i],
    ensures
        sound(pass(label, edges), graph),
    decreases edges.len(),
{
    if edges.len() > 0 {
        let before = pass(label, edges.drop_last());
        lemma_pass_shape(label, edges.drop_last());
        lemma_pass_sound(label, edges.drop_last(), graph);
        let x = edges.last().0;
        let y = edges.last().1;
        let after = relax(before, x, y);
        assert(after == pass(label, edges));
        if x < before.len() && y < before.len() {
            crate::components::lemma_connected_edge(graph, edges.len() - 1);
            if before[x as int] < before[y as int] {
                crate::components::lemma_connected_trans(graph, y, x, before[x as int]);
            } else if before[x as int] > before[y as int] {
                crate::components::lemma_connected_trans(graph, x, y, before[y as int]);
            }
        }
        assert forall|v: int| 0 <= v < after.len() implies (#[trigger] after[v]) <= v
            && crate::components::connected(graph, v as u32, after[v]) by {
            assert(before[v] <= v);
        }
    }
}

/// A pass that changes no label has found the two ends of each of its edges
/// with the same label.
pub proof fn lemma_pass_fixed(label: Seq<u32>, edges: Seq<(u32, u32)>)
    requires
        crate::components::in_range(edges, label.len()),
        pass(label, edges) == label,
    ensures
        settled(label, edges),
    decreases edges.len(),
{
    if edges.len() > 0 {
        let before = pass(label, edges.drop_last());
        lemma_pass_shape(label, edges.drop_last());
        let x = edges.last().0;
        let y = edges.last().1;
        assert(relax(before, x, y) == label);
        assert(before =~= label) by {
            assert forall|v: int| 0 <= v < label.len() implies before[v] == label[v] by {
                assert(relax(before, x, y)[v] <= before[v]);
            }
        }
        lemma_pass_fixed(label, edges.drop_last());
        assert(x < label.len() && y < label.len());
        assert(label[x as int] == label[y as int]) by {
            if label[x as int] < label[y as int] {
                assert(relax(label, x, y)[y as int] == label[x as int]);
            } else if label[x as int] > label[y as int] {
                assert(relax(label, x, y)[x as int] == label[y as int]);
            }
        }
        assert forall|i: int| 0 <= i < edges.len() implies label[(#[trigger] edges[i]).0 as int]
            == label[edges[i].1 as int] by {
            if i < edges.len() - 1 {
                assert(edges.drop_last()[i] == edges[i]);
            }
        }
    }
}

/// Labels of which none lies above its earlier value sum to no more than
/// before, and to the same only where none has changed.
pub proof fn lemma_sum_falls(after: Seq<u32>, before: Seq<u32>)
    requires
        after.len() == before.len(),
        forall|v: int| 0 <= v < before.len() ==> after[v] <= before[v],
    ensures
        label_sum(after) <= label_sum(before),
        label_sum(after) == label_sum(before) ==> after == before,
    decreases before.len(),
{
    if before.len() > 0 {
        lemma_sum_falls(after.drop_last(), before.drop_last());
        if label_sum(after) == label_sum(before) {
            assert(after.drop_last() == before.drop_last());
            assert(after =~= after.drop_last().push(after.last()));
            assert(before =~= before.drop_last().push(before.last()));
        }
    } else {
        assert(after =~= before);
    }
}

/// The sum of the labels falls in every pass that finds an edge whose ends
/// have different labels.
pub proof fn lemma_pass_makes_progress(label: Seq<u32>, edges: Seq<(u32, u32)>)
    requires
        crate::components::in_range(edges, label.len()),
        !settled(label, edges),
    ensures
        label_sum(pass(label, edges)) < label_sum(label),
{
    lemma_pass_shape(label, edges);
    lemma_sum_falls(pass(label, edges), label);
    if label_sum(pass(label, edges)) == label_sum(label) {
        lemma_pass_fixed(label, edges);
    }
}

/// The sum of `n` labels that are each their vertex's own number.
pub proof fn lemma_own_labels_sum(n: nat)
    requires
        n <= 0x1_0000_0000,
    ensures
        2 * label_sum(own_labels(n)) == n * n - n,
    decreases n,
{
    if n > 0 {
        lemma_own_labels_sum((n - 1) as nat);
        assert(own_labels(n).drop_last() == own_labels((n - 1) as nat));
        assert(own_labels(n).last() == n - 1);
        assert(n * n - n == (n - 1) * (n - 1) - (n - 1) + 2 * (n - 1)) by (nonlinear_arith);
    } else {
        assert(n * n - n == 0) by (nonlinear_arith)
            requires
                n == 0,
        ;
    }
}

/// What label propagation leaves: the labels, and the number of passes made.
pub struct Propagation {
    pub label: Labels,
    pub passes: u64,
}

/// Labels the vertices of a graph by component: each vertex starts with its
/// own number, and passes over the edges hand the smaller label of each edge
/// to its other end until a pass changes nothing.
pub fn label_propagation<G: EdgeMapper>(graph: &G, nodes: u32) -> (r: Propagation)
    requires
        graph.wf(),
        crate::components::in_range(graph.edges(), nodes as nat),
    ensures
        r.label@.len() == nodes,
        least_labels(r.label@, graph.edges()),
        settled(r.label@, graph.edges()),
        1 <= r.passes <= label_sum(own_labels(nodes as nat)) + 1,
        r.label@ == after_passes(own_labels(nodes as nat), graph.edges(), r.passes as nat),
        after_passes(own_labels(nodes as nat), graph.edges(), r.passes as nat) == after_passes(
            own_labels(nodes as nat),
            graph.edges(),
            (r.passes - 1) as nat,
        ),
        changing(own_labels(nodes as nat), graph.edges(), r.passes as nat),
{
    let ghost all = graph.edges();
    let mut label = Labels::new(nodes);
    proof {
        assert forall|v: int| 0 <= v < label@.len() implies (#[trigger] label@[v]) <= v
            && crate::components::connected(all, v as u32, label@[v]) by {
            crate::components::lemma_connected_refl(all, v as u32);
        }
        lemma_sum_bound(label@);
    }
    let first: u64 = label.sum();
    let mut old_sum: u64 = first + 1;
    let mut new_sum: u64 = first;
    let mut passes: u64 = 0;
    let ghost own = own_labels(nodes as nat);
    let ghost mut prev: Seq<u32> = own;
    proof {
        reveal(changing);
    }
    while new_sum < old_sum
        invariant
            graph.wf(),
            all == graph.edges(),
            crate::components::in_range(all, nodes as nat),
            label@.len() == nodes,
            sound(label@, all),
            new_sum == label_sum(label@),
            new_sum <= old_sum,
            new_sum == old_sum ==> settled(label@, all),
            old_sum <= first + 1,
            first < u64::MAX,
            passes + old_sum <= first + 1,
            passes == 0 ==> new_sum < old_sum,
            own == own_labels(nodes as nat),
            label@ == after_passes(own, all, passes as nat),
            passes > 0 ==> prev == after_passes(own, all, (passes - 1) as nat),
            passes > 0 ==> old_sum == label_sum(prev),
            passes > 0 ==> prev.len() == nodes,
            passes > 0 ==> forall|v: int| 0 <= v < nodes ==> label@[v] <= prev[v],
            changing(own, all, passes as nat),
        decreases old_sum,
    {
        let ghost before = label@;
        proof {
            if passes > 0 {
                assert(before != prev);
            }
            lemma_changing_step(own, all, passes as nat);
            prev = before;
            assert forall|i: int| 0 <= i < all.len() implies Labels::accepts(
                #[trigger] crate::graph_iterator::fold_edges::<Labels>(before, all.take(i)),
                all[i].0,
                all[i].1,
            ) by {
                lemma_pass_shape(before, all.take(i));
            }
        }
        graph.map_edges(&mut label);
        proof {
            assert(label@ == pass(before, all));
            lemma_pass_shape(before, all);
            lemma_pass_sound(before, all, all);
            lemma_sum_falls(label@, before);
            if label_sum(label@) == label_sum(before) {
                lemma_pass_fixed(before, all);
            }
        }
        old_sum = new_sum;
        new_sum = label.sum();
        passes = passes + 1;
    }
    proof {
        lemma_sum_falls(label@, prev);
        let f = |v: u32| label@[v as int] as int;
        assert forall|u: u32, v: u32|
            u < label@.len() && v < label@.len() && #[trigger] crate::components::connected(
                all,
                u,
                v,
            ) implies label@[v as int] <= u by {
            assert forall|i: int| 0 <= i < all.len() implies f((#[trigger] all[i]).0) == f(
                all[i].1,
            ) by {}
            crate::components::lemma_constant_on_component(all, f, u, v);
            assert(label@[u as int] <= u);
        }
    }
    Propagation { label, passes }
}

/// Fewer than 2^32 labels sum to less than 2^64.
pub proof fn lemma_sum_bound(label: Seq<u32>)
    ensures
        label_sum(label) <= label.len() * 0xffff_ffff,
    decreases label.len(),
{
    if label.len() > 0 {
        lemma_sum_bound(label.drop_last());
    }
}

} // verus!
