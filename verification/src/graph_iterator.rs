use crate::error::FormatError;
use crate::typedrw::get_u32;
use vstd::prelude::*;

verus! {

/// What is done with each edge of a graph: a state that every edge advances.
pub trait EdgeVisitor: Sized {
    /// The mathematical value of the visitor.
    type State;

    /// The state that the visitor is in.
    spec fn state(&self) -> Self::State;

    /// What holds of the visitor between any two edges.
    spec fn inv(&self) -> bool;

    /// Whether the edge `(x, y)` may be handed to a visitor in state `s`.
    spec fn accepts(s: Self::State, x: u32, y: u32) -> bool;

    /// The state that follows `s` once the edge `(x, y)` has been seen.
    spec fn step(s: Self::State, x: u32, y: u32) -> Self::State;

    /// Takes the edge `(x, y)`.
    fn visit(&mut self, x: u32, y: u32)
        requires
            old(self).inv(),
            Self::accepts(old(self).state(), x, y),
        ensures
            final(self).inv(),
            final(self).state() == Self::step(old(self).state(), x, y),
    ;
}

/// The state in which a visitor that starts in `s` ends after it has seen
/// `edges` from first to last.
pub open spec fn fold_edges<A: EdgeVisitor>(s: A::State, edges: Seq<(u32, u32)>) -> A::State
    decreases edges.len(),
{
    if edges.len() == 0 {
        s
    } else {
        A::step(fold_edges::<A>(s, edges.drop_last()), edges.last().0, edges.last().1)
    }
}

/// Every edge of `edges` is accepted in the state in which it arrives.
pub open spec fn accepts_all<A: EdgeVisitor>(s: A::State, edges: Seq<(u32, u32)>) -> bool {
    forall|i: int|
        0 <= i < edges.len() ==> A::accepts(
            #[trigger] fold_edges::<A>(s, edges.take(i)),
            edges[i].0,
            edges[i].1,
        )
}

/// A graph representation: it hands each of its edges once, in its own
/// order, to a visitor.
pub trait EdgeMapper {
    /// The representation is consistent.
    spec fn wf(&self) -> bool;

    /// The edges in the order in which they are handed out.
    spec fn edges(&self) -> Seq<(u32, u32)>;

    /// A representation that sits in memory holds a countable number of edges.
    proof fn edge_count_fits(&self)
        requires
            self.wf(),
        ensures
            self.edges().len() <= usize::MAX,
    ;

    /// Hands each edge once, in order, to `action`.
    fn map_edges<A: EdgeVisitor>(&self, action: &mut A)
        requires
            self.wf(),
            old(action).inv(),
            accepts_all::<A>(old(action).state(), self.edges()),
        ensures
            final(action).inv(),
            final(action).state() == fold_edges::<A>(old(action).state(), self.edges()),
    ;
}

/// Seeing one more edge is one more step.
pub proof fn lemma_fold_push<A: EdgeVisitor>(s: A::State, edges: Seq<(u32, u32)>, e: (u32, u32))
    ensures
        fold_edges::<A>(s, edges.push(e)) == A::step(fold_edges::<A>(s, edges), e.0, e.1),
{
    assert(edges.push(e).drop_last() == edges);
}

/// Offsets and targets of a vertex-ordered graph that fit together: the
/// offsets start at zero, never fall, and end at the number of targets.
/// An empty offset array stands for the empty graph.
pub open spec fn csr_valid(offsets: Seq<u32>, targets: Seq<u32>) -> bool {
    if offsets.len() == 0 {
        targets.len() == 0
    } else {
        &&& offsets.len() <= 0x1_0000_0001
        &&& offsets[0] == 0
        &&& offsets.last() == targets.len()
        &&& forall|i: int, j: int| 0 <= i <= j < offsets.len() ==> offsets[i] <= offsets[j]
    }
}

/// The number of vertices that an offset array describes.
pub open spec fn csr_vertices(offsets: Seq<u32>) -> nat {
    if offsets.len() == 0 {
        0
    } else {
        (offsets.len() - 1) as nat
    }
}

/// The edges that leave vertex `v`, in file order.
pub open spec fn out_edges(offsets: Seq<u32>, targets: Seq<u32>, v: int) -> Seq<(u32, u32)> {
    Seq::new(
        (offsets[v + 1] - offsets[v]) as nat,
        |k: int| (v as u32, targets[offsets[v] + k]),
    )
}

/// The edges that leave the vertices below `n`, by vertex and then in file
/// order.
pub open spec fn csr_edges(offsets: Seq<u32>, targets: Seq<u32>, n: nat) -> Seq<(u32, u32)>
    decreases n,
{
    if n == 0 {
        Seq::empty()
    } else {
        csr_edges(offsets, targets, (n - 1) as nat) + out_edges(offsets, targets, n - 1)
    }
}

/// The edges of the vertices below `v` come first among those of the
/// vertices below `n`.
pub proof fn lemma_csr_prefix(offsets: Seq<u32>, targets: Seq<u32>, v: nat, n: nat)
    requires
        v <= n,
    ensures
        csr_edges(offsets, targets, v).len() <= csr_edges(offsets, targets, n).len(),
        csr_edges(offsets, targets, n).take(csr_edges(offsets, targets, v).len() as int)
            == csr_edges(offsets, targets, v),
    decreases n,
{
    if v < n {
        lemma_csr_prefix(offsets, targets, v, (n - 1) as nat);
        let a = csr_edges(offsets, targets, v);
        let b = csr_edges(offsets, targets, (n - 1) as nat);
        let c = out_edges(offsets, targets, n - 1);
        assert((b + c).take(a.len() as int) == b.take(a.len() as int));
    } else {
        let a = csr_edges(offsets, targets, v);
        assert(a.take(a.len() as int) == a);
    }
}

/// A graph stored by source vertex: an array of offsets, one per vertex and
/// one more, and an array of targets, both packed little-endian 32-bit
/// words. Vertex `v` has the targets from offset `v` up to offset `v + 1`.
pub struct NodesEdgesMemMapper<'a> {
    nodes: &'a [u8],
    edges: &'a [u8],
}

impl<'a> NodesEdgesMemMapper<'a> {
    /// The offset array.
    pub closed spec fn offsets(&self) -> Seq<u32> {
        crate::typedrw::words(self.nodes@)
    }

    /// The target array.
    pub closed spec fn targets(&self) -> Seq<u32> {
        crate::typedrw::words(self.edges@)
    }

    /// Takes the contents of a nodes file and of an edges file, and checks
    /// that they fit together.
    pub fn new(nodes: &'a [u8], edges: &'a [u8]) -> (r: Result<Self, FormatError>)
        ensures
            match r {
                Ok(m) => {
                    &&& nodes@.len() % 4 == 0
                    &&& edges@.len() % 4 == 0
                    &&& csr_valid(crate::typedrw::words(nodes@), crate::typedrw::words(edges@))
                    &&& m.wf()
                    &&& m.offsets() == crate::typedrw::words(nodes@)
                    &&& m.targets() == crate::typedrw::words(edges@)
                },
                Err(FormatError::Ragged) => nodes@.len() % 4 != 0 || edges@.len() % 4 != 0,
                Err(FormatError::Counts) => {
                    &&& nodes@.len() % 4 == 0
                    &&& edges@.len() % 4 == 0
                    &&& !csr_valid(crate::typedrw::words(nodes@), crate::typedrw::words(edges@))
                },
            },
    {
        if nodes.len() % 4 != 0 || edges.len() % 4 != 0 {
            return Err(FormatError::Ragged);
        }
        let ghost offsets = crate::typedrw::words(nodes@);
        let ghost targets = crate::typedrw::words(edges@);
        let n: usize = nodes.len() / 4;
        let m: usize = edges.len() / 4;
        if n == 0 {
            if m == 0 {
                return Ok(NodesEdgesMemMapper { nodes, edges });
            } else {
                return Err(FormatError::Counts);
            }
        }
        if n as u64 > 0x1_0000_0001u64 {
            return Err(FormatError::Counts);
        }
        let first: u32 = get_u32(nodes, 0);
        if first != 0 {
            return Err(FormatError::Counts);
        }
        let mut prev: u32 = first;
        let mut i: usize = 1;
        while i < n
            invariant
                1 <= i <= n,
                n == nodes@.len() / 4,
                nodes@.len() % 4 == 0,
                edges@.len() % 4 == 0,
                offsets == crate::typedrw::words(nodes@),
                targets == crate::typedrw::words(edges@),
                prev == offsets[i - 1],
                forall|a: int, b: int| 0 <= a <= b < i ==> offsets[a] <= offsets[b],
            decreases n - i,
        {
            let next: u32 = get_u32(nodes, i);
            if next < prev {
                assert(offsets[i - 1] > offsets[i as int]);
                assert(!csr_valid(offsets, targets));
                return Err(FormatError::Counts);
            }
            prev = next;
            i += 1;
        }
        if prev as usize != m {
            assert(offsets.last() != targets.len());
            return Err(FormatError::Counts);
        }
        assert(csr_valid(offsets, targets));
        Ok(NodesEdgesMemMapper { nodes, edges })
    }
}

impl<'a> EdgeMapper for NodesEdgesMemMapper<'a> {
    closed spec fn wf(&self) -> bool {
        &&& self.nodes@.len() % 4 == 0
        &&& self.edges@.len() % 4 == 0
        &&& csr_valid(self.offsets(), self.targets())
    }

    open spec fn edges(&self) -> Seq<(u32, u32)> {
        csr_edges(self.offsets(), self.targets(), csr_vertices(self.offsets()))
    }

    proof fn edge_count_fits(&self) {
        if self.offsets().len() > 0 {
            lemma_csr_len(self.offsets(), self.targets(), csr_vertices(self.offsets()));
        }
    }

    fn map_edges<A: EdgeVisitor>(&self, action: &mut A) {
        let ghost offsets = self.offsets();
        let ghost targets = self.targets();
        let ghost s0 = action.state();
        let ghost all = self.edges();
        let words: usize = self.nodes.len() / 4;
        let n: usize = if words == 0 {
            0
        } else {
            words - 1
        };
        let mut v: usize = 0;
        while v < n
            invariant
                v <= n,
                n == csr_vertices(offsets),
                self.wf(),
                offsets == self.offsets(),
                targets == self.targets(),
                all == csr_edges(offsets, targets, n as nat),
                action.inv(),
                action.state() == fold_edges::<A>(s0, csr_edges(offsets, targets, v as nat)),
                accepts_all::<A>(s0, all),
            decreases n - v,
        {
            let lo: usize = get_u32(self.nodes, v) as usize;
            let hi: usize = get_u32(self.nodes, v + 1) as usize;
            let ghost before = csr_edges(offsets, targets, v as nat);
            let ghost mine = out_edges(offsets, targets, v as int);
            proof {
                lemma_csr_prefix(offsets, targets, (v + 1) as nat, n as nat);
                assert(offsets[v as int] <= offsets[v + 1]);
                assert(offsets[v + 1] <= offsets.last());
                assert(mine.take(0) == Seq::<(u32, u32)>::empty());
                assert(before + mine.take(0) == before);
            }
            let mut j: usize = lo;
            while j < hi
                invariant
                    lo <= j <= hi,
                    v < n,
                    n == csr_vertices(offsets),
                    self.wf(),
                    offsets == self.offsets(),
                    targets == self.targets(),
                    lo == offsets[v as int],
                    hi == offsets[v + 1],
                    hi <= targets.len(),
                    before == csr_edges(offsets, targets, v as nat),
                    mine == out_edges(offsets, targets, v as int),
                    all.take((before + mine).len() as int) == before + mine,
                    (before + mine).len() <= all.len(),
                    action.inv(),
                    action.state() == fold_edges::<A>(s0, before + mine.take(j - lo)),
                    accepts_all::<A>(s0, all),
                decreases hi - j,
            {
                let t: u32 = get_u32(self.edges, j);
                let ghost seen = before + mine.take(j - lo);
                proof {
                    assert(all.take(seen.len() as int) == seen) by {
                        assert(all.take((before + mine).len() as int).take(seen.len() as int)
                            == all.take(seen.len() as int));
                        assert((before + mine).take(seen.len() as int) == seen);
                    }
                    assert(all[seen.len() as int] == (before + mine)[seen.len() as int]);
                    assert(mine[j - lo] == (v as u32, t));
                    assert(all[seen.len() as int] == (v as u32, t));
                }
                action.visit(v as u32, t);
                proof {
                    lemma_fold_push::<A>(s0, seen, (v as u32, t));
                    assert(seen.push((v as u32, t)) == before + mine.take(j + 1 - lo));
                }
                j += 1;
            }
            proof {
                assert(mine.take(hi - lo) == mine);
            }
            v += 1;
        }
    }
}

/// A vertex-ordered graph with valid offsets has as many edges as targets
/// up to the last offset.
pub proof fn lemma_csr_len(offsets: Seq<u32>, targets: Seq<u32>, n: nat)
    requires
        n < offsets.len(),
        forall|i: int, j: int| 0 <= i <= j < offsets.len() ==> offsets[i] <= offsets[j],
    ensures
        csr_edges(offsets, targets, n).len() == offsets[n as int] - offsets[0],
    decreases n,
{
    if n > 0 {
        lemma_csr_len(offsets, targets, (n - 1) as nat);
    }
}

/// What gathers the edges of a graph in the order in which they come.
pub struct Collector {
    pub edges: Vec<(u32, u32)>,
}

impl EdgeVisitor for Collector {
    type State = Seq<(u32, u32)>;

    open spec fn state(&self) -> Seq<(u32, u32)> {
        self.edges@
    }

    open spec fn inv(&self) -> bool {
        true
    }

    open spec fn accepts(s: Seq<(u32, u32)>, x: u32, y: u32) -> bool {
        true
    }

    open spec fn step(s: Seq<(u32, u32)>, x: u32, y: u32) -> Seq<(u32, u32)> {
        s.push((x, y))
    }

    fn visit(&mut self, x: u32, y: u32) {
        self.edges.push((x, y));
    }
}

/// What a collector that starts with `s` holds after `edges`.
pub proof fn lemma_collected(s: Seq<(u32, u32)>, edges: Seq<(u32, u32)>)
    ensures
        fold_edges::<Collector>(s, edges) == s + edges,
    decreases edges.len(),
{
    if edges.len() > 0 {
        lemma_collected(s, edges.drop_last());
        assert((s + edges.drop_last()).push(edges.last()) == s + edges);
    } else {
        assert(s + edges == s);
    }
}

/// The edges of a graph, in the order in which the graph hands them out.
pub fn collect_edges<G: EdgeMapper>(graph: &G) -> (edges: Vec<(u32, u32)>)
    requires
        graph.wf(),
    ensures
        edges@ == graph.edges(),
{
    let mut all = Collector { edges: Vec::new() };
    proof {
        lemma_collected(Seq::empty(), graph.edges());
        assert(Seq::<(u32, u32)>::empty() + graph.edges() == graph.edges());
    }
    graph.map_edges(&mut all);
    all.edges
}

} // verus!
