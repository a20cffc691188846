use crate::graph_iterator::EdgeMapper;
use crate::graph_iterator::EdgeVisitor;
use vstd::prelude::*;

verus! {

/// What one pass over a graph finds: the largest source, the largest
/// target, and the number of edges.
#[derive(Clone, Copy, Debug, PartialEq, Eq, Structural)]
pub struct Stats {
    pub max_x: u32,
    pub max_y: u32,
    pub edges: u64,
}

/// The largest source among `edges`, zero where there is none.
pub open spec fn max_source(edges: Seq<(u32, u32)>) -> u32
    decreases edges.len(),
{
    if edges.len() == 0 {
        0
    } else if max_source(edges.drop_last()) < edges.last().0 {
        edges.last().0
    } else {
        max_source(edges.drop_last())
    }
}

/// The largest target among `edges`, zero where there is none.
pub open spec fn max_target(edges: Seq<(u32, u32)>) -> u32
    decreases edges.len(),
{
    if edges.len() == 0 {
        0
    } else if max_target(edges.drop_last()) < edges.last().1 {
        edges.last().1
    } else {
        max_target(edges.drop_last())
    }
}

/// The smallest number above every vertex that `edges` names, where it fits
/// in 32 bits.
pub open spec fn vertex_bound(edges: Seq<(u32, u32)>) -> Option<u32> {
    let top = if max_source(edges) < max_target(edges) {
        max_target(edges)
    } else {
        max_source(edges)
    };
    if top == u32::MAX {
        None
    } else {
        Some((top + 1) as u32)
    }
}

/// No edge names a vertex above the maxima.
pub proof fn lemma_maxima_bound(edges: Seq<(u32, u32)>, i: int)
    requires
        0 <= i < edges.len(),
    ensures
        edges[i].0 <= max_source(edges),
        edges[i].1 <= max_target(edges),
    decreases edges.len(),
{
    if i < edges.len() - 1 {
        lemma_maxima_bound(edges.drop_last(), i);
    }
}

/// Some edge has the largest source as its source.
pub proof fn lemma_max_source_met(edges: Seq<(u32, u32)>) -> (i: int)
    requires
        edges.len() > 0,
    ensures
        0 <= i < edges.len(),
        edges[i].0 == max_source(edges),
    decreases edges.len(),
{
    let head = edges.drop_last();
    if max_source(head) < edges.last().0 {
        edges.len() - 1
    } else if head.len() == 0 {
        assert(max_source(head) == 0);
        edges.len() - 1
    } else {
        let i = lemma_max_source_met(head);
        assert(head[i] == edges[i]);
        i
    }
}

/// Every vertex that `edges` names lies below the vertex bound.
pub proof fn lemma_vertex_bound(edges: Seq<(u32, u32)>)
    requires
        vertex_bound(edges) is Some,
    ensures
        crate::components::in_range(edges, vertex_bound(edges).unwrap() as nat),
{
    assert forall|i: int| 0 <= i < edges.len() implies (#[trigger] edges[i]).0 < vertex_bound(
        edges,
    ).unwrap() && edges[i].1 < vertex_bound(edges).unwrap() by {
        lemma_maxima_bound(edges, i);
    }
}

impl Stats {
    /// The smallest number above every vertex seen, where it fits in 32
    /// bits.
    pub open spec fn bound(&self) -> Option<u32> {
        if self.max_x == u32::MAX || self.max_y == u32::MAX {
            None
        } else if self.max_x < self.max_y {
            Some((self.max_y + 1) as u32)
        } else {
            Some((self.max_x + 1) as u32)
        }
    }

    /// The smallest number above every vertex seen: the number of vertices
    /// of the graph, `None` where it does not fit in 32 bits.
    pub fn nodes(&self) -> (r: Option<u32>)
        ensures
            r == self.bound(),
    {
        let top: u32 = if self.max_x < self.max_y {
            self.max_y
        } else {
            self.max_x
        };
        if top == u32::MAX {
            None
        } else {
            Some(top + 1)
        }
    }
}

impl EdgeVisitor for Stats {
    type State = Stats;

    open spec fn state(&self) -> Stats {
        *self
    }

    open spec fn inv(&self) -> bool {
        true
    }

    open spec fn accepts(s: Stats, x: u32, y: u32) -> bool {
        s.edges < u64::MAX
    }

    open spec fn step(s: Stats, x: u32, y: u32) -> Stats {
        Stats {
            max_x: if s.max_x < x {
                x
            } else {
                s.max_x
            },
            max_y: if s.max_y < y {
                y
            } else {
                s.max_y
            },
            edges: (s.edges + 1) as u64,
        }
    }

    fn visit(&mut self, x: u32, y: u32) {
        if self.max_x < x {
            self.max_x = x;
        }
        if self.max_y < y {
            self.max_y = y;
        }
        self.edges = self.edges + 1;
    }
}

/// What a visitor that starts at zero has counted after `edges`.
pub proof fn lemma_stats_fold(edges: Seq<(u32, u32)>)
    requires
        edges.len() <= u64::MAX,
    ensures
        crate::graph_iterator::fold_edges::<Stats>(
            Stats { max_x: 0, max_y: 0, edges: 0 },
            edges,
        ) == (Stats {
            max_x: max_source(edges),
            max_y: max_target(edges),
            edges: edges.len() as u64,
        }),
    decreases edges.len(),
{
    if edges.len() > 0 {
        lemma_stats_fold(edges.drop_last());
    }
}

/// Walks the graph once and reports the largest source, the largest target
/// and the number of edges.
pub fn stats<G: EdgeMapper>(graph: &G) -> (r: Stats)
    requires
        graph.wf(),
    ensures
        r.max_x == max_source(graph.edges()),
        r.max_y == max_target(graph.edges()),
        r.edges == graph.edges().len(),
        r.bound() == vertex_bound(graph.edges()),
{
    let mut seen = Stats { max_x: 0, max_y: 0, edges: 0 };
    proof {
        graph.edge_count_fits();
        let all = graph.edges();
        assert forall|i: int| 0 <= i < all.len() implies Stats::accepts(
            #[trigger] crate::graph_iterator::fold_edges::<Stats>(seen, all.take(i)),
            all[i].0,
            all[i].1,
        ) by {
            lemma_stats_fold(all.take(i));
        }
        lemma_stats_fold(all);
    }
    graph.map_edges(&mut seen);
    seen
}

} // verus!
