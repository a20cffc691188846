use crate::error::FormatError;
use crate::graph_iterator::EdgeMapper;
use crate::graph_iterator::EdgeVisitor;
use crate::typedrw::put_u32;
use vstd::prelude::*;

verus! {

/// The key by which edges are put in vertex order: the source in the upper
/// half, the target in the lower.
pub open spec fn key_of(e: (u32, u32)) -> u64 {
    (e.0 * 0x1_0000_0000 + e.1) as u64
}

/// The edge with the key `k`.
pub open spec fn edge_of(k: u64) -> (u32, u32) {
    ((k / 0x1_0000_0000) as u32, (k % 0x1_0000_0000) as u32)
}

/// The keys of `edges`, in the same order.
pub open spec fn keys_of(edges: Seq<(u32, u32)>) -> Seq<u64> {
    Seq::new(edges.len(), |i: int| key_of(edges[i]))
}

/// The edges with the keys `keys`, in the same order.
pub open spec fn edges_of(keys: Seq<u64>) -> Seq<(u32, u32)> {
    Seq::new(keys.len(), |i: int| edge_of(keys[i]))
}

/// The targets of the edges with the keys `keys`, in the same order.
pub open spec fn targets_of(keys: Seq<u64>) -> Seq<u32> {
    Seq::new(keys.len(), |i: int| edge_of(keys[i]).1)
}

/// Offset `v` is the number of keys with a source below `v`, and these keys
/// come first.
pub open spec fn counts_below(offsets: Seq<u32>, keys: Seq<u64>) -> bool {
    &&& forall|v: int| 0 <= v < offsets.len() ==> (#[trigger] offsets[v]) <= keys.len()
    &&& forall|v: int, i: int|
        0 <= v < offsets.len() && 0 <= i < keys.len() ==> ((i < #[trigger] offsets[v]) <==> (
        edge_of(#[trigger] keys[i]).0 < v))
}

/// Offsets that count the keys below each source never fall.
pub proof fn lemma_counts_rise(offsets: Seq<u32>, keys: Seq<u64>, u: int, v: int)
    requires
        counts_below(offsets, keys),
        0 <= u <= v < offsets.len(),
    ensures
        offsets[u] <= offsets[v],
{
    if offsets[v] < offsets[u] {
        let i = offsets[v] as int;
        assert(i < offsets[u]);
        assert(edge_of(keys[i]).0 < u);
        assert(!(i < offsets[v]));
    }
}

/// With offsets that count the keys below each source, the vertex-ordered
/// graph holds the edges of the keys, in the order of the keys.
pub proof fn lemma_csr_of_keys(offsets: Seq<u32>, keys: Seq<u64>, v: nat)
    requires
        counts_below(offsets, keys),
        v < offsets.len(),
        offsets.len() <= 0x1_0000_0001,
    ensures
        crate::graph_iterator::csr_edges(offsets, targets_of(keys), v) == edges_of(keys).take(
            offsets[v as int] as int,
        ),
    decreases v,
{
    let targets = targets_of(keys);
    let pts = edges_of(keys);
    if v == 0 {
        if keys.len() > 0 {
            assert(!(edge_of(keys[0]).0 < 0));
            assert(!(0 < offsets[0]));
        }
        assert(pts.take(0) =~= Seq::<(u32, u32)>::empty());
    } else {
        lemma_csr_of_keys(offsets, keys, (v - 1) as nat);
        lemma_counts_rise(offsets, keys, v - 1, v as int);
        let lo = offsets[v - 1] as int;
        let hi = offsets[v as int] as int;
        let mine = crate::graph_iterator::out_edges(offsets, targets, v - 1);
        assert(mine =~= pts.subrange(lo, hi)) by {
            assert forall|k: int| 0 <= k < hi - lo implies mine[k] == pts[lo + k] by {
                let i = lo + k;
                assert(!(i < offsets[v - 1]));
                assert(i < offsets[v as int]);
                assert(edge_of(keys[i]).0 == v - 1);
            }
        }
        assert(pts.take(lo) + pts.subrange(lo, hi) =~= pts.take(hi));
    }
}

/// What gathers the keys of the edges of a graph.
pub struct Keys {
    keys: Vec<u64>,
}

impl EdgeVisitor for Keys {
    type State = Seq<u64>;

    closed spec fn state(&self) -> Seq<u64> {
        self.keys@
    }

    open spec fn inv(&self) -> bool {
        true
    }

    open spec fn accepts(s: Seq<u64>, x: u32, y: u32) -> bool {
        true
    }

    open spec fn step(s: Seq<u64>, x: u32, y: u32) -> Seq<u64> {
        s.push(key_of((x, y)))
    }

    fn visit(&mut self, x: u32, y: u32) {
        self.keys.push(x as u64 * 0x1_0000_0000 + y as u64);
    }
}

/// The keys gathered from `edges` are the keys of `edges`.
pub proof fn lemma_keys_gathered(edges: Seq<(u32, u32)>)
    ensures
        crate::graph_iterator::fold_edges::<Keys>(Seq::empty(), edges) == keys_of(edges),
    decreases edges.len(),
{
    if edges.len() > 0 {
        lemma_keys_gathered(edges.drop_last());
        assert(keys_of(edges.drop_last()).push(key_of(edges.last())) == keys_of(edges));
    } else {
        assert(keys_of(edges) == Seq::<u64>::empty());
    }
}

/// Rearranged keys of some edges stand for a rearrangement of these edges.
pub proof fn lemma_edges_of_sorted(edges: Seq<(u32, u32)>, sorted: Seq<u64>)
    requires
        sorted.to_multiset() == keys_of(edges).to_multiset(),
    ensures
        edges_of(sorted).to_multiset() == edges.to_multiset(),
{
    let f = |e: (u32, u32)| key_of(e);
    let g = |k: u64| edge_of(k);
    assert forall|e: (u32, u32)| g(#[trigger] f(e)) == e by {}
    assert forall|k: u64| f(#[trigger] g(k)) == k by {}
    assert(edges.map_values(f) =~= keys_of(edges));
    assert(sorted.map_values(g) =~= edges_of(sorted));
    crate::rearrange::lemma_rearranged(edges, sorted, f, g);
}

/// The largest key of some edges has their largest source.
proof fn lemma_largest_source(graph: Seq<(u32, u32)>, keys: Seq<u64>)
    requires
        keys.to_multiset() == keys_of(graph).to_multiset(),
        crate::rearrange::ascending(keys),
        keys.len() > 0,
    ensures
        graph.len() > 0,
        edge_of(keys.last()).0 == crate::stats::max_source(graph),
{
    broadcast use vstd::seq_lib::group_to_multiset_ensures;

    let all = keys_of(graph);
    assert(keys.len() == keys.to_multiset().len());
    assert(all.len() == all.to_multiset().len());
    assert(keys.contains(keys.last()));
    assert(all.to_multiset().count(keys.last()) > 0);
    assert(all.contains(keys.last()));
    let i = choose|i: int| 0 <= i < all.len() && all[i] == keys.last();
    crate::stats::lemma_maxima_bound(graph, i);
    let m = crate::stats::lemma_max_source_met(graph);
    assert(all[m] == key_of(graph[m]));
    assert(all.contains(all[m]));
    assert(keys.to_multiset().count(all[m]) > 0);
    assert(keys.contains(all[m]));
    let w = choose|w: int| 0 <= w < keys.len() && keys[w] == all[m];
    assert(keys[w] <= keys.last());
}

/// What the two files hold that are written for sorted keys and their
/// offsets: a vertex-ordered graph with the edges of the keys.
proof fn lemma_laid_out(
    graph: Seq<(u32, u32)>,
    keys: Seq<u64>,
    offsets: Seq<u32>,
    nodes: Seq<u8>,
    edges: Seq<u8>,
)
    requires
        keys.to_multiset() == keys_of(graph).to_multiset(),
        crate::rearrange::ascending(keys),
        keys.len() <= u32::MAX,
        1 <= offsets.len() <= 0x1_0000_0001,
        counts_below(offsets, keys),
        offsets.last() == keys.len(),
        nodes == crate::typedrw::word_bytes(offsets),
        edges == crate::typedrw::word_bytes(targets_of(keys)),
    ensures
        crate::typedrw::words(nodes) == offsets,
        nodes.len() % 4 == 0,
        edges.len() % 4 == 0,
        crate::graph_iterator::csr_valid(
            crate::typedrw::words(nodes),
            crate::typedrw::words(edges),
        ),
        crate::rearrange::ascending(
            keys_of(
                crate::graph_iterator::csr_edges(
                    crate::typedrw::words(nodes),
                    crate::typedrw::words(edges),
                    crate::graph_iterator::csr_vertices(crate::typedrw::words(nodes)),
                ),
            ),
        ),
        crate::graph_iterator::csr_edges(
            crate::typedrw::words(nodes),
            crate::typedrw::words(edges),
            crate::graph_iterator::csr_vertices(crate::typedrw::words(nodes)),
        ).to_multiset() == graph.to_multiset(),
{
    let targets = targets_of(keys);
    let pts = edges_of(keys);
    let last = (offsets.len() - 1) as nat;
    crate::typedrw::lemma_words_round_trip(offsets);
    crate::typedrw::lemma_words_round_trip(targets);
    assert(crate::graph_iterator::csr_valid(offsets, targets)) by {
        assert forall|a: int, b: int| 0 <= a <= b < offsets.len() implies offsets[a]
            <= offsets[b] by {
            lemma_counts_rise(offsets, keys, a, b);
        }
        lemma_csr_of_keys(offsets, keys, 0);
        if keys.len() > 0 {
            assert(!(edge_of(keys[0]).0 < 0));
            assert(!(0 < offsets[0]));
        }
    }
    assert(crate::graph_iterator::csr_edges(offsets, targets, last) == pts) by {
        lemma_csr_of_keys(offsets, keys, last);
        assert(pts.take(keys.len() as int) == pts);
    }
    assert(keys_of(pts) =~= keys);
    lemma_edges_of_sorted(graph, keys);
}

/// Lays the edges of a graph out by source vertex, and gives the contents
/// of the nodes file and of the edges file: for each vertex up to the
/// largest source, and once more, the offset at which its targets begin;
/// and the targets, by source and then by target. A graph of 2^32 edges or
/// more is refused.
pub fn to_vertex<G: EdgeMapper>(graph: &G) -> (r: Result<(Vec<u8>, Vec<u8>), FormatError>)
    requires
        graph.wf(),
    ensures
        match r {
            Ok((nodes, edges)) => {
                let offsets = crate::typedrw::words(nodes@);
                let targets = crate::typedrw::words(edges@);
                let laid = crate::graph_iterator::csr_edges(
                    offsets,
                    targets,
                    crate::graph_iterator::csr_vertices(offsets),
                );
                &&& graph.edges().len() <= u32::MAX
                &&& nodes@.len() % 4 == 0
                &&& edges@.len() % 4 == 0
                &&& crate::graph_iterator::csr_valid(offsets, targets)
                &&& crate::graph_iterator::csr_vertices(offsets) == (if graph.edges().len() == 0 {
                    0
                } else {
                    crate::stats::max_source(graph.edges()) + 1
                })
                &&& crate::rearrange::ascending(keys_of(laid))
                &&& laid.to_multiset() == graph.edges().to_multiset()
            },
            Err(e) => e == FormatError::Counts && graph.edges().len() > u32::MAX,
        },
{
    let mut gather = Keys { keys: Vec::new() };
    proof {
        lemma_keys_gathered(graph.edges());
    }
    graph.map_edges(&mut gather);
    let mut keys: Vec<u64> = gather.keys;
    let ghost unsorted = keys@;
    crate::rearrange::sort(&mut keys);
    proof {
        broadcast use vstd::seq_lib::group_to_multiset_ensures;

        assert(keys@.len() == keys@.to_multiset().len());
        assert(unsorted.len() == unsorted.to_multiset().len());
    }
    let len: usize = keys.len();
    if len > 0xffff_ffff {
        return Err(FormatError::Counts);
    }
    let vertices: u64 = if len == 0 {
        0
    } else {
        keys[len - 1] / 0x1_0000_0000 + 1
    };
    let mut nodes: Vec<u8> = Vec::new();
    let ghost mut offsets: Seq<u32> = Seq::empty();
    let mut i: usize = 0;
    let mut v: u64 = 0;
    while v <= vertices
        invariant
            v <= vertices + 1,
            vertices <= 0x1_0000_0000,
            len == keys@.len(),
            len <= u32::MAX,
            crate::rearrange::ascending(keys@),
            len > 0 ==> vertices == keys@[len - 1] / 0x1_0000_0000 + 1,
            len == 0 ==> vertices == 0,
            i <= len,
            forall|k: int| 0 <= k < i ==> edge_of(#[trigger] keys@[k]).0 < v,
            v > 0 ==> forall|k: int| i <= k < len ==> edge_of(#[trigger] keys@[k]).0 >= v - 1,
            offsets.len() == v,
            nodes@ == crate::typedrw::word_bytes(offsets),
            counts_below(offsets, keys@),
            v > 0 ==> offsets[v - 1] == i,
        decreases vertices + 1 - v,
    {
        while i < len && keys[i] / 0x1_0000_0000 < v
            invariant
                i <= len,
                len == keys@.len(),
                forall|k: int| 0 <= k < i ==> edge_of(#[trigger] keys@[k]).0 < v,
            decreases len - i,
        {
            i = i + 1;
        }
        proof {
            assert forall|k: int| i <= k < len implies edge_of(#[trigger] keys@[k]).0 >= v by {
                assert(keys@[i as int] <= keys@[k]);
            }
            let more = offsets.push(i as u32);
            assert(more.drop_last() == offsets);
            assert forall|u: int, k: int| 0 <= u < more.len() && 0 <= k < keys@.len() implies ((k
                < #[trigger] more[u]) <==> (edge_of(#[trigger] keys@[k]).0 < u)) by {
                if u < offsets.len() {
                    assert(more[u] == offsets[u]);
                }
            }
            assert forall|u: int| 0 <= u < more.len() implies (#[trigger] more[u])
                <= keys@.len() by {
                if u < offsets.len() {
                    assert(more[u] == offsets[u]);
                }
            }
            offsets = more;
        }
        put_u32(&mut nodes, i as u32);
        v = v + 1;
    }
    proof {
        if len > 0 {
            assert(i == len) by {
                if i < len {
                    assert(edge_of(keys@[i as int]).0 >= vertices);
                    assert(keys@[i as int] <= keys@[len - 1]);
                }
            }
        }
    }
    let mut edges: Vec<u8> = Vec::new();
    let mut j: usize = 0;
    while j < len
        invariant
            j <= len,
            len == keys@.len(),
            edges@ == crate::typedrw::word_bytes(targets_of(keys@).take(j as int)),
        decreases len - j,
    {
        let target: u32 = (keys[j] % 0x1_0000_0000) as u32;
        proof {
            let t = targets_of(keys@);
            assert(t.take(j + 1).drop_last() == t.take(j as int));
            assert(t.take(j + 1).last() == target);
        }
        put_u32(&mut edges, target);
        j = j + 1;
    }
    proof {
        let targets = targets_of(keys@);
        assert(targets.take(len as int) == targets);
        lemma_laid_out(graph.edges(), keys@, offsets, nodes@, edges@);
        if len > 0 {
            lemma_largest_source(graph.edges(), keys@);
        }
    }
    Ok((nodes, edges))
}

} // verus!
