use crate::error::FormatError;
use crate::graph_iterator::EdgeMapper;
use crate::graph_iterator::EdgeVisitor;
use crate::hilbert_curve::BytewiseHilbert;
use crate::two_tier::TwoTier;
use crate::two_tier::Upper;
use vstd::prelude::*;

verus! {

/// The Hilbert indices of `edges`, in the same order.
pub open spec fn indices_of(edges: Seq<(u32, u32)>) -> Seq<u64> {
    Seq::new(edges.len(), |i: int| crate::hilbert_curve::hilbert(edges[i].0, edges[i].1))
}

/// The edges of a rearrangement of the indices of some edges are a
/// rearrangement of these edges.
pub proof fn lemma_points_of_sorted(edges: Seq<(u32, u32)>, sorted: Seq<u64>)
    requires
        sorted.to_multiset() == indices_of(edges).to_multiset(),
    ensures
        crate::compressed::points(sorted).to_multiset() == edges.to_multiset(),
{
    let f = |e: (u32, u32)| crate::hilbert_curve::hilbert(e.0, e.1);
    let g = |z: u64| crate::hilbert_curve::hilbert_point(z);
    assert forall|e: (u32, u32)| g(#[trigger] f(e)) == e by {
        crate::hilbert_curve::lemma_detangle_entangle(e.0, e.1);
    }
    assert forall|z: u64| f(#[trigger] g(z)) == z by {
        crate::hilbert_curve::lemma_entangle_detangle(z);
    }
    assert(edges.map_values(f) =~= indices_of(edges));
    assert(sorted.map_values(g) =~= crate::compressed::points(sorted));
    crate::rearrange::lemma_rearranged(edges, sorted, f, g);
}

/// What gathers the Hilbert indices of the edges of a graph.
pub struct Entangler {
    hilbert: BytewiseHilbert,
    indices: Vec<u64>,
}

impl EdgeVisitor for Entangler {
    type State = Seq<u64>;

    closed spec fn state(&self) -> Seq<u64> {
        self.indices@
    }

    closed spec fn inv(&self) -> bool {
        self.hilbert.wf()
    }

    open spec fn accepts(s: Seq<u64>, x: u32, y: u32) -> bool {
        true
    }

    open spec fn step(s: Seq<u64>, x: u32, y: u32) -> Seq<u64> {
        s.push(crate::hilbert_curve::hilbert(x, y))
    }

    fn visit(&mut self, x: u32, y: u32) {
        let z: u64 = self.hilbert.entangle((x, y));
        self.indices.push(z);
    }
}

/// The indices gathered from `edges` are the indices of `edges`.
pub proof fn lemma_gathered(edges: Seq<(u32, u32)>)
    ensures
        crate::graph_iterator::fold_edges::<Entangler>(Seq::empty(), edges) == indices_of(edges),
    decreases edges.len(),
{
    if edges.len() > 0 {
        lemma_gathered(edges.drop_last());
        assert(indices_of(edges.drop_last()).push(
            crate::hilbert_curve::hilbert(edges.last().0, edges.last().1),
        ) == indices_of(edges));
    } else {
        assert(indices_of(edges) == Seq::<u64>::empty());
    }
}

/// The Hilbert indices of the edges of a graph, in the order of the edges.
pub fn entangle_edges<G: EdgeMapper>(graph: &G) -> (zs: Vec<u64>)
    requires
        graph.wf(),
    ensures
        zs@ == indices_of(graph.edges()),
{
    let mut gather = Entangler { hilbert: BytewiseHilbert::new(), indices: Vec::new() };
    proof {
        lemma_gathered(graph.edges());
    }
    graph.map_edges(&mut gather);
    gather.indices
}

/// The Hilbert indices of the edges of a graph, the smallest first; an edge
/// that the graph holds several times gives its index as many times.
pub fn to_hilbert<G: EdgeMapper>(graph: &G) -> (zs: Vec<u64>)
    requires
        graph.wf(),
    ensures
        crate::rearrange::ascending(zs@),
        zs@.to_multiset() == indices_of(graph.edges()).to_multiset(),
        zs@.len() == graph.edges().len(),
{
    let mut zs: Vec<u64> = entangle_edges(graph);
    let ghost before = zs@;
    crate::rearrange::sort(&mut zs);
    proof {
        broadcast use vstd::seq_lib::group_to_multiset_ensures;

        assert(zs@.len() == zs@.to_multiset().len());
        assert(before.len() == before.to_multiset().len());
    }
    zs
}

/// The Hilbert indices of the edges of a graph, the smallest first, as
/// `to_hilbert` gives them, found in two steps: the indices go into parts
/// by their highest byte, and each part is sorted by itself.
pub fn to_hilbert_by_parts<G: EdgeMapper>(graph: &G) -> (zs: Vec<u64>)
    requires
        graph.wf(),
    ensures
        crate::rearrange::ascending(zs@),
        zs@.to_multiset() == indices_of(graph.edges()).to_multiset(),
        zs@.len() == graph.edges().len(),
{
    let all: Vec<u64> = entangle_edges(graph);
    let zs: Vec<u64> = crate::rearrange::sort_by_parts(&all);
    proof {
        broadcast use vstd::seq_lib::group_to_multiset_ensures;

        assert(zs@.len() == zs@.to_multiset().len());
        assert(all@.len() == all@.to_multiset().len());
    }
    zs
}

/// The tiles lie along the Hilbert curve, none twice and none empty, and
/// the edges lie along the curve too.
pub open spec fn hilbert_layout(uppers: Seq<Upper>, lowers: Seq<(u16, u16)>) -> bool {
    &&& crate::two_tier::two_tier_valid(uppers, lowers)
    &&& forall|t: int| 0 <= t < uppers.len() ==> (#[trigger] uppers[t]).count > 0
    &&& forall|a: int, b: int|
        0 <= a < b < uppers.len() ==> crate::hilbert_curve::tile_index(
            (#[trigger] uppers[a]).ux,
            uppers[a].uy,
        ) < crate::hilbert_curve::tile_index((#[trigger] uppers[b]).ux, uppers[b].uy)
    &&& crate::rearrange::ascending(indices_of(crate::two_tier::two_tier_edges(uppers, lowers)))
}

/// One more edge in the last tile.
proof fn lemma_extend_last(uppers: Seq<Upper>, lowers: Seq<(u16, u16)>, l: (u16, u16))
    requires
        uppers.len() > 0,
        crate::two_tier::two_tier_valid(uppers, lowers),
        uppers.last().count < u32::MAX,
    ensures
        ({
            let last = uppers.last();
            let more = uppers.update(
                uppers.len() - 1,
                Upper { ux: last.ux, uy: last.uy, count: (last.count + 1) as u32 },
            );
            &&& crate::two_tier::two_tier_valid(more, lowers.push(l))
            &&& crate::two_tier::two_tier_edges(more, lowers.push(l))
                == crate::two_tier::two_tier_edges(uppers, lowers).push(
                (crate::two_tier::join(last.ux, l.0), crate::two_tier::join(last.uy, l.1)),
            )
        }),
{
    let n = uppers.len();
    let last = uppers.last();
    let more = uppers.update(
        n - 1,
        Upper { ux: last.ux, uy: last.uy, count: (last.count + 1) as u32 },
    );
    let lowers2 = lowers.push(l);
    crate::two_tier::lemma_tile_start_grows(uppers, (n - 1) as nat, n);
    crate::two_tier::lemma_tile_frame(uppers, lowers, more, lowers2, (n - 1) as nat);
    let e = (crate::two_tier::join(last.ux, l.0), crate::two_tier::join(last.uy, l.1));
    assert(crate::two_tier::tile_out(more, lowers2, n - 1) =~= crate::two_tier::tile_out(
        uppers,
        lowers,
        n - 1,
    ).push(e));
    let a = crate::two_tier::tile_edges(uppers, lowers, (n - 1) as nat);
    let b = crate::two_tier::tile_out(uppers, lowers, n - 1);
    assert(a + b.push(e) == (a + b).push(e));
}

/// One more tile, with one edge.
proof fn lemma_new_tile(uppers: Seq<Upper>, lowers: Seq<(u16, u16)>, ux: u16, uy: u16, l: (u16, u16))
    requires
        crate::two_tier::two_tier_valid(uppers, lowers),
    ensures
        crate::two_tier::two_tier_valid(uppers.push(Upper { ux, uy, count: 1 }), lowers.push(l)),
        crate::two_tier::two_tier_edges(uppers.push(Upper { ux, uy, count: 1 }), lowers.push(l))
            == crate::two_tier::two_tier_edges(uppers, lowers).push(
            (crate::two_tier::join(ux, l.0), crate::two_tier::join(uy, l.1)),
        ),
{
    let n = uppers.len();
    let more = uppers.push(Upper { ux, uy, count: 1 });
    let lowers2 = lowers.push(l);
    crate::two_tier::lemma_tile_frame(uppers, lowers, more, lowers2, n);
    let e = (crate::two_tier::join(ux, l.0), crate::two_tier::join(uy, l.1));
    assert(crate::two_tier::tile_out(more, lowers2, n as int) =~= seq![e]);
    let a = crate::two_tier::tile_edges(uppers, lowers, n);
    assert(a + seq![e] == a.push(e));
}

/// Two tiles with one Hilbert index are one tile.
pub proof fn lemma_tile_injective(ux1: u16, uy1: u16, ux2: u16, uy2: u16)
    requires
        crate::hilbert_curve::tile_index(ux1, uy1) == crate::hilbert_curve::tile_index(ux2, uy2),
    ensures
        ux1 == ux2,
        uy1 == uy2,
{
    crate::hilbert_curve::lemma_sizes();
    crate::hilbert_curve::lemma_index_bound(16, ux1 as nat, uy1 as nat);
    crate::hilbert_curve::lemma_index_bound(16, ux2 as nat, uy2 as nat);
    crate::hilbert_curve::lemma_point_of_index(16, ux1 as nat, uy1 as nat);
    crate::hilbert_curve::lemma_point_of_index(16, ux2 as nat, uy2 as nat);
}

/// Lays the edges of a graph out along the Hilbert curve, in tiles of 2^16
/// by 2^16 cells: the tiles in the order of the curve, and the edges of
/// each tile in the order of the curve. A graph of 2^32 edges or more is
/// refused. The dense mode sorts the indices in parts, by their highest
/// byte; it gives the same layout.
pub fn convert_to_hilbert<G: EdgeMapper>(graph: &G, dense: bool) -> (r: Result<
    TwoTier,
    FormatError,
>)
    requires
        graph.wf(),
    ensures
        match r {
            Ok(t) => {
                &&& graph.edges().len() <= u32::MAX
                &&& hilbert_layout(t.uppers@, t.lowers@)
                &&& t.edges().to_multiset() == graph.edges().to_multiset()
            },
            Err(e) => e == FormatError::Counts && graph.edges().len() > u32::MAX,
        },
{
    let zs: Vec<u64> = if dense {
        to_hilbert_by_parts(graph)
    } else {
        to_hilbert(graph)
    };
    if zs.len() > 0xffff_ffff {
        return Err(FormatError::Counts);
    }
    let hilbert = BytewiseHilbert::new();
    let ghost pts = crate::compressed::points(zs@);
    let mut uppers: Vec<Upper> = Vec::new();
    let mut lowers: Vec<(u16, u16)> = Vec::new();
    let mut i: usize = 0;
    proof {
        assert(pts.take(0) == Seq::<(u32, u32)>::empty());
        assert(indices_of(Seq::<(u32, u32)>::empty()) == Seq::<u64>::empty());
    }
    while i < zs.len()
        invariant
            i <= zs@.len(),
            zs@.len() <= u32::MAX,
            hilbert.wf(),
            crate::rearrange::ascending(zs@),
            pts == crate::compressed::points(zs@),
            crate::two_tier::two_tier_valid(uppers@, lowers@),
            crate::two_tier::two_tier_edges(uppers@, lowers@) == pts.take(i as int),
            lowers@.len() == i,
            (uppers@.len() == 0) == (i == 0),
            i > 0 ==> uppers@.last().ux == pts[i - 1].0 / 0x1_0000 && uppers@.last().uy == pts[i
                - 1].1 / 0x1_0000,
            forall|t: int| 0 <= t < uppers@.len() ==> 0 < (#[trigger] uppers@[t]).count <= i,
            forall|a: int, b: int|
                0 <= a < b < uppers@.len() ==> crate::hilbert_curve::tile_index(
                    (#[trigger] uppers@[a]).ux,
                    uppers@[a].uy,
                ) < crate::hilbert_curve::tile_index((#[trigger] uppers@[b]).ux, uppers@[b].uy),
        decreases zs@.len() - i,
    {
        let z: u64 = zs[i];
        let p: (u32, u32) = hilbert.detangle(z);
        let ux: u16 = (p.0 / 0x1_0000) as u16;
        let uy: u16 = (p.1 / 0x1_0000) as u16;
        let l: (u16, u16) = ((p.0 % 0x1_0000) as u16, (p.1 % 0x1_0000) as u16);
        let n: usize = uppers.len();
        proof {
            assert(pts[i as int] == p);
            assert(crate::two_tier::join(ux, l.0) == p.0);
            assert(crate::two_tier::join(uy, l.1) == p.1);
            assert(pts.take(i as int).push(p) == pts.take(i + 1));
            crate::hilbert_curve::lemma_entangle_detangle(z);
            crate::orientation::lemma_tile_of_index(p.0, p.1);
        }
        if n > 0 && uppers[n - 1].ux == ux && uppers[n - 1].uy == uy {
            let last: Upper = uppers[n - 1];
            proof {
                lemma_extend_last(uppers@, lowers@, l);
            }
            uppers.set(n - 1, Upper { ux, uy, count: last.count + 1 });
            lowers.push(l);
        } else {
            proof {
                lemma_new_tile(uppers@, lowers@, ux, uy, l);
                if n > 0 {
                    let q = pts[i - 1];
                    let w = zs@[i - 1];
                    crate::hilbert_curve::lemma_entangle_detangle(w);
                    crate::orientation::lemma_tile_of_index(q.0, q.1);
                    assert(w <= z);
                    let before = uppers@[n - 1];
                    assert(crate::hilbert_curve::tile_index(before.ux, before.uy) == w
                        / 0x1_0000_0000);
                    assert(crate::hilbert_curve::tile_index(ux, uy) == z / 0x1_0000_0000);
                    if crate::hilbert_curve::tile_index(before.ux, before.uy)
                        == crate::hilbert_curve::tile_index(ux, uy) {
                        lemma_tile_injective(before.ux, before.uy, ux, uy);
                    }
                }
            }
            uppers.push(Upper { ux, uy, count: 1 });
            lowers.push(l);
        }
        i = i + 1;
    }
    proof {
        assert(pts.take(i as int) == pts);
        lemma_points_of_sorted(graph.edges(), zs@);
        assert(indices_of(pts) =~= zs@) by {
            assert forall|k: int| 0 <= k < zs@.len() implies indices_of(pts)[k] == zs@[k] by {
                crate::hilbert_curve::lemma_entangle_detangle(zs@[k]);
            }
        }
    }
    Ok(TwoTier { uppers, lowers })
}

/// Lays the edges of a graph out along the Hilbert curve, and gives the
/// contents of the upper file and of the lower file of the layout.
pub fn convert_to_hilbert_files<G: EdgeMapper>(graph: &G, dense: bool) -> (r: Result<
    (Vec<u8>, Vec<u8>),
    FormatError,
>)
    requires
        graph.wf(),
    ensures
        match r {
            Ok((upper, lower)) => {
                &&& graph.edges().len() <= u32::MAX
                &&& upper@.len() % 8 == 0
                &&& lower@.len() % 4 == 0
                &&& hilbert_layout(
                    crate::two_tier::parse_uppers(upper@),
                    crate::two_tier::parse_lowers(lower@),
                )
                &&& crate::two_tier::two_tier_edges(
                    crate::two_tier::parse_uppers(upper@),
                    crate::two_tier::parse_lowers(lower@),
                ).to_multiset() == graph.edges().to_multiset()
            },
            Err(e) => e == FormatError::Counts && graph.edges().len() > u32::MAX,
        },
{
    match convert_to_hilbert(graph, dense) {
        Ok(layout) => {
            let upper = layout.upper_file();
            let lower = layout.lower_file();
            proof {
                crate::two_tier::lemma_upper_round_trip(layout.uppers@);
                crate::two_tier::lemma_lower_round_trip(layout.lowers@);
            }
            Ok((upper, lower))
        },
        Err(e) => Err(e),
    }
}

/// A layout that holds the edges of a graph, written to an upper and a
/// lower file and read back, still holds the edges of the graph, each as
/// often as the graph does.
pub proof fn lemma_hilbert_round_trip(
    edges: Seq<(u32, u32)>,
    uppers: Seq<Upper>,
    lowers: Seq<(u16, u16)>,
)
    requires
        crate::two_tier::two_tier_valid(uppers, lowers),
        crate::two_tier::two_tier_edges(uppers, lowers).to_multiset() == edges.to_multiset(),
    ensures
        crate::two_tier::upper_bytes(uppers).len() % 8 == 0,
        crate::two_tier::lower_bytes(lowers).len() % 4 == 0,
        crate::two_tier::two_tier_valid(
            crate::two_tier::parse_uppers(crate::two_tier::upper_bytes(uppers)),
            crate::two_tier::parse_lowers(crate::two_tier::lower_bytes(lowers)),
        ),
        crate::two_tier::two_tier_edges(
            crate::two_tier::parse_uppers(crate::two_tier::upper_bytes(uppers)),
            crate::two_tier::parse_lowers(crate::two_tier::lower_bytes(lowers)),
        ).to_multiset() == edges.to_multiset(),
{
    crate::two_tier::lemma_upper_round_trip(uppers);
    crate::two_tier::lemma_lower_round_trip(lowers);
}

/// The indices of `zs`, each once, the smallest first.
pub fn distinct(zs: &Vec<u64>) -> (out: Vec<u64>)
    requires
        crate::rearrange::ascending(zs@),
    ensures
        crate::merge::strictly_rising(out@),
        forall|z: u64| out@.contains(z) <==> zs@.contains(z),
{
    let mut out: Vec<u64> = Vec::new();
    let mut i: usize = 0;
    while i < zs.len()
        invariant
            i <= zs@.len(),
            crate::rearrange::ascending(zs@),
            crate::merge::strictly_rising(out@),
            out@.len() <= i,
            (out@.len() == 0) == (i == 0),
            i > 0 ==> out@.last() == zs@[i - 1],
            forall|k: int| 0 <= k < out@.len() ==> zs@.contains(#[trigger] out@[k]),
            forall|k: int| 0 <= k < i ==> out@.contains(#[trigger] zs@[k]),
        decreases zs@.len() - i,
    {
        let z: u64 = zs[i];
        let ghost before = out@;
        if out.len() == 0 || out[out.len() - 1] < z {
            out.push(z);
        }
        proof {
            assert(out@.last() == z);
            assert forall|k: int| 0 <= k < i + 1 implies out@.contains(#[trigger] zs@[k]) by {
                if k < i {
                    let w = choose|w: int| 0 <= w < before.len() && before[w] == zs@[k];
                    assert(out@[w] == zs@[k]);
                } else {
                    assert(out@[out@.len() - 1] == zs@[k]);
                }
            }
        }
        i = i + 1;
    }
    proof {
        assert forall|z: u64| out@.contains(z) <==> zs@.contains(z) by {
            if out@.contains(z) {
                let w = choose|w: int| 0 <= w < out@.len() && out@[w] == z;
                assert(zs@.contains(out@[w]));
            }
            if zs@.contains(z) {
                let w = choose|w: int| 0 <= w < zs@.len() && zs@[w] == z;
                assert(out@.contains(zs@[w]));
            }
        }
    }
    out
}

/// Rising indices that are the indices of some edges, each once, are the
/// indices of exactly these edges: what a stream of their deltas decodes
/// to holds an edge where the edges hold it, and nowhere else.
pub proof fn lemma_compressed_round_trip(edges: Seq<(u32, u32)>, zs: Seq<u64>)
    requires
        crate::varint::rising(zs),
        forall|z: u64| zs.contains(z) <==> indices_of(edges).contains(z),
    ensures
        crate::varint::stream(crate::varint::deltas(zs, 0), 0, 0) == (
            zs,
            None::<crate::error::DecodeError>,
        ),
        forall|e: (u32, u32)| crate::compressed::points(zs).contains(e) <==> edges.contains(e),
{
    crate::varint::lemma_stream_of_deltas(Seq::empty(), zs, 0);
    assert(Seq::<u8>::empty() + crate::varint::deltas(zs, 0) == crate::varint::deltas(zs, 0));
    let pts = crate::compressed::points(zs);
    assert forall|e: (u32, u32)| pts.contains(e) <==> edges.contains(e) by {
        let z = crate::hilbert_curve::hilbert(e.0, e.1);
        if pts.contains(e) {
            let w = choose|w: int| 0 <= w < pts.len() && pts[w] == e;
            crate::hilbert_curve::lemma_entangle_detangle(zs[w]);
            assert(zs.contains(zs[w]));
            assert(indices_of(edges).contains(z));
            let v = choose|v: int| 0 <= v < indices_of(edges).len() && indices_of(edges)[v] == z;
            crate::hilbert_curve::lemma_hilbert_injective(edges[v].0, edges[v].1, e.0, e.1);
            assert(edges[v] == e);
        }
        if edges.contains(e) {
            let v = choose|v: int| 0 <= v < edges.len() && edges[v] == e;
            assert(indices_of(edges)[v] == z);
            assert(indices_of(edges).contains(z));
            assert(zs.contains(z));
            let w = choose|w: int| 0 <= w < zs.len() && zs[w] == z;
            crate::hilbert_curve::lemma_detangle_entangle(e.0, e.1);
            assert(pts[w] == e);
        }
    }
}

} // verus!
