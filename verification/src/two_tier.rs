use crate::error::FormatError;
use crate::graph_iterator::EdgeMapper;
use crate::graph_iterator::EdgeVisitor;
use crate::typedrw::get_u16;
use crate::typedrw::get_u32;
use crate::typedrw::put_u16;
use crate::typedrw::put_u32;
use vstd::prelude::*;

verus! {

/// The header of a tile: the upper 16 bits of the coordinates of its edges,
/// and the number of its edges.
#[derive(Clone, Copy, Debug, PartialEq, Eq, Structural)]
pub struct Upper {
    pub ux: u16,
    pub uy: u16,
    pub count: u32,
}

/// A 32-bit coordinate from its upper and lower 16 bits.
pub open spec fn join(hi: u16, lo: u16) -> u32 {
    (hi * 0x1_0000 + lo) as u32
}

/// The number of edges in the tiles before tile `n`.
pub open spec fn tile_start(uppers: Seq<Upper>, n: nat) -> nat
    decreases n,
{
    if n == 0 {
        0
    } else {
        tile_start(uppers, (n - 1) as nat) + uppers[n - 1].count as nat
    }
}

/// The edges of tile `t`, in file order.
pub open spec fn tile_out(uppers: Seq<Upper>, lowers: Seq<(u16, u16)>, t: int) -> Seq<(u32, u32)> {
    Seq::new(
        uppers[t].count as nat,
        |k: int|
            (
                join(uppers[t].ux, lowers[tile_start(uppers, t as nat) + k].0),
                join(uppers[t].uy, lowers[tile_start(uppers, t as nat) + k].1),
            ),
    )
}

/// The edges of the tiles before tile `n`, tile by tile and in file order.
pub open spec fn tile_edges(uppers: Seq<Upper>, lowers: Seq<(u16, u16)>, n: nat) -> Seq<
    (u32, u32),
>
    decreases n,
{
    if n == 0 {
        Seq::empty()
    } else {
        tile_edges(uppers, lowers, (n - 1) as nat) + tile_out(uppers, lowers, n - 1)
    }
}

/// The headers announce as many edges as there are lower records.
pub open spec fn two_tier_valid(uppers: Seq<Upper>, lowers: Seq<(u16, u16)>) -> bool {
    tile_start(uppers, uppers.len()) == lowers.len()
}

/// The edges of a two-tier layout.
pub open spec fn two_tier_edges(uppers: Seq<Upper>, lowers: Seq<(u16, u16)>) -> Seq<(u32, u32)> {
    tile_edges(uppers, lowers, uppers.len())
}

/// The headers that a packed little-endian upper file holds.
pub open spec fn parse_uppers(bytes: Seq<u8>) -> Seq<Upper> {
    Seq::new(
        (bytes.len() / 8) as nat,
        |t: int|
            Upper {
                ux: crate::typedrw::half(bytes, 4 * t),
                uy: crate::typedrw::half(bytes, 4 * t + 1),
                count: crate::typedrw::word(bytes, 2 * t + 1),
            },
    )
}

/// The records that a packed little-endian lower file holds.
pub open spec fn parse_lowers(bytes: Seq<u8>) -> Seq<(u16, u16)> {
    Seq::new(
        (bytes.len() / 4) as nat,
        |j: int| (crate::typedrw::half(bytes, 2 * j), crate::typedrw::half(bytes, 2 * j + 1)),
    )
}

/// The bytes of an upper file that holds `uppers`.
pub open spec fn upper_bytes(uppers: Seq<Upper>) -> Seq<u8>
    decreases uppers.len(),
{
    if uppers.len() == 0 {
        Seq::empty()
    } else {
        upper_bytes(uppers.drop_last()) + crate::typedrw::u16_bytes(uppers.last().ux)
            + crate::typedrw::u16_bytes(uppers.last().uy) + crate::typedrw::u32_bytes(
            uppers.last().count,
        )
    }
}

/// The bytes of a lower file that holds `lowers`.
pub open spec fn lower_bytes(lowers: Seq<(u16, u16)>) -> Seq<u8>
    decreases lowers.len(),
{
    if lowers.len() == 0 {
        Seq::empty()
    } else {
        lower_bytes(lowers.drop_last()) + crate::typedrw::u16_bytes(lowers.last().0)
            + crate::typedrw::u16_bytes(lowers.last().1)
    }
}

/// The tiles start in file order.
pub proof fn lemma_tile_start_grows(uppers: Seq<Upper>, m: nat, n: nat)
    requires
        m <= n,
    ensures
        tile_start(uppers, m) <= tile_start(uppers, n),
    decreases n,
{
    if m < n {
        lemma_tile_start_grows(uppers, m, (n - 1) as nat);
    }
}

/// The tiles before tile `n` hold as many edges as their headers say.
pub proof fn lemma_tile_edges_len(uppers: Seq<Upper>, lowers: Seq<(u16, u16)>, n: nat)
    ensures
        tile_edges(uppers, lowers, n).len() == tile_start(uppers, n),
    decreases n,
{
    if n > 0 {
        lemma_tile_edges_len(uppers, lowers, (n - 1) as nat);
    }
}

/// The edges of the tiles before tile `t` come first among those of the
/// tiles before tile `n`.
pub proof fn lemma_tile_prefix(uppers: Seq<Upper>, lowers: Seq<(u16, u16)>, t: nat, n: nat)
    requires
        t <= n,
    ensures
        tile_edges(uppers, lowers, t).len() <= tile_edges(uppers, lowers, n).len(),
        tile_edges(uppers, lowers, n).take(tile_edges(uppers, lowers, t).len() as int)
            == tile_edges(uppers, lowers, t),
    decreases n,
{
    if t < n {
        lemma_tile_prefix(uppers, lowers, t, (n - 1) as nat);
        let a = tile_edges(uppers, lowers, t);
        let b = tile_edges(uppers, lowers, (n - 1) as nat);
        let c = tile_out(uppers, lowers, n - 1);
        assert((b + c).take(a.len() as int) == b.take(a.len() as int));
    } else {
        let a = tile_edges(uppers, lowers, t);
        assert(a.take(a.len() as int) == a);
    }
}

/// The edges of the first tiles depend on the headers of these tiles and on
/// their lower records only.
pub proof fn lemma_tile_frame(
    u1: Seq<Upper>,
    l1: Seq<(u16, u16)>,
    u2: Seq<Upper>,
    l2: Seq<(u16, u16)>,
    n: nat,
)
    requires
        n <= u1.len(),
        n <= u2.len(),
        forall|t: int| 0 <= t < n ==> u1[t] == u2[t],
        tile_start(u1, n) <= l1.len(),
        tile_start(u1, n) <= l2.len(),
        forall|j: int| 0 <= j < tile_start(u1, n) ==> l1[j] == l2[j],
    ensures
        tile_start(u1, n) == tile_start(u2, n),
        tile_edges(u1, l1, n) == tile_edges(u2, l2, n),
    decreases n,
{
    if n > 0 {
        lemma_tile_frame(u1, l1, u2, l2, (n - 1) as nat);
        assert(tile_out(u1, l1, n - 1) =~= tile_out(u2, l2, n - 1));
    }
}

/// An upper file has eight bytes for each header, and reads back as the
/// headers that were written.
pub proof fn lemma_upper_round_trip(uppers: Seq<Upper>)
    ensures
        upper_bytes(uppers).len() == 8 * uppers.len(),
        parse_uppers(upper_bytes(uppers)) == uppers,
    decreases uppers.len(),
{
    if uppers.len() > 0 {
        let head = uppers.drop_last();
        let last = uppers.last();
        lemma_upper_round_trip(head);
        let a = upper_bytes(head);
        let b = upper_bytes(uppers);
        crate::typedrw::lemma_u16_round_trip(last.ux);
        crate::typedrw::lemma_u16_round_trip(last.uy);
        crate::typedrw::lemma_u32_round_trip(last.count);
        let rec = crate::typedrw::u16_bytes(last.ux) + crate::typedrw::u16_bytes(last.uy)
            + crate::typedrw::u32_bytes(last.count);
        assert(b == a + rec);
        assert(rec.len() == 8);
        assert forall|t: int| 0 <= t < uppers.len() implies parse_uppers(b)[t] == uppers[t] by {
            if t < head.len() {
                assert(parse_uppers(a)[t] == head[t]);
                assert(forall|k: int| 0 <= k < a.len() ==> b[k] == a[k]);
            } else {
                assert(forall|k: int| 0 <= k < 8 ==> b[a.len() + k] == rec[k]);
                assert(b[8 * t] == rec[0]);
                assert(b[8 * t + 1] == rec[1]);
                assert(b[8 * t + 2] == rec[2]);
                assert(b[8 * t + 3] == rec[3]);
                assert(b[8 * t + 4] == rec[4]);
                assert(b[8 * t + 5] == rec[5]);
                assert(b[8 * t + 6] == rec[6]);
                assert(b[8 * t + 7] == rec[7]);
            }
        }
        assert(parse_uppers(b) =~= uppers);
    } else {
        assert(parse_uppers(upper_bytes(uppers)) =~= uppers);
    }
}

/// A lower file has four bytes for each record, and reads back as the
/// records that were written.
pub proof fn lemma_lower_round_trip(lowers: Seq<(u16, u16)>)
    ensures
        lower_bytes(lowers).len() == 4 * lowers.len(),
        parse_lowers(lower_bytes(lowers)) == lowers,
    decreases lowers.len(),
{
    if lowers.len() > 0 {
        let head = lowers.drop_last();
        let last = lowers.last();
        lemma_lower_round_trip(head);
        let a = lower_bytes(head);
        let b = lower_bytes(lowers);
        crate::typedrw::lemma_u16_round_trip(last.0);
        crate::typedrw::lemma_u16_round_trip(last.1);
        let rec = crate::typedrw::u16_bytes(last.0) + crate::typedrw::u16_bytes(last.1);
        assert(b == a + rec);
        assert(rec.len() == 4);
        assert forall|j: int| 0 <= j < lowers.len() implies parse_lowers(b)[j] == lowers[j] by {
            if j < head.len() {
                assert(parse_lowers(a)[j] == head[j]);
                assert(forall|k: int| 0 <= k < a.len() ==> b[k] == a[k]);
            } else {
                assert(forall|k: int| 0 <= k < 4 ==> b[a.len() + k] == rec[k]);
                assert(b[4 * j] == rec[0]);
                assert(b[4 * j + 1] == rec[1]);
                assert(b[4 * j + 2] == rec[2]);
                assert(b[4 * j + 3] == rec[3]);
            }
        }
        assert(parse_lowers(b) =~= lowers);
    } else {
        assert(parse_lowers(lower_bytes(lowers)) =~= lowers);
    }
}

/// A graph in the two-tier Hilbert layout, in memory: the headers of its
/// tiles, and the lower 16 bits of the coordinates of the edges, tile by
/// tile.
pub struct TwoTier {
    pub uppers: Vec<Upper>,
    pub lowers: Vec<(u16, u16)>,
}

impl TwoTier {
    /// The edges of the layout.
    pub open spec fn edges(&self) -> Seq<(u32, u32)> {
        two_tier_edges(self.uppers@, self.lowers@)
    }

    /// The contents of the upper file: for each tile its two coordinates
    /// and its number of edges.
    pub fn upper_file(&self) -> (out: Vec<u8>)
        ensures
            out@ == upper_bytes(self.uppers@),
    {
        let mut out: Vec<u8> = Vec::new();
        let mut t: usize = 0;
        while t < self.uppers.len()
            invariant
                t <= self.uppers@.len(),
                out@ == upper_bytes(self.uppers@.take(t as int)),
            decreases self.uppers@.len() - t,
        {
            let u: Upper = self.uppers[t];
            assert(self.uppers@.take(t + 1).drop_last() == self.uppers@.take(t as int));
            put_u16(&mut out, u.ux);
            put_u16(&mut out, u.uy);
            put_u32(&mut out, u.count);
            t = t + 1;
        }
        assert(self.uppers@.take(t as int) == self.uppers@);
        out
    }

    /// The contents of the lower file: for each edge the lower halves of
    /// its two coordinates.
    pub fn lower_file(&self) -> (out: Vec<u8>)
        ensures
            out@ == lower_bytes(self.lowers@),
    {
        let mut out: Vec<u8> = Vec::new();
        let mut j: usize = 0;
        while j < self.lowers.len()
            invariant
                j <= self.lowers@.len(),
                out@ == lower_bytes(self.lowers@.take(j as int)),
            decreases self.lowers@.len() - j,
        {
            let l: (u16, u16) = self.lowers[j];
            assert(self.lowers@.take(j + 1).drop_last() == self.lowers@.take(j as int));
            put_u16(&mut out, l.0);
            put_u16(&mut out, l.1);
            j = j + 1;
        }
        assert(self.lowers@.take(j as int) == self.lowers@);
        out
    }
}

/// A graph in the two-tier Hilbert layout: an upper file of tile headers
/// and a lower file with the lower 16 bits of the coordinates of each edge,
/// tile by tile.
pub struct UpperLowerMemMapper<'a> {
    upper: &'a [u8],
    lower: &'a [u8],
}

impl<'a> UpperLowerMemMapper<'a> {
    /// The tile headers.
    pub closed spec fn uppers(&self) -> Seq<Upper> {
        parse_uppers(self.upper@)
    }

    /// The lower records.
    pub closed spec fn lowers(&self) -> Seq<(u16, u16)> {
        parse_lowers(self.lower@)
    }

    /// Takes the contents of an upper file and of a lower file, and checks
    /// that they fit together.
    pub fn new(upper: &'a [u8], lower: &'a [u8]) -> (r: Result<Self, FormatError>)
        ensures
            match r {
                Ok(m) => {
                    &&& upper@.len() % 8 == 0
                    &&& lower@.len() % 4 == 0
                    &&& two_tier_valid(parse_uppers(upper@), parse_lowers(lower@))
                    &&& m.wf()
                    &&& m.uppers() == parse_uppers(upper@)
                    &&& m.lowers() == parse_lowers(lower@)
                },
                Err(FormatError::Ragged) => upper@.len() % 8 != 0 || lower@.len() % 4 != 0,
                Err(FormatError::Counts) => {
                    &&& upper@.len() % 8 == 0
                    &&& lower@.len() % 4 == 0
                    &&& !two_tier_valid(parse_uppers(upper@), parse_lowers(lower@))
                },
            },
    {
        if upper.len() % 8 != 0 || lower.len() % 4 != 0 {
            return Err(FormatError::Ragged);
        }
        let ghost uppers = parse_uppers(upper@);
        let ghost lowers = parse_lowers(lower@);
        let ulen: usize = upper.len();
        let llen: usize = lower.len();
        let n: usize = ulen / 8;
        let m: usize = llen / 4;
        let mut start: usize = 0;
        let mut t: usize = 0;
        while t < n
            invariant
                t <= n,
                ulen == upper@.len(),
                llen == lower@.len(),
                n == upper@.len() / 8,
                m == lower@.len() / 4,
                upper@.len() % 8 == 0,
                lower@.len() % 4 == 0,
                uppers == parse_uppers(upper@),
                lowers == parse_lowers(lower@),
                start == tile_start(uppers, t as nat),
                start <= m,
            decreases n - t,
        {
            let count: usize = get_u32(upper, 2 * t + 1) as usize;
            if count > m - start {
                proof {
                    lemma_tile_start_grows(uppers, (t + 1) as nat, n as nat);
                }
                return Err(FormatError::Counts);
            }
            start = start + count;
            t = t + 1;
        }
        if start != m {
            return Err(FormatError::Counts);
        }
        Ok(UpperLowerMemMapper { upper, lower })
    }
}

impl<'a> EdgeMapper for UpperLowerMemMapper<'a> {
    closed spec fn wf(&self) -> bool {
        &&& self.upper@.len() % 8 == 0
        &&& self.lower@.len() % 4 == 0
        &&& self.lower@.len() <= usize::MAX
        &&& two_tier_valid(self.uppers(), self.lowers())
    }

    open spec fn edges(&self) -> Seq<(u32, u32)> {
        two_tier_edges(self.uppers(), self.lowers())
    }

    proof fn edge_count_fits(&self) {
        lemma_tile_edges_len(self.uppers(), self.lowers(), self.uppers().len());
    }

    fn map_edges<A: EdgeVisitor>(&self, action: &mut A) {
        let ghost uppers = self.uppers();
        let ghost lowers = self.lowers();
        let ghost s0 = action.state();
        let ghost all = self.edges();
        let ulen: usize = self.upper.len();
        let llen: usize = self.lower.len();
        let n: usize = ulen / 8;
        let m: usize = llen / 4;
        let mut start: usize = 0;
        let mut t: usize = 0;
        while t < n
            invariant
                t <= n,
                ulen == self.upper@.len(),
                llen == self.lower@.len(),
                n == uppers.len(),
                m == lowers.len(),
                self.wf(),
                uppers == self.uppers(),
                lowers == self.lowers(),
                all == tile_edges(uppers, lowers, n as nat),
                start == tile_start(uppers, t as nat),
                action.inv(),
                action.state() == crate::graph_iterator::fold_edges::<A>(
                    s0,
                    tile_edges(uppers, lowers, t as nat),
                ),
                crate::graph_iterator::accepts_all::<A>(s0, all),
            decreases n - t,
        {
            let ux: u16 = get_u16(self.upper, 4 * t);
            let uy: u16 = get_u16(self.upper, 4 * t + 1);
            let count: usize = get_u32(self.upper, 2 * t + 1) as usize;
            let ghost before = tile_edges(uppers, lowers, t as nat);
            let ghost mine = tile_out(uppers, lowers, t as int);
            proof {
                lemma_tile_prefix(uppers, lowers, (t + 1) as nat, n as nat);
                lemma_tile_start_grows(uppers, (t + 1) as nat, n as nat);
                assert(mine.take(0) == Seq::<(u32, u32)>::empty());
                assert(before + mine.take(0) == before);
                assert(uppers[t as int].ux == ux);
                assert(uppers[t as int].uy == uy);
                assert(uppers[t as int].count == count);
            }
            let mut k: usize = 0;
            while k < count
                invariant
                    k <= count,
                    t < n,
                    ulen == self.upper@.len(),
                    llen == self.lower@.len(),
                    n == uppers.len(),
                    m == lowers.len(),
                    self.wf(),
                    uppers == self.uppers(),
                    lowers == self.lowers(),
                    start == tile_start(uppers, t as nat),
                    start + count <= m,
                    uppers[t as int].ux == ux,
                    uppers[t as int].uy == uy,
                    uppers[t as int].count == count,
                    before == tile_edges(uppers, lowers, t as nat),
                    mine == tile_out(uppers, lowers, t as int),
                    all.take((before + mine).len() as int) == before + mine,
                    (before + mine).len() <= all.len(),
                    action.inv(),
                    action.state() == crate::graph_iterator::fold_edges::<A>(
                        s0,
                        before + mine.take(k as int),
                    ),
                    crate::graph_iterator::accepts_all::<A>(s0, all),
                decreases count - k,
            {
                let j: usize = start + k;
                let lx: u16 = get_u16(self.lower, 2 * j);
                let ly: u16 = get_u16(self.lower, 2 * j + 1);
                let x: u32 = ux as u32 * 0x1_0000 + lx as u32;
                let y: u32 = uy as u32 * 0x1_0000 + ly as u32;
                let ghost seen = before + mine.take(k as int);
                proof {
                    assert(lowers[j as int] == (lx, ly));
                    assert(all.take(seen.len() as int) == seen) by {
                        assert(all.take((before + mine).len() as int).take(seen.len() as int)
                            == all.take(seen.len() as int));
                        assert((before + mine).take(seen.len() as int) == seen);
                    }
                    assert(all[seen.len() as int] == (before + mine)[seen.len() as int]);
                    assert(mine[k as int] == (x, y));
                    assert(all[seen.len() as int] == (x, y));
                }
                action.visit(x, y);
                proof {
                    crate::graph_iterator::lemma_fold_push::<A>(s0, seen, (x, y));
                    assert(seen.push((x, y)) == before + mine.take(k + 1));
                }
                k = k + 1;
            }
            proof {
                assert(mine.take(count as int) == mine);
            }
            start = start + count;
            t = t + 1;
        }
    }
}

} // verus!
