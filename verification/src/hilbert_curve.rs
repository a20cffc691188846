use crate::orientation::unwalk_bits;
use crate::orientation::walk_bits;
use crate::orientation::Orientation;
use vstd::prelude::*;

verus! {

/// The side of the square of order `k`: two to the power `k`.
pub open spec fn side(k: nat) -> nat
    decreases k,
{
    if k == 0 {
        1
    } else {
        2 * side((k - 1) as nat)
    }
}

/// The number of cells of the square of order `k`: four to the power `k`.
pub open spec fn area(k: nat) -> nat
    decreases k,
{
    if k == 0 {
        1
    } else {
        4 * area((k - 1) as nat)
    }
}

/// The place of the cell `(x, y)` on the Hilbert curve through the square
/// of order `k`. The curve runs through the four quarters of the square in
/// the order lower left, upper left, upper right, lower right; it runs
/// through the first quarter transposed, and through the last transposed
/// along the other diagonal.
pub open spec fn curve_index(k: nat, x: nat, y: nat) -> nat
    decreases k,
{
    if k == 0 {
        0
    } else {
        let s = side((k - 1) as nat);
        let a = area((k - 1) as nat);
        if x < s {
            if y < s {
                curve_index((k - 1) as nat, y, x)
            } else {
                a + curve_index((k - 1) as nat, x, (y - s) as nat)
            }
        } else {
            if y >= s {
                2 * a + curve_index((k - 1) as nat, (x - s) as nat, (y - s) as nat)
            } else {
                3 * a + curve_index((k - 1) as nat, (s - 1 - y) as nat, (2 * s - 1 - x) as nat)
            }
        }
    }
}

/// The cell at place `z` of the Hilbert curve through the square of order
/// `k`.
pub open spec fn curve_point(k: nat, z: nat) -> (nat, nat)
    decreases k,
{
    if k == 0 {
        (0, 0)
    } else {
        let s = side((k - 1) as nat);
        let a = area((k - 1) as nat);
        if z < a {
            let p = curve_point((k - 1) as nat, z);
            (p.1, p.0)
        } else if z < 2 * a {
            let p = curve_point((k - 1) as nat, (z - a) as nat);
            (p.0, s + p.1)
        } else if z < 3 * a {
            let p = curve_point((k - 1) as nat, (z - 2 * a) as nat);
            (s + p.0, s + p.1)
        } else {
            let p = curve_point((k - 1) as nat, (z - 3 * a) as nat);
            ((2 * s - 1 - p.1) as nat, (s - 1 - p.0) as nat)
        }
    }
}

/// The Hilbert index of an edge: the place of `(x, y)` on the curve through
/// the plane of 32-bit coordinates.
pub open spec fn hilbert(x: u32, y: u32) -> u64 {
    curve_index(32, x as nat, y as nat) as u64
}

/// The edge with the Hilbert index `z`.
pub open spec fn hilbert_point(z: u64) -> (u32, u32) {
    (curve_point(32, z as nat).0 as u32, curve_point(32, z as nat).1 as u32)
}

/// The Hilbert index of a tile: the place of `(ux, uy)` on the curve
/// through the plane of 16-bit coordinates.
pub open spec fn tile_index(ux: u16, uy: u16) -> u32 {
    curve_index(16, ux as nat, uy as nat) as u32
}

/// A square has at least one cell.
pub proof fn lemma_side_positive(k: nat)
    ensures
        side(k) > 0,
        area(k) > 0,
    decreases k,
{
    if k > 0 {
        lemma_side_positive((k - 1) as nat);
    }
}

/// Sides and areas are powers of two.
pub proof fn lemma_side_is_pow2(k: nat)
    ensures
        side(k) == vstd::arithmetic::power2::pow2(k),
        area(k) == vstd::arithmetic::power2::pow2(2 * k),
    decreases k,
{
    if k > 0 {
        lemma_side_is_pow2((k - 1) as nat);
        vstd::arithmetic::power2::lemma_pow2_unfold(k);
        vstd::arithmetic::power2::lemma_pow2_unfold(2 * k);
        vstd::arithmetic::power2::lemma_pow2_unfold((2 * k - 1) as nat);
    } else {
        vstd::arithmetic::power2::lemma2_to64();
    }
}

/// The sides and areas of the squares that the bytewise walk meets.
pub proof fn lemma_sizes()
    ensures
        side(0) == 1,
        side(8) == 0x100,
        side(16) == 0x1_0000,
        side(24) == 0x100_0000,
        side(31) == 0x8000_0000,
        side(32) == 0x1_0000_0000,
        area(0) == 1,
        area(8) == 0x1_0000,
        area(16) == 0x1_0000_0000,
        area(24) == 0x1_0000_0000_0000,
        area(31) == 0x4000_0000_0000_0000,
        area(32) == 0x1_0000_0000_0000_0000,
{
    vstd::arithmetic::power2::lemma2_to64();
    vstd::arithmetic::power2::lemma2_to64_rest();
    lemma_side_is_pow2(0);
    lemma_side_is_pow2(8);
    lemma_side_is_pow2(16);
    lemma_side_is_pow2(24);
    lemma_side_is_pow2(31);
    lemma_side_is_pow2(32);
}

/// A larger order has a larger square.
pub proof fn lemma_side_grows(j: nat, k: nat)
    requires
        j <= k,
    ensures
        side(j) <= side(k),
        area(j) <= area(k),
    decreases k,
{
    if j < k {
        lemma_side_grows(j, (k - 1) as nat);
    }
}

/// The curve through a square has as many places as the square has cells.
pub proof fn lemma_index_bound(k: nat, x: nat, y: nat)
    requires
        x < side(k),
        y < side(k),
    ensures
        curve_index(k, x, y) < area(k),
    decreases k,
{
    if k > 0 {
        let s = side((k - 1) as nat);
        if x < s {
            if y < s {
                lemma_index_bound((k - 1) as nat, y, x);
            } else {
                lemma_index_bound((k - 1) as nat, x, (y - s) as nat);
            }
        } else {
            if y >= s {
                lemma_index_bound((k - 1) as nat, (x - s) as nat, (y - s) as nat);
            } else {
                lemma_index_bound((k - 1) as nat, (s - 1 - y) as nat, (2 * s - 1 - x) as nat);
            }
        }
    }
}

/// Every place of the curve is a cell of the square.
pub proof fn lemma_point_bound(k: nat, z: nat)
    requires
        z < area(k),
    ensures
        curve_point(k, z).0 < side(k),
        curve_point(k, z).1 < side(k),
    decreases k,
{
    if k > 0 {
        let a = area((k - 1) as nat);
        if z < a {
            lemma_point_bound((k - 1) as nat, z);
        } else if z < 2 * a {
            lemma_point_bound((k - 1) as nat, (z - a) as nat);
        } else if z < 3 * a {
            lemma_point_bound((k - 1) as nat, (z - 2 * a) as nat);
        } else {
            lemma_point_bound((k - 1) as nat, (z - 3 * a) as nat);
        }
    }
}

/// The cell at the place of a cell is that cell.
pub proof fn lemma_point_of_index(k: nat, x: nat, y: nat)
    requires
        x < side(k),
        y < side(k),
    ensures
        curve_point(k, curve_index(k, x, y)) == (x, y),
    decreases k,
{
    if k > 0 {
        let s = side((k - 1) as nat);
        let a = area((k - 1) as nat);
        if x < s {
            if y < s {
                lemma_index_bound((k - 1) as nat, y, x);
                lemma_point_of_index((k - 1) as nat, y, x);
            } else {
                lemma_index_bound((k - 1) as nat, x, (y - s) as nat);
                lemma_point_of_index((k - 1) as nat, x, (y - s) as nat);
            }
        } else {
            if y >= s {
                lemma_index_bound((k - 1) as nat, (x - s) as nat, (y - s) as nat);
                lemma_point_of_index((k - 1) as nat, (x - s) as nat, (y - s) as nat);
            } else {
                lemma_index_bound((k - 1) as nat, (s - 1 - y) as nat, (2 * s - 1 - x) as nat);
                lemma_point_of_index((k - 1) as nat, (s - 1 - y) as nat, (2 * s - 1 - x) as nat);
            }
        }
    }
}

/// The place of the cell at a place is that place.
pub proof fn lemma_index_of_point(k: nat, z: nat)
    requires
        z < area(k),
    ensures
        curve_index(k, curve_point(k, z).0, curve_point(k, z).1) == z,
    decreases k,
{
    if k > 0 {
        let a = area((k - 1) as nat);
        if z < a {
            lemma_point_bound((k - 1) as nat, z);
            lemma_index_of_point((k - 1) as nat, z);
        } else if z < 2 * a {
            lemma_point_bound((k - 1) as nat, (z - a) as nat);
            lemma_index_of_point((k - 1) as nat, (z - a) as nat);
        } else if z < 3 * a {
            lemma_point_bound((k - 1) as nat, (z - 2 * a) as nat);
            lemma_index_of_point((k - 1) as nat, (z - 2 * a) as nat);
        } else {
            lemma_point_bound((k - 1) as nat, (z - 3 * a) as nat);
            lemma_index_of_point((k - 1) as nat, (z - 3 * a) as nat);
        }
    }
}

/// The curve starts in the corner of the square.
pub proof fn lemma_curve_start(k: nat)
    ensures
        curve_index(k, 0, 0) == 0,
    decreases k,
{
    if k > 0 {
        lemma_side_positive((k - 1) as nat);
        lemma_curve_start((k - 1) as nat);
    }
}

/// Taking an edge to its Hilbert index and back gives the edge.
pub proof fn lemma_detangle_entangle(x: u32, y: u32)
    ensures
        hilbert_point(hilbert(x, y)) == (x, y),
{
    lemma_sizes();
    lemma_index_bound(32, x as nat, y as nat);
    lemma_point_of_index(32, x as nat, y as nat);
}

/// Taking a Hilbert index to its edge and back gives the index.
pub proof fn lemma_entangle_detangle(z: u64)
    ensures
        hilbert(hilbert_point(z).0, hilbert_point(z).1) == z,
{
    lemma_sizes();
    lemma_point_bound(32, z as nat);
    lemma_index_of_point(32, z as nat);
}

/// Two edges with one Hilbert index are one edge.
pub proof fn lemma_hilbert_injective(x1: u32, y1: u32, x2: u32, y2: u32)
    requires
        hilbert(x1, y1) == hilbert(x2, y2),
    ensures
        x1 == x2,
        y1 == y2,
{
    lemma_detangle_entangle(x1, y1);
    lemma_detangle_entangle(x2, y2);
}

/// The Hilbert index of `(x, y)`, found bit by bit.
pub fn bit_entangle(x: u32, y: u32) -> (z: u64)
    ensures
        z == hilbert(x, y),
{
    proof {
        lemma_sizes();
        crate::orientation::lemma_walk_is_index(
            crate::orientation::upright(),
            32,
            x as nat,
            y as nat,
        );
    }
    walk_bits(Orientation::start(), 32, x, y).0
}

/// The edge with the Hilbert index `z`, found bit by bit.
pub fn bit_detangle(z: u64) -> (p: (u32, u32))
    ensures
        p == hilbert_point(z),
{
    proof {
        lemma_sizes();
        crate::orientation::lemma_unwalk_is_point(32, z as nat);
    }
    unwalk_bits(Orientation::start(), 32, z).0
}

/// The number of entries of each table: four orientations, and a byte of
/// each coordinate or two bytes of the index.
pub const TABLE: usize = 0x4_0000;

/// The orientation of the table entry `t`.
pub open spec fn entry_orientation(t: int) -> Orientation {
    crate::orientation::orientation_of((t / 0x1_0000) as nat)
}

/// What the first table holds at `t`: the walk through eight levels for a
/// byte of `x` and a byte of `y`.
pub open spec fn entangle_entry(t: int) -> (nat, Orientation) {
    crate::orientation::walk(
        entry_orientation(t),
        8,
        (t / 0x100 % 0x100) as nat,
        (t % 0x100) as nat,
    )
}

/// What the second table holds at `t`: the walk back through eight levels
/// for two bytes of the index.
pub open spec fn detangle_entry(t: int) -> ((nat, nat), Orientation) {
    crate::orientation::unwalk(entry_orientation(t), 8, (t % 0x1_0000) as nat)
}

/// The Hilbert curve through the plane of 32-bit coordinates, walked a byte
/// of each coordinate at a time with the help of tables.
pub struct BytewiseHilbert {
    entangle: Vec<u16>,
    detangle: Vec<(u8, u8)>,
    rotation: Vec<u8>,
    back_rotation: Vec<u8>,
}

impl BytewiseHilbert {
    /// The tables hold the walks through eight levels.
    pub closed spec fn wf(&self) -> bool {
        &&& self.entangle@.len() == TABLE
        &&& self.detangle@.len() == TABLE
        &&& self.rotation@.len() == TABLE
        &&& self.back_rotation@.len() == TABLE
        &&& forall|t: int|
            0 <= t < TABLE ==> (#[trigger] self.entangle@[t]) == entangle_entry(t).0
        &&& forall|t: int|
            0 <= t < TABLE ==> (#[trigger] self.rotation@[t]) == crate::orientation::code_of(
                entangle_entry(t).1,
            )
        &&& forall|t: int|
            0 <= t < TABLE ==> (#[trigger] self.detangle@[t]).0 == detangle_entry(t).0.0
                && self.detangle@[t].1 == detangle_entry(t).0.1
        &&& forall|t: int|
            0 <= t < TABLE ==> (#[trigger] self.back_rotation@[t])
                == crate::orientation::code_of(detangle_entry(t).1)
    }

    /// Fills the tables.
    pub fn new() -> (r: Self)
        ensures
            r.wf(),
    {
        let mut entangle: Vec<u16> = Vec::new();
        let mut detangle: Vec<(u8, u8)> = Vec::new();
        let mut rotation: Vec<u8> = Vec::new();
        let mut back_rotation: Vec<u8> = Vec::new();
        let mut t: usize = 0;
        while t < TABLE
            invariant
                t <= TABLE,
                entangle@.len() == t,
                detangle@.len() == t,
                rotation@.len() == t,
                back_rotation@.len() == t,
                forall|u: int| 0 <= u < t ==> (#[trigger] entangle@[u]) == entangle_entry(u).0,
                forall|u: int|
                    0 <= u < t ==> (#[trigger] rotation@[u]) == crate::orientation::code_of(
                        entangle_entry(u).1,
                    ),
                forall|u: int|
                    0 <= u < t ==> (#[trigger] detangle@[u]).0 == detangle_entry(u).0.0
                        && detangle@[u].1 == detangle_entry(u).0.1,
                forall|u: int|
                    0 <= u < t ==> (#[trigger] back_rotation@[u])
                        == crate::orientation::code_of(detangle_entry(u).1),
            decreases TABLE - t,
        {
            let o = Orientation::from_code((t / 0x1_0000) as u8);
            let xb: u32 = (t / 0x100 % 0x100) as u32;
            let yb: u32 = (t % 0x100) as u32;
            let zc: u64 = (t % 0x1_0000) as u64;
            proof {
                lemma_sizes();
                crate::orientation::lemma_walk_bound(o, 8, xb as nat, yb as nat);
                crate::orientation::lemma_walk_unwalk(o, 8, zc as nat);
            }
            let there = walk_bits(o, 8, xb, yb);
            let back = unwalk_bits(o, 8, zc);
            entangle.push(there.0 as u16);
            rotation.push(there.1.code());
            detangle.push((back.0.0 as u8, back.0.1 as u8));
            back_rotation.push(back.1.code());
            t += 1;
        }
        BytewiseHilbert { entangle, detangle, rotation, back_rotation }
    }

    /// The walk through eight levels that the first table holds for the
    /// orientation with the number `o` and the bytes `xb`, `yb`.
    fn step(&self, o: u8, xb: u32, yb: u32) -> (r: (u64, u8))
        requires
            self.wf(),
            o < 4,
            xb < 0x100,
            yb < 0x100,
        ensures
            r.0 == crate::orientation::walk(
                crate::orientation::orientation_of(o as nat),
                8,
                xb as nat,
                yb as nat,
            ).0,
            crate::orientation::orientation_of(r.1 as nat) == crate::orientation::walk(
                crate::orientation::orientation_of(o as nat),
                8,
                xb as nat,
                yb as nat,
            ).1,
            r.0 < 0x1_0000,
            r.1 < 4,
    {
        let t: usize = ((o as u32 * 0x100 + xb) * 0x100 + yb) as usize;
        assert(entry_orientation(t as int) == crate::orientation::orientation_of(o as nat));
        assert(t as int / 0x100 % 0x100 == xb);
        assert(t as int % 0x100 == yb);
        (self.entangle[t] as u64, self.rotation[t])
    }

    /// The walk back through eight levels that the second table holds for
    /// the orientation with the number `o` and the two bytes `zc`.
    fn step_back(&self, o: u8, zc: u64) -> (r: ((u32, u32), u8))
        requires
            self.wf(),
            o < 4,
            zc < 0x1_0000,
        ensures
            r.0.0 == crate::orientation::unwalk(
                crate::orientation::orientation_of(o as nat),
                8,
                zc as nat,
            ).0.0,
            r.0.1 == crate::orientation::unwalk(
                crate::orientation::orientation_of(o as nat),
                8,
                zc as nat,
            ).0.1,
            crate::orientation::orientation_of(r.1 as nat) == crate::orientation::unwalk(
                crate::orientation::orientation_of(o as nat),
                8,
                zc as nat,
            ).1,
            r.0.0 < 0x100,
            r.0.1 < 0x100,
            r.1 < 4,
    {
        let t: usize = (o as u64 * 0x1_0000 + zc) as usize;
        assert(entry_orientation(t as int) == crate::orientation::orientation_of(o as nat));
        assert(t as int % 0x1_0000 == zc);
        let p: (u8, u8) = self.detangle[t];
        ((p.0 as u32, p.1 as u32), self.back_rotation[t])
    }

    /// The Hilbert index of the edge `pair`.
    pub fn entangle(&self, pair: (u32, u32)) -> (z: u64)
        requires
            self.wf(),
        ensures
            z == hilbert(pair.0, pair.1),
    {
        let x: u32 = pair.0;
        let y: u32 = pair.1;
        let x3: u32 = x / 0x100_0000;
        let y3: u32 = y / 0x100_0000;
        let xa: u32 = x % 0x100_0000;
        let ya: u32 = y % 0x100_0000;
        let x2: u32 = xa / 0x1_0000;
        let y2: u32 = ya / 0x1_0000;
        let xb: u32 = xa % 0x1_0000;
        let yb: u32 = ya % 0x1_0000;
        let x1: u32 = xb / 0x100;
        let y1: u32 = yb / 0x100;
        let x0: u32 = xb % 0x100;
        let y0: u32 = yb % 0x100;
        let s3 = self.step(0, x3, y3);
        let s2 = self.step(s3.1, x2, y2);
        let s1 = self.step(s2.1, x1, y1);
        let s0 = self.step(s1.1, x0, y0);
        proof {
            lemma_sizes();
            assert(x == ((x3 * 0x100 + x2) * 0x100 + x1) * 0x100 + x0);
            assert(y == ((y3 * 0x100 + y2) * 0x100 + y1) * 0x100 + y0);
            crate::orientation::lemma_walk_bytes(
                x3 as nat,
                x2 as nat,
                x1 as nat,
                x0 as nat,
                y3 as nat,
                y2 as nat,
                y1 as nat,
                y0 as nat,
            );
            crate::orientation::lemma_walk_is_index(
                crate::orientation::upright(),
                32,
                x as nat,
                y as nat,
            );
        }
        ((s3.0 * 0x1_0000 + s2.0) * 0x1_0000 + s1.0) * 0x1_0000 + s0.0
    }

    /// The edge with the Hilbert index `z`.
    pub fn detangle(&self, z: u64) -> (p: (u32, u32))
        requires
            self.wf(),
        ensures
            p == hilbert_point(z),
    {
        let z3: u64 = z / 0x1_0000_0000_0000;
        let za: u64 = z % 0x1_0000_0000_0000;
        let z2: u64 = za / 0x1_0000_0000;
        let zb: u64 = za % 0x1_0000_0000;
        let z1: u64 = zb / 0x1_0000;
        let z0: u64 = zb % 0x1_0000;
        let s3 = self.step_back(0, z3);
        let s2 = self.step_back(s3.1, z2);
        let s1 = self.step_back(s2.1, z1);
        let s0 = self.step_back(s1.1, z0);
        proof {
            lemma_sizes();
            assert(z == ((z3 * 0x1_0000 + z2) * 0x1_0000 + z1) * 0x1_0000 + z0);
            crate::orientation::lemma_unwalk_bytes(z3 as nat, z2 as nat, z1 as nat, z0 as nat);
            crate::orientation::lemma_unwalk_is_point(32, z as nat);
            lemma_point_bound(32, z as nat);
        }
        let x: u32 = ((s3.0.0 * 0x100 + s2.0.0) * 0x100 + s1.0.0) * 0x100 + s0.0.0;
        let y: u32 = ((s3.0.1 * 0x100 + s2.0.1) * 0x100 + s1.0.1) * 0x100 + s0.0.1;
        (x, y)
    }

    /// The Hilbert index of the tile `(ux, uy)`.
    pub fn tile(&self, ux: u16, uy: u16) -> (z: u32)
        requires
            self.wf(),
        ensures
            z == tile_index(ux, uy),
    {
        let s1 = self.step(0, (ux / 0x100) as u32, (uy / 0x100) as u32);
        let s0 = self.step(s1.1, (ux % 0x100) as u32, (uy % 0x100) as u32);
        proof {
            lemma_sizes();
            let up = crate::orientation::upright();
            crate::orientation::lemma_walk_split_at(
                up,
                8,
                8,
                0x100,
                0x1_0000,
                (ux / 0x100) as nat,
                (uy / 0x100) as nat,
                (ux % 0x100) as nat,
                (uy % 0x100) as nat,
            );
            crate::orientation::lemma_walk_is_index(up, 16, ux as nat, uy as nat);
        }
        (s1.0 * 0x1_0000 + s0.0) as u32
    }
}

} // verus!
