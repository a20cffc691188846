use vstd::prelude::*;

verus! {

/// One of the four ways in which the Hilbert curve lies in a square: as
/// drawn, transposed, turned half round, or both.
#[derive(Clone, Copy, Debug, PartialEq, Eq, Structural)]
pub struct Orientation {
    /// The two coordinates change places.
    pub swap: bool,
    /// Both coordinates are counted from the far side.
    pub flip: bool,
}

/// The orientation of the curve through the whole plane.
pub open spec fn upright() -> Orientation {
    Orientation { swap: false, flip: false }
}

/// The cell of the upright square of order `k` that the cell `(x, y)` of a
/// square in orientation `o` lies on.
pub open spec fn orient(o: Orientation, k: nat, x: nat, y: nat) -> (nat, nat) {
    let a = if o.swap {
        y
    } else {
        x
    };
    let b = if o.swap {
        x
    } else {
        y
    };
    if o.flip {
        ((crate::hilbert_curve::side(k) - 1 - a) as nat, (crate::hilbert_curve::side(k) - 1
            - b) as nat)
    } else {
        (a, b)
    }
}

/// The number, from 0 to 3, of the quarter of the curve that runs through
/// the quarter of the square with the upper halves `hx`, `hy`.
pub open spec fn quarter(o: Orientation, hx: bool, hy: bool) -> nat {
    let a = (if o.swap {
        hy
    } else {
        hx
    }) != o.flip;
    let b = (if o.swap {
        hx
    } else {
        hy
    }) != o.flip;
    if !a {
        if !b {
            0
        } else {
            1
        }
    } else {
        if b {
            2
        } else {
            3
        }
    }
}

/// The quarter of the square that the quarter `q` of the curve runs
/// through: whether it lies in the upper half of `x`, and of `y`.
pub open spec fn halves(o: Orientation, q: nat) -> (bool, bool) {
    let a = (q >= 2) != o.flip;
    let b = (q == 1 || q == 2) != o.flip;
    if o.swap {
        (b, a)
    } else {
        (a, b)
    }
}

/// The orientation of the curve inside its quarter `q`.
pub open spec fn turn(o: Orientation, q: nat) -> Orientation {
    if q == 0 {
        Orientation { swap: !o.swap, flip: o.flip }
    } else if q == 3 {
        Orientation { swap: !o.swap, flip: !o.flip }
    } else {
        o
    }
}

/// The first place of the quarter `q` of a curve whose quarters have `a`
/// places each.
pub open spec fn quarter_start(q: nat, a: nat) -> nat {
    if q == 0 {
        0
    } else if q == 1 {
        a
    } else if q == 2 {
        2 * a
    } else {
        3 * a
    }
}

/// The place of `(x, y)` on the curve of order `k` in orientation `o`,
/// found quarter by quarter from the largest down, and the orientation of
/// the curve in the last cell.
pub open spec fn walk(o: Orientation, k: nat, x: nat, y: nat) -> (nat, Orientation)
    decreases k,
{
    if k == 0 {
        (0, o)
    } else {
        let s = crate::hilbert_curve::side((k - 1) as nat);
        let q = quarter(o, x >= s, y >= s);
        let lx = if x >= s {
            (x - s) as nat
        } else {
            x
        };
        let ly = if y >= s {
            (y - s) as nat
        } else {
            y
        };
        let rest = walk(turn(o, q), (k - 1) as nat, lx, ly);
        (quarter_start(q, crate::hilbert_curve::area((k - 1) as nat)) + rest.0, rest.1)
    }
}

/// The cell at place `z` of the curve of order `k` in orientation `o`,
/// found quarter by quarter from the largest down, and the orientation of
/// the curve in that cell.
pub open spec fn unwalk(o: Orientation, k: nat, z: nat) -> ((nat, nat), Orientation)
    decreases k,
{
    if k == 0 {
        ((0, 0), o)
    } else {
        let s = crate::hilbert_curve::side((k - 1) as nat);
        let a = crate::hilbert_curve::area((k - 1) as nat);
        let q: nat = if z < a {
            0
        } else if z < 2 * a {
            1
        } else if z < 3 * a {
            2
        } else {
            3
        };
        let h = halves(o, q);
        let rest = unwalk(turn(o, q), (k - 1) as nat, (z - quarter_start(q, a)) as nat);
        (
            (
                if h.0 {
                    s + rest.0.0
                } else {
                    rest.0.0
                },
                if h.1 {
                    s + rest.0.1
                } else {
                    rest.0.1
                },
            ),
            rest.1,
        )
    }
}

/// The walk finds a place of the curve.
pub proof fn lemma_walk_bound(o: Orientation, k: nat, x: nat, y: nat)
    requires
        x < crate::hilbert_curve::side(k),
        y < crate::hilbert_curve::side(k),
    ensures
        walk(o, k, x, y).0 < crate::hilbert_curve::area(k),
    decreases k,
{
    if k > 0 {
        let s = crate::hilbert_curve::side((k - 1) as nat);
        let q = quarter(o, x >= s, y >= s);
        let lx = if x >= s {
            (x - s) as nat
        } else {
            x
        };
        let ly = if y >= s {
            (y - s) as nat
        } else {
            y
        };
        lemma_walk_bound(turn(o, q), (k - 1) as nat, lx, ly);
    }
}

/// The walk through a square in orientation `o` finds the place that the
/// curve gives to the cell of the upright square.
pub proof fn lemma_walk_is_index(o: Orientation, k: nat, x: nat, y: nat)
    requires
        x < crate::hilbert_curve::side(k),
        y < crate::hilbert_curve::side(k),
    ensures
        walk(o, k, x, y).0 == crate::hilbert_curve::curve_index(
            k,
            orient(o, k, x, y).0,
            orient(o, k, x, y).1,
        ),
    decreases k,
{
    if k > 0 {
        let s = crate::hilbert_curve::side((k - 1) as nat);
        let q = quarter(o, x >= s, y >= s);
        let lx = if x >= s {
            (x - s) as nat
        } else {
            x
        };
        let ly = if y >= s {
            (y - s) as nat
        } else {
            y
        };
        lemma_walk_is_index(turn(o, q), (k - 1) as nat, lx, ly);
        let p = orient(o, k, x, y);
        let r = orient(turn(o, q), (k - 1) as nat, lx, ly);
        if q == 0 {
            assert(p.0 < s && p.1 < s);
            assert(r == (p.1, p.0));
        } else if q == 1 {
            assert(p.0 < s && p.1 >= s);
            assert(r == (p.0, (p.1 - s) as nat));
        } else if q == 2 {
            assert(p.0 >= s && p.1 >= s);
            assert(r == ((p.0 - s) as nat, (p.1 - s) as nat));
        } else {
            assert(p.0 >= s && p.1 < s);
            assert(r == ((s - 1 - p.1) as nat, (2 * s - 1 - p.0) as nat));
        }
    }
}

/// The cell that lies at the place that the walk finds for a cell is that
/// cell, in the same last orientation.
pub proof fn lemma_unwalk_walk(o: Orientation, k: nat, x: nat, y: nat)
    requires
        x < crate::hilbert_curve::side(k),
        y < crate::hilbert_curve::side(k),
    ensures
        unwalk(o, k, walk(o, k, x, y).0) == ((x, y), walk(o, k, x, y).1),
    decreases k,
{
    if k > 0 {
        let s = crate::hilbert_curve::side((k - 1) as nat);
        let q = quarter(o, x >= s, y >= s);
        let lx = if x >= s {
            (x - s) as nat
        } else {
            x
        };
        let ly = if y >= s {
            (y - s) as nat
        } else {
            y
        };
        lemma_walk_bound(turn(o, q), (k - 1) as nat, lx, ly);
        lemma_unwalk_walk(turn(o, q), (k - 1) as nat, lx, ly);
        assert(halves(o, q) == (x >= s, y >= s));
    }
}

/// The place that the walk finds for the cell at a place is that place,
/// in the same last orientation.
pub proof fn lemma_walk_unwalk(o: Orientation, k: nat, z: nat)
    requires
        z < crate::hilbert_curve::area(k),
    ensures
        unwalk(o, k, z).0.0 < crate::hilbert_curve::side(k),
        unwalk(o, k, z).0.1 < crate::hilbert_curve::side(k),
        walk(o, k, unwalk(o, k, z).0.0, unwalk(o, k, z).0.1) == (z, unwalk(o, k, z).1),
    decreases k,
{
    if k > 0 {
        let a = crate::hilbert_curve::area((k - 1) as nat);
        let q: nat = if z < a {
            0
        } else if z < 2 * a {
            1
        } else if z < 3 * a {
            2
        } else {
            3
        };
        lemma_walk_unwalk(turn(o, q), (k - 1) as nat, (z - quarter_start(q, a)) as nat);
        let h = halves(o, q);
        assert(quarter(o, h.0, h.1) == q);
    }
}

/// The cell that the walk back through the upright square finds at a place
/// is the cell that the curve has there.
pub proof fn lemma_unwalk_is_point(k: nat, z: nat)
    requires
        z < crate::hilbert_curve::area(k),
    ensures
        unwalk(upright(), k, z).0 == crate::hilbert_curve::curve_point(k, z),
{
    let p = unwalk(upright(), k, z).0;
    lemma_walk_unwalk(upright(), k, z);
    lemma_walk_is_index(upright(), k, p.0, p.1);
    crate::hilbert_curve::lemma_point_of_index(k, p.0, p.1);
}

/// One more level below: the walk through the finer square is the walk
/// through the coarser one, followed by one step in the last cell.
pub proof fn lemma_walk_bottom(o: Orientation, i: nat, xh: nat, yh: nat, bx: nat, by: nat)
    requires
        xh < crate::hilbert_curve::side(i),
        yh < crate::hilbert_curve::side(i),
        bx < 2,
        by < 2,
    ensures
        walk(o, i + 1, 2 * xh + bx, 2 * yh + by) == (
            4 * walk(o, i, xh, yh).0 + walk(walk(o, i, xh, yh).1, 1, bx, by).0,
            walk(walk(o, i, xh, yh).1, 1, bx, by).1,
        ),
    decreases i,
{
    if i > 0 {
        let s = crate::hilbert_curve::side((i - 1) as nat);
        let q = quarter(o, xh >= s, yh >= s);
        let lx = if xh >= s {
            (xh - s) as nat
        } else {
            xh
        };
        let ly = if yh >= s {
            (yh - s) as nat
        } else {
            yh
        };
        lemma_walk_bottom(turn(o, q), (i - 1) as nat, lx, ly, bx, by);
        assert(crate::hilbert_curve::side(i) == 2 * s);
        assert(((i + 1) - 1) as nat == i);
        assert(((i - 1) + 1) as nat == i);
        assert((2 * xh + bx >= 2 * s) == (xh >= s));
        assert((2 * yh + by >= 2 * s) == (yh >= s));
    } else {
        assert(walk(o, 0, xh, yh) == (0nat, o));
    }
}

/// A walk in two parts: the walk through a square of order `i + j` is the
/// walk through the square of order `i` of its tiles, followed by the walk
/// through the tile of order `j`.
pub proof fn lemma_walk_split(
    o: Orientation,
    i: nat,
    j: nat,
    xh: nat,
    yh: nat,
    xl: nat,
    yl: nat,
)
    requires
        xh < crate::hilbert_curve::side(i),
        yh < crate::hilbert_curve::side(i),
        xl < crate::hilbert_curve::side(j),
        yl < crate::hilbert_curve::side(j),
    ensures
        xh * crate::hilbert_curve::side(j) + xl < crate::hilbert_curve::side(i + j),
        yh * crate::hilbert_curve::side(j) + yl < crate::hilbert_curve::side(i + j),
        walk(
            o,
            i + j,
            xh * crate::hilbert_curve::side(j) + xl,
            yh * crate::hilbert_curve::side(j) + yl,
        ) == (
            walk(o, i, xh, yh).0 * crate::hilbert_curve::area(j) + walk(
                walk(o, i, xh, yh).1,
                j,
                xl,
                yl,
            ).0,
            walk(walk(o, i, xh, yh).1, j, xl, yl).1,
        ),
    decreases j,
{
    let top = walk(o, i, xh, yh);
    if j == 0 {
        assert(xh * 1 == xh) by (nonlinear_arith);
        assert(yh * 1 == yh) by (nonlinear_arith);
        assert(top.0 * 1 == top.0) by (nonlinear_arith);
        assert(i + j == i);
    } else {
        let sj = crate::hilbert_curve::side((j - 1) as nat);
        let aj = crate::hilbert_curve::area((j - 1) as nat);
        let xm = xl / 2;
        let ym = yl / 2;
        let bx = xl % 2;
        let by = yl % 2;
        lemma_walk_split(o, i, (j - 1) as nat, xh, yh, xm, ym);
        let xx = xh * sj + xm;
        let yy = yh * sj + ym;
        let mid = walk(top.1, (j - 1) as nat, xm, ym);
        assert(i + (j - 1) as nat + 1 == i + j);
        assert((j - 1) as nat + 1 == j);
        lemma_walk_bottom(o, i + (j - 1) as nat, xx, yy, bx, by);
        lemma_walk_bottom(top.1, (j - 1) as nat, xm, ym, bx, by);
        assert(xh * (2 * sj) == 2 * (xh * sj)) by (nonlinear_arith);
        assert(yh * (2 * sj) == 2 * (yh * sj)) by (nonlinear_arith);
        assert(top.0 * (4 * aj) == 4 * (top.0 * aj)) by (nonlinear_arith);
        assert(xh * crate::hilbert_curve::side(j) + xl == 2 * xx + bx);
        assert(yh * crate::hilbert_curve::side(j) + yl == 2 * yy + by);
        assert(crate::hilbert_curve::side(i + j) == 2 * crate::hilbert_curve::side(
            i + (j - 1) as nat,
        ));
    }
}

/// A walk back in two parts: the cell at a place of the curve of order
/// `i + j` lies in the tile at the place of order `i`, where the walk back
/// through the tile of order `j` finds it.
pub proof fn lemma_unwalk_split(o: Orientation, i: nat, j: nat, zh: nat, zl: nat)
    requires
        zh < crate::hilbert_curve::area(i),
        zl < crate::hilbert_curve::area(j),
    ensures
        unwalk(o, i + j, zh * crate::hilbert_curve::area(j) + zl) == (
            (
                unwalk(o, i, zh).0.0 * crate::hilbert_curve::side(j) + unwalk(
                    unwalk(o, i, zh).1,
                    j,
                    zl,
                ).0.0,
                unwalk(o, i, zh).0.1 * crate::hilbert_curve::side(j) + unwalk(
                    unwalk(o, i, zh).1,
                    j,
                    zl,
                ).0.1,
            ),
            unwalk(unwalk(o, i, zh).1, j, zl).1,
        ),
{
    let top = unwalk(o, i, zh);
    let low = unwalk(top.1, j, zl);
    lemma_walk_unwalk(o, i, zh);
    lemma_walk_unwalk(top.1, j, zl);
    lemma_walk_split(o, i, j, top.0.0, top.0.1, low.0.0, low.0.1);
    lemma_unwalk_walk(
        o,
        i + j,
        top.0.0 * crate::hilbert_curve::side(j) + low.0.0,
        top.0.1 * crate::hilbert_curve::side(j) + low.0.1,
    );
}

/// The upper half of the Hilbert index of an edge is the Hilbert index of
/// the tile that holds it.
pub proof fn lemma_tile_of_index(x: u32, y: u32)
    ensures
        crate::hilbert_curve::hilbert(x, y) / 0x1_0000_0000
            == crate::hilbert_curve::tile_index((x / 0x1_0000) as u16, (y / 0x1_0000) as u16),
{
    crate::hilbert_curve::lemma_sizes();
    let xh = (x / 0x1_0000) as nat;
    let yh = (y / 0x1_0000) as nat;
    let xl = (x % 0x1_0000) as nat;
    let yl = (y % 0x1_0000) as nat;
    lemma_walk_split(upright(), 16, 16, xh, yh, xl, yl);
    let top = walk(upright(), 16, xh, yh);
    let low = walk(top.1, 16, xl, yl);
    lemma_walk_bound(upright(), 16, xh, yh);
    lemma_walk_bound(top.1, 16, xl, yl);
    lemma_walk_is_index(upright(), 16, xh, yh);
    lemma_walk_is_index(upright(), 32, x as nat, y as nat);
    assert(xh * 0x1_0000 + xl == x);
    assert(yh * 0x1_0000 + yl == y);
    assert((top.0 * 0x1_0000_0000 + low.0) / 0x1_0000_0000 == top.0);
}


/// The number, from 0 to 3, under which the tables hold an orientation.
pub open spec fn code_of(o: Orientation) -> nat {
    (if o.swap {
        1nat
    } else {
        0nat
    }) + (if o.flip {
        2nat
    } else {
        0nat
    })
}

/// The orientation that the tables hold under the number `c`.
pub open spec fn orientation_of(c: nat) -> Orientation {
    Orientation { swap: c == 1 || c == 3, flip: c >= 2 }
}

impl Orientation {
    /// The orientation of the curve through the whole plane.
    pub fn start() -> (o: Orientation)
        ensures
            o == upright(),
    {
        Orientation { swap: false, flip: false }
    }

    /// The number, from 0 to 3, under which the tables hold this orientation.
    pub fn code(self) -> (c: u8)
        ensures
            c == code_of(self),
            c < 4,
            orientation_of(c as nat) == self,
    {
        let low: u8 = if self.swap {
            1
        } else {
            0
        };
        let high: u8 = if self.flip {
            2
        } else {
            0
        };
        low + high
    }

    /// The orientation that the tables hold under the number `c`.
    pub fn from_code(c: u8) -> (o: Orientation)
        ensures
            o == orientation_of(c as nat),
    {
        Orientation { swap: c == 1 || c == 3, flip: c >= 2 }
    }

    /// The number of the quarter of the curve that runs through the quarter
    /// of the square with the upper halves `hx`, `hy`.
    pub fn quarter(self, hx: bool, hy: bool) -> (q: u8)
        ensures
            q == quarter(self, hx, hy),
            q < 4,
    {
        let a: bool = (if self.swap {
            hy
        } else {
            hx
        }) != self.flip;
        let b: bool = (if self.swap {
            hx
        } else {
            hy
        }) != self.flip;
        if !a {
            if !b {
                0
            } else {
                1
            }
        } else {
            if b {
                2
            } else {
                3
            }
        }
    }

    /// The quarter of the square that the quarter `q` of the curve runs
    /// through.
    pub fn halves(self, q: u8) -> (h: (bool, bool))
        ensures
            h == halves(self, q as nat),
    {
        let a: bool = (q >= 2) != self.flip;
        let b: bool = (q == 1 || q == 2) != self.flip;
        if self.swap {
            (b, a)
        } else {
            (a, b)
        }
    }

    /// The orientation of the curve inside its quarter `q`.
    pub fn turn(self, q: u8) -> (o: Orientation)
        ensures
            o == turn(self, q as nat),
    {
        if q == 0 {
            Orientation { swap: !self.swap, flip: self.flip }
        } else if q == 3 {
            Orientation { swap: !self.swap, flip: !self.flip }
        } else {
            self
        }
    }
}

/// The side and the area of the square of order `k`, for an order below 32.
pub fn square(k: u32) -> (r: (u32, u64))
    requires
        k < 32,
    ensures
        r.0 == crate::hilbert_curve::side(k as nat),
        r.1 == crate::hilbert_curve::area(k as nat),
{
    let mut s: u32 = 1;
    let mut a: u64 = 1;
    let mut t: u32 = 0;
    while t < k
        invariant
            t <= k,
            k < 32,
            s == crate::hilbert_curve::side(t as nat),
            a == crate::hilbert_curve::area(t as nat),
        decreases k - t,
    {
        proof {
            crate::hilbert_curve::lemma_side_grows((t + 1) as nat, 31);
            crate::hilbert_curve::lemma_sizes();
        }
        s = s * 2;
        a = a * 4;
        t += 1;
    }
    (s, a)
}

/// The place of `(x, y)` on the curve of order `k` in orientation `o`, and
/// the orientation of the curve in that cell: one step for each bit of the
/// coordinates, from the highest down.
pub fn walk_bits(o: Orientation, k: u32, x: u32, y: u32) -> (r: (u64, Orientation))
    requires
        k <= 32,
        x < crate::hilbert_curve::side(k as nat),
        y < crate::hilbert_curve::side(k as nat),
    ensures
        r.0 == walk(o, k as nat, x as nat, y as nat).0,
        r.1 == walk(o, k as nat, x as nat, y as nat).1,
{
    let mut level: u32 = k;
    let mut now: Orientation = o;
    let mut cx: u32 = x;
    let mut cy: u32 = y;
    let mut acc: u64 = 0;
    proof {
        lemma_walk_bound(o, k as nat, x as nat, y as nat);
        crate::hilbert_curve::lemma_side_grows(k as nat, 32);
        crate::hilbert_curve::lemma_sizes();
    }
    while level > 0
        invariant
            level <= k <= 32,
            cx < crate::hilbert_curve::side(level as nat),
            cy < crate::hilbert_curve::side(level as nat),
            walk(o, k as nat, x as nat, y as nat).0 < 0x1_0000_0000_0000_0000,
            acc + walk(now, level as nat, cx as nat, cy as nat).0 == walk(
                o,
                k as nat,
                x as nat,
                y as nat,
            ).0,
            walk(now, level as nat, cx as nat, cy as nat).1 == walk(
                o,
                k as nat,
                x as nat,
                y as nat,
            ).1,
        decreases level,
    {
        let (s, a) = square(level - 1);
        let hx: bool = cx >= s;
        let hy: bool = cy >= s;
        let q: u8 = now.quarter(hx, hy);
        if q == 1 {
            acc = acc + a;
        } else if q == 2 {
            acc = acc + 2 * a;
        } else if q == 3 {
            acc = acc + 3 * a;
        }
        if hx {
            cx = cx - s;
        }
        if hy {
            cy = cy - s;
        }
        now = now.turn(q);
        level = level - 1;
    }
    (acc, now)
}

/// The cell at place `z` of the curve of order `k` in orientation `o`, and
/// the orientation of the curve in that cell: one step for each pair of
/// bits of the place, from the highest down.
pub fn unwalk_bits(o: Orientation, k: u32, z: u64) -> (r: ((u32, u32), Orientation))
    requires
        k <= 32,
        z < crate::hilbert_curve::area(k as nat),
    ensures
        r.0.0 == unwalk(o, k as nat, z as nat).0.0,
        r.0.1 == unwalk(o, k as nat, z as nat).0.1,
        r.1 == unwalk(o, k as nat, z as nat).1,
{
    let mut level: u32 = k;
    let mut now: Orientation = o;
    let mut cz: u64 = z;
    let mut ax: u32 = 0;
    let mut ay: u32 = 0;
    proof {
        lemma_walk_unwalk(o, k as nat, z as nat);
        crate::hilbert_curve::lemma_side_grows(k as nat, 32);
        crate::hilbert_curve::lemma_sizes();
    }
    while level > 0
        invariant
            level <= k <= 32,
            cz < crate::hilbert_curve::area(level as nat),
            unwalk(o, k as nat, z as nat).0.0 < 0x1_0000_0000,
            unwalk(o, k as nat, z as nat).0.1 < 0x1_0000_0000,
            ax + unwalk(now, level as nat, cz as nat).0.0 == unwalk(o, k as nat, z as nat).0.0,
            ay + unwalk(now, level as nat, cz as nat).0.1 == unwalk(o, k as nat, z as nat).0.1,
            unwalk(now, level as nat, cz as nat).1 == unwalk(o, k as nat, z as nat).1,
        decreases level,
    {
        let (s, a) = square(level - 1);
        proof {
            crate::hilbert_curve::lemma_side_grows((level - 1) as nat, 31);
            crate::hilbert_curve::lemma_sizes();
        }
        let q: u8 = if cz < a {
            0
        } else if cz < 2 * a {
            1
        } else if cz < 3 * a {
            2
        } else {
            3
        };
        let h = now.halves(q);
        if h.0 {
            ax = ax + s;
        }
        if h.1 {
            ay = ay + s;
        }
        if q == 1 {
            cz = cz - a;
        } else if q == 2 {
            cz = cz - 2 * a;
        } else if q == 3 {
            cz = cz - 3 * a;
        }
        now = now.turn(q);
        level = level - 1;
    }
    ((ax, ay), now)
}

/// A walk in two parts, with the side and the area of the tiles given by
/// value.
pub proof fn lemma_walk_split_at(
    o: Orientation,
    i: nat,
    j: nat,
    sj: nat,
    aj: nat,
    xh: nat,
    yh: nat,
    xl: nat,
    yl: nat,
)
    requires
        sj == crate::hilbert_curve::side(j),
        aj == crate::hilbert_curve::area(j),
        xh < crate::hilbert_curve::side(i),
        yh < crate::hilbert_curve::side(i),
        xl < sj,
        yl < sj,
    ensures
        walk(o, i + j, xh * sj + xl, yh * sj + yl) == (
            walk(o, i, xh, yh).0 * aj + walk(walk(o, i, xh, yh).1, j, xl, yl).0,
            walk(walk(o, i, xh, yh).1, j, xl, yl).1,
        ),
{
    lemma_walk_split(o, i, j, xh, yh, xl, yl);
}

/// A walk back in two parts, with the side and the area of the tiles given
/// by value.
pub proof fn lemma_unwalk_split_at(
    o: Orientation,
    i: nat,
    j: nat,
    sj: nat,
    aj: nat,
    zh: nat,
    zl: nat,
)
    requires
        sj == crate::hilbert_curve::side(j),
        aj == crate::hilbert_curve::area(j),
        zh < crate::hilbert_curve::area(i),
        zl < aj,
    ensures
        unwalk(o, i + j, zh * aj + zl) == (
            (
                unwalk(o, i, zh).0.0 * sj + unwalk(unwalk(o, i, zh).1, j, zl).0.0,
                unwalk(o, i, zh).0.1 * sj + unwalk(unwalk(o, i, zh).1, j, zl).0.1,
            ),
            unwalk(unwalk(o, i, zh).1, j, zl).1,
        ),
{
    lemma_unwalk_split(o, i, j, zh, zl);
}

/// The place of a cell of the plane of 32-bit coordinates, from four walks
/// through eight levels: one for each byte of the coordinates, from the
/// highest down, each in the orientation in which the one before ended.
pub proof fn lemma_walk_bytes(
    x3: nat,
    x2: nat,
    x1: nat,
    x0: nat,
    y3: nat,
    y2: nat,
    y1: nat,
    y0: nat,
)
    requires
        x3 < 0x100,
        x2 < 0x100,
        x1 < 0x100,
        x0 < 0x100,
        y3 < 0x100,
        y2 < 0x100,
        y1 < 0x100,
        y0 < 0x100,
    ensures
        ({
            let s3 = walk(upright(), 8, x3, y3);
            let s2 = walk(s3.1, 8, x2, y2);
            let s1 = walk(s2.1, 8, x1, y1);
            let s0 = walk(s1.1, 8, x0, y0);
            walk(
                upright(),
                32,
                ((x3 * 0x100 + x2) * 0x100 + x1) * 0x100 + x0,
                ((y3 * 0x100 + y2) * 0x100 + y1) * 0x100 + y0,
            ).0 == ((s3.0 * 0x1_0000 + s2.0) * 0x1_0000 + s1.0) * 0x1_0000 + s0.0
        }),
{
    crate::hilbert_curve::lemma_sizes();
    let s3 = walk(upright(), 8, x3, y3);
    let s2 = walk(s3.1, 8, x2, y2);
    let xa = x1 * 0x100 + x0;
    let ya = y1 * 0x100 + y0;
    lemma_walk_split_at(s2.1, 8, 8, 0x100, 0x1_0000, x1, y1, x0, y0);
    let xb = x2 * 0x1_0000 + xa;
    let yb = y2 * 0x1_0000 + ya;
    lemma_walk_split_at(s3.1, 8, 16, 0x1_0000, 0x1_0000_0000, x2, y2, xa, ya);
    lemma_walk_split_at(upright(), 8, 24, 0x100_0000, 0x1_0000_0000_0000, x3, y3, xb, yb);
    assert(x3 * 0x100_0000 + xb == ((x3 * 0x100 + x2) * 0x100 + x1) * 0x100 + x0);
    assert(y3 * 0x100_0000 + yb == ((y3 * 0x100 + y2) * 0x100 + y1) * 0x100 + y0);
}

/// The cell at a place of the curve through the plane of 32-bit
/// coordinates, from four walks back through eight levels: one for each two
/// bytes of the place, from the highest down, each in the orientation in
/// which the one before ended.
pub proof fn lemma_unwalk_bytes(z3: nat, z2: nat, z1: nat, z0: nat)
    requires
        z3 < 0x1_0000,
        z2 < 0x1_0000,
        z1 < 0x1_0000,
        z0 < 0x1_0000,
    ensures
        ({
            let s3 = unwalk(upright(), 8, z3);
            let s2 = unwalk(s3.1, 8, z2);
            let s1 = unwalk(s2.1, 8, z1);
            let s0 = unwalk(s1.1, 8, z0);
            let there = unwalk(
                upright(),
                32,
                ((z3 * 0x1_0000 + z2) * 0x1_0000 + z1) * 0x1_0000 + z0,
            );
            &&& there.0.0 == ((s3.0.0 * 0x100 + s2.0.0) * 0x100 + s1.0.0) * 0x100 + s0.0.0
            &&& there.0.1 == ((s3.0.1 * 0x100 + s2.0.1) * 0x100 + s1.0.1) * 0x100 + s0.0.1
        }),
{
    crate::hilbert_curve::lemma_sizes();
    let s3 = unwalk(upright(), 8, z3);
    let s2 = unwalk(s3.1, 8, z2);
    let za = z1 * 0x1_0000 + z0;
    lemma_unwalk_split_at(s2.1, 8, 8, 0x100, 0x1_0000, z1, z0);
    let zb = z2 * 0x1_0000_0000 + za;
    lemma_unwalk_split_at(s3.1, 8, 16, 0x1_0000, 0x1_0000_0000, z2, za);
    lemma_unwalk_split_at(upright(), 8, 24, 0x100_0000, 0x1_0000_0000_0000, z3, zb);
    assert(z3 * 0x1_0000_0000_0000 + zb == ((z3 * 0x1_0000 + z2) * 0x1_0000 + z1) * 0x1_0000
        + z0);
}

} // verus!
