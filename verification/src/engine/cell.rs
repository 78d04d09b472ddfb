//! Hexagonal cells in cube coordinates.
//!
//! A cell is addressed by three integers that sum to zero. All arithmetic is
//! stated over [`Cube`], the same triple over the mathematical integers.

use std::ops::{Add, Mul, Sub};
use vstd::prelude::*;
use vstd::std_specs::ops::{AddSpecImpl, MulSpecImpl, SubSpecImpl};

verus! {

/// A point of the cube coordinate system over the mathematical integers.
pub struct Cube {
    pub q: int,
    pub r: int,
    pub s: int,
}

/// The absolute value of `x`.
pub open spec fn abs(x: int) -> int {
    if x < 0 {
        -x
    } else {
        x
    }
}

/// Whether `x` can be held in an `i32`.
pub open spec fn fits_i32(x: int) -> bool {
    i32::MIN <= x <= i32::MAX
}

/// The unit step in direction `d`, for `d` from 0 to 5.
pub open spec fn unit(d: int) -> Cube {
    if d == 0 {
        Cube { q: 1, r: 0, s: -1 }
    } else if d == 1 {
        Cube { q: 1, r: -1, s: 0 }
    } else if d == 2 {
        Cube { q: 0, r: -1, s: 1 }
    } else if d == 3 {
        Cube { q: -1, r: 0, s: 1 }
    } else if d == 4 {
        Cube { q: -1, r: 1, s: 0 }
    } else {
        Cube { q: 0, r: 1, s: -1 }
    }
}

/// The direction that leads back from a step in direction `d`.
pub open spec fn opposite(d: int) -> int {
    (d + 3) % 6
}

impl Cube {
    /// The coordinates sum to zero: the point is a cell of the grid.
    pub open spec fn valid(self) -> bool {
        self.q + self.r + self.s == 0
    }

    /// Every coordinate can be held in an `i32`.
    pub open spec fn fits(self) -> bool {
        fits_i32(self.q) && fits_i32(self.r) && fits_i32(self.s)
    }

    pub open spec fn plus(self, rhs: Cube) -> Cube {
        Cube { q: self.q + rhs.q, r: self.r + rhs.r, s: self.s + rhs.s }
    }

    pub open spec fn minus(self, rhs: Cube) -> Cube {
        Cube { q: self.q - rhs.q, r: self.r - rhs.r, s: self.s - rhs.s }
    }

    /// The coordinate-wise product.
    pub open spec fn times(self, rhs: Cube) -> Cube {
        Cube { q: self.q * rhs.q, r: self.r * rhs.r, s: self.s * rhs.s }
    }

    /// The number of steps from the origin to this cell.
    pub open spec fn length(self) -> int {
        (abs(self.q) + abs(self.r) + abs(self.s)) / 2
    }

    /// The number of steps from this cell to `to`.
    pub open spec fn distance(self, to: Cube) -> int {
        self.minus(to).length()
    }

    /// The cell one step away in direction `d`.
    pub open spec fn neighbor(self, d: int) -> Cube {
        self.plus(unit(d))
    }

    /// This cell turned by a sixth of a turn to the left about the origin.
    pub open spec fn rotated_left(self) -> Cube {
        Cube { q: -self.s, r: -self.q, s: -self.r }
    }

    /// This cell turned by a sixth of a turn to the right about the origin.
    pub open spec fn rotated_right(self) -> Cube {
        Cube { q: -self.r, r: -self.s, s: -self.q }
    }

    /// Whether `other` is one step away from this cell.
    pub open spec fn adjacent(self, other: Cube) -> bool {
        exists|d: int| 0 <= d < 6 && other == #[trigger] self.neighbor(d)
    }
}

/// The coordinates of a cell sum to zero, and so do the coordinates under
/// which it is stored; a triple that does not sum to zero is no cell.
pub proof fn lemma_coordinate_invariant(h: Hex)
    ensures
        h.wf() <==> h.q + h.r + h.s == 0,
        h.wf() <==> h.spec_coord()@.valid(),
        h.wf() ==> h.spec_coord().x + h.spec_coord().y + h.spec_coord().z == 0,
        h.spec_coord().cell() == h,
{
}

/// Sums, differences and steps of cells are cells.
pub proof fn lemma_cells_closed(a: Cube, b: Cube, d: int)
    requires
        a.valid(),
        b.valid(),
    ensures
        a.plus(b).valid(),
        a.minus(b).valid(),
        unit(d).valid(),
        a.neighbor(d).valid(),
{
}

/// A step and then a step in the opposite direction lead back.
pub proof fn lemma_neighbor_symmetry(c: Cube, d: int)
    requires
        0 <= d < 6,
    ensures
        0 <= opposite(d) < 6,
        opposite(opposite(d)) == d,
        c.neighbor(d).neighbor(opposite(d)) == c,
{
}

/// A turn to the left and a turn to the right undo each other, a turn keeps
/// the distance from the origin, and six turns lead back.
pub proof fn lemma_rotation(c: Cube)
    requires
        c.valid(),
    ensures
        c.rotated_left().valid(),
        c.rotated_right().valid(),
        c.rotated_left().rotated_right() == c,
        c.rotated_right().rotated_left() == c,
        c.rotated_left().length() == c.length(),
        c.rotated_left().rotated_left().rotated_left().rotated_left().rotated_left().rotated_left()
            == c,
{
}

/// The length of a cell is the largest absolute value among its coordinates.
pub proof fn lemma_length_is_max(c: Cube)
    requires
        c.valid(),
    ensures
        c.length() >= abs(c.q),
        c.length() >= abs(c.r),
        c.length() >= abs(c.s),
        c.length() == abs(c.q) || c.length() == abs(c.r) || c.length() == abs(c.s),
        2 * c.length() == abs(c.q) + abs(c.r) + abs(c.s),
{
}

/// Distance is symmetric, and zero exactly between a cell and itself.
pub proof fn lemma_distance_symmetry(a: Cube, b: Cube)
    requires
        a.valid(),
        b.valid(),
    ensures
        a.distance(b) == b.distance(a),
        a.distance(a) == 0,
        a.distance(b) >= 0,
        a.distance(b) == 0 <==> a == b,
{
    lemma_length_is_max(a.minus(b));
    lemma_length_is_max(b.minus(a));
}

/// The way by a third cell is no shorter.
pub proof fn lemma_distance_triangle(a: Cube, b: Cube, c: Cube)
    requires
        a.valid(),
        b.valid(),
        c.valid(),
    ensures
        a.distance(c) <= a.distance(b) + b.distance(c),
{
    lemma_length_is_max(a.minus(b));
    lemma_length_is_max(b.minus(c));
    lemma_length_is_max(a.minus(c));
}

/// A cell and each of its neighbours are one step apart.
pub proof fn lemma_neighbor_distance(c: Cube, d: int)
    requires
        c.valid(),
        0 <= d < 6,
    ensures
        c.distance(c.neighbor(d)) == 1,
        c.neighbor(d).distance(c) == 1,
{
}

/// From a cell, some step leads one nearer to any other cell, and stays
/// within the range of coordinates in which the two cells lie.
pub proof fn lemma_step_closer(a: Cube, b: Cube) -> (d: int)
    requires
        a.valid(),
        b.valid(),
        a.fits(),
        b.fits(),
        a != b,
    ensures
        0 <= d < 6,
        a.neighbor(d).distance(b) == a.distance(b) - 1,
        a.neighbor(d).fits(),
{
    lemma_length_is_max(a.minus(b));
    lemma_length_is_max(a.neighbor(0).minus(b));
    lemma_length_is_max(a.neighbor(1).minus(b));
    lemma_length_is_max(a.neighbor(2).minus(b));
    lemma_length_is_max(a.neighbor(3).minus(b));
    lemma_length_is_max(a.neighbor(4).minus(b));
    lemma_length_is_max(a.neighbor(5).minus(b));
    let dq = a.q - b.q;
    let dr = a.r - b.r;
    let ds = a.s - b.s;
    if dq > 0 && dr < 0 {
        4
    } else if dq > 0 && ds < 0 {
        3
    } else if dq < 0 && dr > 0 {
        1
    } else if dq < 0 && ds > 0 {
        0
    } else if dr > 0 && ds < 0 {
        2
    } else {
        5
    }
}

/// The nearest integer to `num / den`, halves rounded away from zero.
pub open spec fn round_half_away(num: int, den: int) -> int {
    if num >= 0 {
        (2 * num + den) / (2 * den)
    } else {
        -((den - 2 * num) / (2 * den))
    }
}

/// The cell nearest to the point `q / den`, `r / den`, `s / den`.
///
/// Each coordinate is rounded by itself. The one that its rounding moved
/// farthest is then replaced by what makes the three sum to zero: `q` if it
/// moved strictly farther than both others, else `r` if it moved strictly
/// farther than `s`, else `s`.
pub open spec fn round_cube(q: int, r: int, s: int, den: int) -> Cube {
    let rq = round_half_away(q, den);
    let rr = round_half_away(r, den);
    let rs = round_half_away(s, den);
    let q_diff = abs(rq * den - q);
    let r_diff = abs(rr * den - r);
    let s_diff = abs(rs * den - s);
    if q_diff > r_diff && q_diff > s_diff {
        Cube { q: -rr - rs, r: rr, s: rs }
    } else if r_diff > s_diff {
        Cube { q: rq, r: -rq - rs, s: rs }
    } else {
        Cube { q: rq, r: rr, s: -rq - rr }
    }
}

impl Cube {
    /// The point `num / den` of the way from this cell to `to`, as numerators
    /// over the denominator `den`.
    pub open spec fn lerp(self, to: Cube, num: int, den: int) -> Cube {
        Cube {
            q: self.q * (den - num) + to.q * num,
            r: self.r * (den - num) + to.r * num,
            s: self.s * (den - num) + to.s * num,
        }
    }

    /// The number of steps into which the line from this cell to `to` is cut.
    pub open spec fn line_steps(self, to: Cube) -> int {
        if self.distance(to) < 1 {
            1
        } else {
            self.distance(to)
        }
    }

    /// The `i`-th cell of the line from this cell to `to`.
    pub open spec fn line_point(self, to: Cube, i: int) -> Cube {
        let n = self.line_steps(to);
        let at = self.lerp(to, i, n);
        round_cube(at.q, at.r, at.s, n)
    }
}

/// An integer closer than one to a point between `lo` and `hi` lies between them too.
proof fn lemma_near_within(v: int, num: int, den: int, lo: int, hi: int)
    requires
        den > 0,
        lo * den <= num <= hi * den,
        abs(v * den - num) < den,
    ensures
        lo <= v <= hi,
{
    assert(v <= hi) by (nonlinear_arith)
        requires
            den > 0,
            v * den < hi * den + den,
    ;
    assert(lo <= v) by (nonlinear_arith)
        requires
            den > 0,
            lo * den - den < v * den,
    ;
}

/// Rounding moves a point by no more than a half.
proof fn lemma_round_half_away(num: int, den: int)
    requires
        den > 0,
    ensures
        2 * abs(round_half_away(num, den) * den - num) <= den,
{
    let m = 2 * den;
    if num >= 0 {
        let x = 2 * num + den;
        let k = x / m;
        vstd::arithmetic::div_mod::lemma_fundamental_div_mod(x, m);
        vstd::arithmetic::div_mod::lemma_mod_bound(x, m);
        assert(m * k == 2 * (k * den)) by (nonlinear_arith)
            requires
                m == 2 * den,
        ;
    } else {
        let x = den - 2 * num;
        let k = x / m;
        vstd::arithmetic::div_mod::lemma_fundamental_div_mod(x, m);
        vstd::arithmetic::div_mod::lemma_mod_bound(x, m);
        assert(m * k == 2 * (k * den)) by (nonlinear_arith)
            requires
                m == 2 * den,
        ;
        assert((-k) * den == -(k * den)) by (nonlinear_arith);
    }
}

/// The rounding of `num / den` is the one integer that lies within a half of
/// it, the half included on the side away from zero.
pub proof fn lemma_round_half_away_unique(num: int, den: int, v: int)
    requires
        den > 0,
        num >= 0 ==> 2 * num - den < 2 * (v * den) <= 2 * num + den,
        num < 0 ==> 2 * num - den <= 2 * (v * den) < 2 * num + den,
    ensures
        round_half_away(num, den) == v,
{
    let m = 2 * den;
    if num >= 0 {
        let x = 2 * num + den;
        assert(v * m == 2 * (v * den)) by (nonlinear_arith)
            requires
                m == 2 * den,
        ;
        vstd::arithmetic::div_mod::lemma_fundamental_div_mod_converse(x, m, v, x - v * m);
    } else {
        let x = den - 2 * num;
        assert((-v) * m == -(2 * (v * den))) by (nonlinear_arith)
            requires
                m == 2 * den,
        ;
        vstd::arithmetic::div_mod::lemma_fundamental_div_mod_converse(x, m, -v, x - (-v) * m);
    }
}

/// A whole number is its own rounding.
proof fn lemma_round_whole(v: int, den: int)
    requires
        den > 0,
    ensures
        round_half_away(v * den, den) == v,
{
    let m = 2 * den;
    if v * den >= 0 {
        assert(2 * (v * den) + den == v * m + den) by (nonlinear_arith)
            requires
                m == 2 * den,
        ;
        vstd::arithmetic::div_mod::lemma_fundamental_div_mod_converse(
            2 * (v * den) + den,
            m,
            v,
            den,
        );
    } else {
        assert(den - 2 * (v * den) == (-v) * m + den) by (nonlinear_arith)
            requires
                m == 2 * den,
        ;
        vstd::arithmetic::div_mod::lemma_fundamental_div_mod_converse(
            den - 2 * (v * den),
            m,
            -v,
            den,
        );
    }
}

/// Two equal multiples of a positive number have equal factors.
proof fn lemma_cancel_factor(k: int, m: int, n: int)
    requires
        n > 0,
        2 * (k * n) == m * n,
    ensures
        2 * k == m,
{
    assert((2 * k - m) * n == 0) by (nonlinear_arith)
        requires
            2 * (k * n) == m * n,
    ;
    assert(2 * k - m == 0) by (nonlinear_arith)
        requires
            (2 * k - m) * n == 0,
            n > 0,
    ;
}

/// The cell that `round_cube` gives is a cell, and it lies no farther out than
/// the bounds within which the point lies.
pub proof fn lemma_round_cube(q: int, r: int, s: int, den: int, lo: int, hi: int)
    requires
        den > 0,
        q + r + s == 0,
        lo * den <= q <= hi * den,
        lo * den <= r <= hi * den,
        lo * den <= s <= hi * den,
    ensures
        round_cube(q, r, s, den).valid(),
        lo <= round_cube(q, r, s, den).q <= hi,
        lo <= round_cube(q, r, s, den).r <= hi,
        lo <= round_cube(q, r, s, den).s <= hi,
{
    let rq = round_half_away(q, den);
    let rr = round_half_away(r, den);
    let rs = round_half_away(s, den);
    lemma_round_half_away(q, den);
    lemma_round_half_away(r, den);
    lemma_round_half_away(s, den);
    let eq = rq * den - q;
    let er = rr * den - r;
    let es = rs * den - s;
    lemma_near_within(rq, q, den, lo, hi);
    lemma_near_within(rr, r, den, lo, hi);
    lemma_near_within(rs, s, den, lo, hi);
    if abs(eq) > abs(er) && abs(eq) > abs(es) {
        assert((-rr - rs) * den - q == -er - es) by (nonlinear_arith)
            requires
                er == rr * den - r,
                es == rs * den - s,
                q + r + s == 0,
        ;
        lemma_near_within(-rr - rs, q, den, lo, hi);
    } else if abs(er) > abs(es) {
        assert((-rq - rs) * den - r == -eq - es) by (nonlinear_arith)
            requires
                eq == rq * den - q,
                es == rs * den - s,
                q + r + s == 0,
        ;
        lemma_near_within(-rq - rs, r, den, lo, hi);
    } else {
        assert((-rq - rr) * den - s == -eq - er) by (nonlinear_arith)
            requires
                eq == rq * den - q,
                er == rr * den - r,
                q + r + s == 0,
        ;
        if abs(eq) + abs(er) >= den {
            let k = rq + rr + rs;
            assert(k * den == eq + er + es) by (nonlinear_arith)
                requires
                    k == rq + rr + rs,
                    eq == rq * den - q,
                    er == rr * den - r,
                    es == rs * den - s,
                    q + r + s == 0,
            ;
            let m = (if eq > 0 {
                1int
            } else {
                -1int
            }) + (if er > 0 {
                1int
            } else {
                -1int
            }) + (if es > 0 {
                1int
            } else {
                -1int
            });
            assert(m * den == 2 * eq + 2 * er + 2 * es) by (nonlinear_arith)
                requires
                    2 * abs(eq) == den,
                    2 * abs(er) == den,
                    2 * abs(es) == den,
                    den > 0,
                    m == (if eq > 0 {
                        1int
                    } else {
                        -1int
                    }) + (if er > 0 {
                        1int
                    } else {
                        -1int
                    }) + (if es > 0 {
                        1int
                    } else {
                        -1int
                    }),
            ;
            lemma_cancel_factor(k, m, den);
        }
        lemma_near_within(-rq - rr, s, den, lo, hi);
    }
}

/// Rounding a cell gives the cell itself.
pub proof fn lemma_round_idempotent(c: Cube, den: int)
    requires
        c.valid(),
        den > 0,
    ensures
        round_cube(c.q * den, c.r * den, c.s * den, den) == c,
{
    lemma_round_whole(c.q, den);
    lemma_round_whole(c.r, den);
    lemma_round_whole(c.s, den);
}

/// A point on the way from one cell to another sums to zero, and lies within
/// the bounds within which the two cells lie.
pub proof fn lemma_lerp(a: Cube, b: Cube, num: int, den: int, lo: int, hi: int)
    requires
        a.valid(),
        b.valid(),
        0 <= num <= den,
        lo <= a.q <= hi,
        lo <= a.r <= hi,
        lo <= a.s <= hi,
        lo <= b.q <= hi,
        lo <= b.r <= hi,
        lo <= b.s <= hi,
    ensures
        a.lerp(b, num, den).valid(),
        lo * den <= a.lerp(b, num, den).q <= hi * den,
        lo * den <= a.lerp(b, num, den).r <= hi * den,
        lo * den <= a.lerp(b, num, den).s <= hi * den,
{
    lemma_lerp_valid(a, b, num, den);
    lemma_weighted_within(a.q, b.q, num, den, lo, hi);
    lemma_weighted_within(a.r, b.r, num, den, lo, hi);
    lemma_weighted_within(a.s, b.s, num, den, lo, hi);
}

/// A point on the line through two cells sums to zero.
pub proof fn lemma_lerp_valid(a: Cube, b: Cube, num: int, den: int)
    requires
        a.valid(),
        b.valid(),
    ensures
        a.lerp(b, num, den).valid(),
{
    let w = den - num;
    assert(a.q * w + a.r * w + a.s * w == (a.q + a.r + a.s) * w) by (nonlinear_arith);
    assert(b.q * num + b.r * num + b.s * num == (b.q + b.r + b.s) * num) by (nonlinear_arith);
}

proof fn lemma_weighted_within(x: int, y: int, num: int, den: int, lo: int, hi: int)
    requires
        0 <= num <= den,
        lo <= x <= hi,
        lo <= y <= hi,
    ensures
        lo * den <= x * (den - num) + y * num <= hi * den,
{
    let w = den - num;
    assert(lo * w <= x * w <= hi * w) by (nonlinear_arith)
        requires
            w >= 0,
            lo <= x <= hi,
    ;
    assert(lo * num <= y * num <= hi * num) by (nonlinear_arith)
        requires
            num >= 0,
            lo <= y <= hi,
    ;
    assert(lo * w + lo * num == lo * den) by (nonlinear_arith)
        requires
            w == den - num,
    ;
    assert(hi * w + hi * num == hi * den) by (nonlinear_arith)
        requires
            w == den - num,
    ;
}

/// The line from one cell to another starts at the first and ends at the second.
pub proof fn lemma_line_endpoints(a: Cube, b: Cube)
    requires
        a.valid(),
        b.valid(),
    ensures
        a.distance(b) >= 0,
        a.line_point(b, 0) == a,
        a.line_point(b, a.distance(b)) == b,
{
    lemma_distance_symmetry(a, b);
    let n = a.line_steps(b);
    lemma_round_idempotent(a, n);
    assert(a.lerp(b, 0, n).q == a.q * n && a.lerp(b, 0, n).r == a.r * n && a.lerp(b, 0, n).s == a.s
        * n) by (nonlinear_arith)
        requires
            true,
    ;
    if a.distance(b) >= 1 {
        lemma_round_idempotent(b, n);
        assert(a.lerp(b, n, n).q == b.q * n && a.lerp(b, n, n).r == b.r * n && a.lerp(b, n, n).s
            == b.s * n) by (nonlinear_arith)
            requires
                true,
        ;
    }
}

/// Cube coordinates of a cell, as the key by which the cell is stored and found.
#[derive(Debug, Ord, Eq, PartialEq, PartialOrd, Hash, Copy, Clone, Structural)]
pub struct CellCoord {
    pub x: i32,
    pub y: i32,
    pub z: i32,
}

impl View for CellCoord {
    type V = Cube;

    open spec fn view(&self) -> Cube {
        Cube { q: self.x as int, r: self.y as int, s: self.z as int }
    }
}

impl CellCoord {
    /// The cell at these coordinates.
    pub open spec fn cell(&self) -> Hex {
        Hex { q: self.x, r: self.y, s: self.z }
    }

    pub fn new(x: i32, y: i32, z: i32) -> (c: CellCoord)
        ensures
            c.x == x,
            c.y == y,
            c.z == z,
    {
        CellCoord { x, y, z }
    }
}

/// A cell of the hexagonal grid. `q + r + s` is zero for every cell.
#[derive(Debug, PartialEq, Eq, PartialOrd, Hash, Copy, Clone, Structural)]
pub struct Hex {
    pub q: i32,
    pub r: i32,
    pub s: i32,
}

impl View for Hex {
    type V = Cube;

    open spec fn view(&self) -> Cube {
        Cube { q: self.q as int, r: self.r as int, s: self.s as int }
    }
}

impl Hex {
    /// The coordinates sum to zero.
    pub open spec fn wf(&self) -> bool {
        self@.valid()
    }

    /// Every coordinate leaves room for one step in either direction.
    pub open spec fn is_inner(&self) -> bool {
        &&& i32::MIN < self.q < i32::MAX
        &&& i32::MIN < self.r < i32::MAX
        &&& i32::MIN < self.s < i32::MAX
    }

    /// The cell with the given coordinates, which must sum to zero.
    pub fn new(q: i32, r: i32, s: i32) -> (h: Hex)
        requires
            q + r + s == 0,
        ensures
            h.wf(),
            h.q + h.r + h.s == 0,
            h.q == q,
            h.r == r,
            h.s == s,
    {
        Hex { q, r, s }
    }

    /// The cell with the given coordinates, or nothing where they do not sum
    /// to zero and so are the coordinates of no cell.
    pub fn try_new(q: i32, r: i32, s: i32) -> (cell: Option<Hex>)
        ensures
            match cell {
                Some(h) => q + r + s == 0 && h.wf() && h.q == q && h.r == r && h.s == s,
                None => q + r + s != 0,
            },
    {
        if q as i64 + r as i64 + s as i64 == 0 {
            Some(Hex::new(q, r, s))
        } else {
            None
        }
    }

    /// The number of steps from the origin to this cell.
    pub fn length(&self) -> (n: i32)
        requires
            self.wf(),
            self@.length() <= i32::MAX,
        ensures
            n == self@.length(),
    {
        let total: i64 = abs_i64(self.q) + abs_i64(self.r) + abs_i64(self.s);
        (total / 2) as i32
    }

    /// The number of steps from this cell to `to`.
    pub fn distance(&self, to: &Hex) -> (n: i32)
        requires
            self.wf(),
            to.wf(),
            self@.distance(to@) <= i32::MAX,
        ensures
            n == self@.distance(to@),
    {
        let dq: i64 = self.q as i64 - to.q as i64;
        let dr: i64 = self.r as i64 - to.r as i64;
        let ds: i64 = self.s as i64 - to.s as i64;
        let total: i64 = abs_wide(dq) + abs_wide(dr) + abs_wide(ds);
        (total / 2) as i32
    }

    /// This cell turned by a sixth of a turn to the left about the origin.
    pub fn rotate_left(&self) -> (h: Hex)
        requires
            self.wf(),
            self@.rotated_left().fits(),
        ensures
            h.wf(),
            h@ == self@.rotated_left(),
    {
        Hex::new(-self.s, -self.q, -self.r)
    }

    /// This cell turned by a sixth of a turn to the right about the origin.
    pub fn rotate_right(&self) -> (h: Hex)
        requires
            self.wf(),
            self@.rotated_right().fits(),
        ensures
            h.wf(),
            h@ == self@.rotated_right(),
    {
        Hex::new(-self.r, -self.s, -self.q)
    }

    /// The six directions, in the order in which neighbours are listed.
    pub fn directions(&self) -> (all: Vec<i32>)
        ensures
            all@ == seq![0i32, 1i32, 2i32, 3i32, 4i32, 5i32],
    {
        vec![0, 1, 2, 3, 4, 5]
    }

    /// The direction that leads back from a step in `direction`.
    pub fn opposite_direction(&self, direction: i32) -> (back: i32)
        requires
            0 <= direction < 6,
        ensures
            back == opposite(direction as int),
    {
        (direction + 3) % 6
    }

    /// The unit step in `direction`, which must be one of the six directions.
    pub fn direction(&self, direction: i32) -> (h: Hex)
        requires
            0 <= direction < 6,
        ensures
            h.wf(),
            h@ == unit(direction as int),
    {
        if direction == 0 {
            Hex::new(1, 0, -1)
        } else if direction == 1 {
            Hex::new(1, -1, 0)
        } else if direction == 2 {
            Hex::new(0, -1, 1)
        } else if direction == 3 {
            Hex::new(-1, 0, 1)
        } else if direction == 4 {
            Hex::new(-1, 1, 0)
        } else {
            Hex::new(0, 1, -1)
        }
    }

    /// The cell one step away in `direction`.
    pub fn neighbor(&self, direction: i32) -> (h: Hex)
        requires
            self.wf(),
            0 <= direction < 6,
            self@.neighbor(direction as int).fits(),
        ensures
            h.wf(),
            h@ == self@.neighbor(direction as int),
    {
        *self + self.direction(direction)
    }

    /// The six cells one step away, in the order of the directions.
    pub fn neighbors(&self) -> (cells: Vec<Hex>)
        requires
            self.wf(),
            self.is_inner(),
        ensures
            cells@.len() == 6,
            forall|d: int| 0 <= d < 6 ==> (#[trigger] cells@[d]).wf() && cells@[d]@ == self@.neighbor(d),
    {
        let mut cells: Vec<Hex> = Vec::new();
        let mut direction: i32 = 0;
        while direction < 6
            invariant
                self.wf(),
                self.is_inner(),
                0 <= direction <= 6,
                cells@.len() == direction,
                forall|d: int|
                    0 <= d < direction ==> (#[trigger] cells@[d]).wf() && cells@[d]@
                        == self@.neighbor(d),
            decreases 6 - direction,
        {
            cells.push(self.neighbor(direction));
            direction += 1;
        }
        cells
    }

    /// The coordinates of this cell.
    pub open spec fn spec_coord(&self) -> CellCoord {
        CellCoord { x: self.q, y: self.r, z: self.s }
    }

    /// The coordinates of this cell.
    pub fn coord(&self) -> (c: CellCoord)
        ensures
            c == self.spec_coord(),
            c@ == self@,
    {
        CellCoord { x: self.q, y: self.r, z: self.s }
    }

    /// The point `num / den` of the way from this cell to `rhs`.
    pub fn lerp(&self, rhs: &Hex, num: i64, den: i64) -> (f: FractionalHex)
        requires
            self.wf(),
            rhs.wf(),
            den > 0,
        ensures
            f.wf(),
            f.den == den,
            f.numerators() == self@.lerp(rhs@, num as int, den as int),
    {
        let from_weight: i128 = den as i128 - num as i128;
        let to_weight: i128 = num as i128;
        proof {
            lemma_lerp_valid(self@, rhs@, num as int, den as int);
        }
        FractionalHex::new(
            weigh(self.q, from_weight) + weigh(rhs.q, to_weight),
            weigh(self.r, from_weight) + weigh(rhs.r, to_weight),
            weigh(self.s, from_weight) + weigh(rhs.s, to_weight),
            den,
        )
    }

    /// The cells on the straight line from this cell to `rhs`, both included:
    /// the line is cut into as many steps as the two cells are apart, and each
    /// cut is rounded to the nearest cell.
    pub fn linedraw(&self, rhs: &Hex) -> (line: Vec<Hex>)
        requires
            self.wf(),
            rhs.wf(),
            self@.distance(rhs@) <= i32::MAX,
        ensures
            line@.len() == self@.distance(rhs@) + 1,
            forall|i: int|
                0 <= i < line@.len() ==> (#[trigger] line@[i]).wf() && line@[i]@
                    == self@.line_point(rhs@, i),
            line@[0] == *self,
            line@.last() == *rhs,
    {
        let n = self.distance(rhs);
        let steps: i64 = if n < 1 {
            1
        } else {
            n as i64
        };
        proof {
            lemma_distance_symmetry(self@, rhs@);
        }
        let mut results: Vec<Hex> = Vec::new();
        let mut i: i64 = 0;
        while i <= n as i64
            invariant
                self.wf(),
                rhs.wf(),
                0 <= n == self@.distance(rhs@),
                steps == self@.line_steps(rhs@),
                0 <= i <= n + 1,
                results@.len() == i,
                forall|j: int|
                    0 <= j < i ==> (#[trigger] results@[j]).wf() && results@[j]@
                        == self@.line_point(rhs@, j),
            decreases n + 1 - i,
        {
            let vertex = self.lerp(rhs, i, steps);
            proof {
                lemma_lerp(
                    self@,
                    rhs@,
                    i as int,
                    steps as int,
                    i32::MIN as int,
                    i32::MAX as int,
                );
            }
            results.push(vertex.round());
            i += 1;
        }
        proof {
            lemma_line_endpoints(self@, rhs@);
            assert(results@[0]@ == self@);
            assert(results@[n as int]@ == rhs@);
        }
        results
    }
}

/// A point between cells: its coordinates are `q / den`, `r / den` and `s / den`.
#[derive(Debug, Clone, Copy)]
pub struct FractionalHex {
    pub q: i128,
    pub r: i128,
    pub s: i128,
    pub den: i64,
}

impl FractionalHex {
    /// The denominator is positive and the coordinates sum to zero.
    pub open spec fn wf(&self) -> bool {
        self.den > 0 && self.q + self.r + self.s == 0
    }

    /// Every coordinate lies within the range of `i32`.
    pub open spec fn in_grid(&self) -> bool {
        &&& i32::MIN * self.den <= self.q <= i32::MAX * self.den
        &&& i32::MIN * self.den <= self.r <= i32::MAX * self.den
        &&& i32::MIN * self.den <= self.s <= i32::MAX * self.den
    }

    /// The numerators of the three coordinates.
    pub open spec fn numerators(&self) -> Cube {
        Cube { q: self.q as int, r: self.r as int, s: self.s as int }
    }

    /// The cell nearest to this point.
    pub open spec fn spec_round(&self) -> Cube {
        round_cube(self.q as int, self.r as int, self.s as int, self.den as int)
    }

    /// The point with the given numerators, which must sum to zero, over the
    /// denominator `den`, which must be positive.
    pub fn new(q: i128, r: i128, s: i128, den: i64) -> (f: FractionalHex)
        requires
            q + r + s == 0,
            den > 0,
        ensures
            f.wf(),
            f.q == q,
            f.r == r,
            f.s == s,
            f.den == den,
    {
        FractionalHex { q, r, s, den }
    }

    /// The cell nearest to this point.
    pub fn round(&self) -> (h: Hex)
        requires
            self.wf(),
            self.in_grid(),
        ensures
            h.wf(),
            h@ == self.spec_round(),
    {
        let q = round_coordinate(self.q, self.den);
        let r = round_coordinate(self.r, self.den);
        let s = round_coordinate(self.s, self.den);
        let q_diff = scaled_gap(q, self.q, self.den);
        let r_diff = scaled_gap(r, self.r, self.den);
        let s_diff = scaled_gap(s, self.s, self.den);
        proof {
            lemma_round_cube(
                self.q as int,
                self.r as int,
                self.s as int,
                self.den as int,
                i32::MIN as int,
                i32::MAX as int,
            );
        }
        if q_diff > r_diff && q_diff > s_diff {
            Hex::new((-r - s) as i32, r as i32, s as i32)
        } else if r_diff > s_diff {
            Hex::new(q as i32, (-q - s) as i32, s as i32)
        } else {
            Hex::new(q as i32, r as i32, (-q - r) as i32)
        }
    }
}

/// Rounds `num / den` to the nearest integer, halves away from zero.
fn round_coordinate(num: i128, den: i64) -> (v: i64)
    requires
        den > 0,
        i32::MIN * den <= num <= i32::MAX * den,
    ensures
        v == round_half_away(num as int, den as int),
        fits_i32(v as int),
{
    let d: i128 = den as i128;
    proof {
        lemma_round_half_away(num as int, den as int);
        lemma_near_within(
            round_half_away(num as int, den as int),
            num as int,
            den as int,
            i32::MIN as int,
            i32::MAX as int,
        );
        assert(-0x8000_0000 * 0x8000_0000_0000_0000 <= i32::MIN * den && i32::MAX * den
            <= 0x8000_0000 * 0x8000_0000_0000_0000) by (nonlinear_arith)
            requires
                0 < den <= i64::MAX,
        ;
    }
    if num >= 0 {
        ((2 * num + d) / (2 * d)) as i64
    } else {
        -(((d - 2 * num) / (2 * d)) as i64)
    }
}

/// How far `v` lies from `num / den`, in units of `1 / den`.
fn scaled_gap(v: i64, num: i128, den: i64) -> (gap: i128)
    requires
        den > 0,
        fits_i32(v as int),
        i32::MIN * den <= num <= i32::MAX * den,
    ensures
        gap == abs(v * den - num),
{
    proof {
        assert(-0x8000_0000 * 0x8000_0000_0000_0000 <= i32::MIN * den && i32::MAX * den
            <= 0x8000_0000 * 0x8000_0000_0000_0000) by (nonlinear_arith)
            requires
                0 < den <= i64::MAX,
        ;
        assert(-0x8000_0000 * 0x8000_0000_0000_0000 <= v * den <= 0x8000_0000
            * 0x8000_0000_0000_0000) by (nonlinear_arith)
            requires
                0 < den <= i64::MAX,
                -0x8000_0000 <= v <= 0x8000_0000,
        ;
    }
    let gap: i128 = (v as i128) * (den as i128) - num;
    if gap < 0 {
        -gap
    } else {
        gap
    }
}

/// The product of a coordinate and a weight.
fn weigh(x: i32, w: i128) -> (p: i128)
    requires
        -0x1_0000_0000_0000_0000 <= w <= 0x1_0000_0000_0000_0000,
    ensures
        p == x * w,
        -0x8000_0000 * 0x1_0000_0000_0000_0000 <= p <= 0x8000_0000 * 0x1_0000_0000_0000_0000,
{
    proof {
        assert(-0x8000_0000 * 0x1_0000_0000_0000_0000 <= x * w <= 0x8000_0000
            * 0x1_0000_0000_0000_0000) by (nonlinear_arith)
            requires
                -0x8000_0000 <= x <= 0x8000_0000,
                -0x1_0000_0000_0000_0000 <= w <= 0x1_0000_0000_0000_0000,
        ;
    }
    (x as i128) * w
}

fn abs_i64(x: i32) -> (a: i64)
    ensures
        a == abs(x as int),
{
    if x < 0 {
        -(x as i64)
    } else {
        x as i64
    }
}

fn abs_wide(x: i64) -> (a: i64)
    requires
        x > i64::MIN,
    ensures
        a == abs(x as int),
{
    if x < 0 {
        -x
    } else {
        x
    }
}

impl AddSpecImpl for Hex {
    open spec fn obeys_add_spec() -> bool {
        true
    }

    open spec fn add_req(self, rhs: Hex) -> bool {
        self.wf() && rhs.wf() && self@.plus(rhs@).fits()
    }

    open spec fn add_spec(self, rhs: Hex) -> Hex {
        Hex { q: (self.q + rhs.q) as i32, r: (self.r + rhs.r) as i32, s: (self.s + rhs.s) as i32 }
    }
}

impl Add for Hex {
    type Output = Hex;

    fn add(self, rhs: Hex) -> Hex {
        Hex::new(self.q + rhs.q, self.r + rhs.r, self.s + rhs.s)
    }
}

impl SubSpecImpl for Hex {
    open spec fn obeys_sub_spec() -> bool {
        true
    }

    open spec fn sub_req(self, rhs: Hex) -> bool {
        self.wf() && rhs.wf() && self@.minus(rhs@).fits()
    }

    open spec fn sub_spec(self, rhs: Hex) -> Hex {
        Hex { q: (self.q - rhs.q) as i32, r: (self.r - rhs.r) as i32, s: (self.s - rhs.s) as i32 }
    }
}

impl Sub for Hex {
    type Output = Hex;

    fn sub(self, rhs: Hex) -> Hex {
        Hex::new(self.q - rhs.q, self.r - rhs.r, self.s - rhs.s)
    }
}

impl MulSpecImpl for Hex {
    open spec fn obeys_mul_spec() -> bool {
        true
    }

    open spec fn mul_req(self, rhs: Hex) -> bool {
        self@.times(rhs@).valid() && self@.times(rhs@).fits()
    }

    open spec fn mul_spec(self, rhs: Hex) -> Hex {
        Hex { q: (self.q * rhs.q) as i32, r: (self.r * rhs.r) as i32, s: (self.s * rhs.s) as i32 }
    }
}

impl Mul for Hex {
    type Output = Hex;

    fn mul(self, rhs: Hex) -> Hex {
        Hex::new(self.q * rhs.q, self.r * rhs.r, self.s * rhs.s)
    }
}

} // verus!
