use vstd::prelude::*;
use crate::vec::{Axis, Vec3};

verus! {

/// A rational ray parameter `num / den`, with `den > 0`.
#[derive(Copy, Clone, Debug)]
pub struct Param {
    pub num: i64,
    pub den: i64,
}

impl Param {
    pub open spec fn wf(self) -> bool {
        self.den > 0
    }

    /// `self < o` as rationals.
    pub open spec fn lt(self, o: Param) -> bool {
        self.num * o.den < o.num * self.den
    }

    /// `self == o` as rationals.
    pub open spec fn eqv(self, o: Param) -> bool {
        self.num * o.den == o.num * self.den
    }

    /// Builds `num / den`.
    pub fn new(num: i64, den: i64) -> (r: Param)
        requires
            den > 0,
        ensures
            r.wf(),
            r.num == num,
            r.den == den,
    {
        Param { num, den }
    }

    /// Exact comparison `self < o`.
    pub fn less(&self, o: &Param) -> (r: bool)
        ensures
            r == self.lt(*o),
    {
        proof {
            lemma_i64_product_fits(self.num, o.den);
            lemma_i64_product_fits(o.num, self.den);
        }
        (self.num as i128) * (o.den as i128) < (o.num as i128) * (self.den as i128)
    }
}

/// A product of two `i64` values fits in an `i128`.
pub proof fn lemma_i64_product_fits(a: i64, b: i64)
    ensures
        -0x4000_0000_0000_0000_0000_0000_0000_0000 <= a * b <= 0x4000_0000_0000_0000_0000_0000_0000_0000,
{
    assert(-0x4000_0000_0000_0000_0000_0000_0000_0000 <= (a as int) * (b as int)
        <= 0x4000_0000_0000_0000_0000_0000_0000_0000) by (nonlinear_arith)
        requires
            -0x8000_0000_0000_0000 <= a <= 0x7fff_ffff_ffff_ffff,
            -0x8000_0000_0000_0000 <= b <= 0x7fff_ffff_ffff_ffff,
    ;
}

/// A product of an `i32` and an `i64` fits well within an `i128`.
pub proof fn lemma_i32_i64_product_fits(a: i32, b: i64)
    ensures
        -0x8000_0000_0000_0000_0000_0000 <= a * b <= 0x8000_0000_0000_0000_0000_0000,
{
    assert(-0x8000_0000_0000_0000_0000_0000 <= (a as int) * (b as int)
        <= 0x8000_0000_0000_0000_0000_0000) by (nonlinear_arith)
        requires
            -0x8000_0000 <= a <= 0x7fff_ffff,
            -0x8000_0000_0000_0000 <= b <= 0x7fff_ffff_ffff_ffff,
    ;
}

/// Strict order on rationals is transitive.
pub proof fn lemma_lt_trans(a: Param, b: Param, c: Param)
    requires
        a.wf(),
        b.wf(),
        c.wf(),
        a.lt(b),
        b.lt(c),
    ensures
        a.lt(c),
{
    let (an, ad, bn, bd, cn, cd) = (a.num as int, a.den as int, b.num as int, b.den as int,
    c.num as int, c.den as int);
    assert(an * cd < cn * ad) by (nonlinear_arith)
        requires
            ad > 0,
            bd > 0,
            cd > 0,
            an * bd < bn * ad,
            bn * cd < cn * bd,
    {
        assert(an * bd * cd < bn * ad * cd);
        assert(bn * cd * ad < cn * bd * ad);
        assert(an * cd * bd < cn * ad * bd);
    }
}

/// A rational that is not below another is at least it; strict order is irreflexive
/// on equal values.
pub proof fn lemma_lt_total(a: Param, b: Param)
    requires
        a.wf(),
        b.wf(),
    ensures
        a.lt(b) || b.lt(a) || a.eqv(b),
        !(a.lt(b) && b.lt(a)),
        a.eqv(b) ==> !a.lt(b) && !b.lt(a),
{
}

/// `a <= b < c` or `a < b <= c` give `a < c`.
pub proof fn lemma_le_lt_trans(a: Param, b: Param, c: Param)
    requires
        a.wf(),
        b.wf(),
        c.wf(),
        (!b.lt(a) && b.lt(c)) || (a.lt(b) && !c.lt(b)),
    ensures
        a.lt(c),
{
    let (an, ad, bn, bd, cn, cd) = (a.num as int, a.den as int, b.num as int, b.den as int,
    c.num as int, c.den as int);
    assert(an * cd < cn * ad) by (nonlinear_arith)
        requires
            ad > 0,
            bd > 0,
            cd > 0,
            (an * bd <= bn * ad && bn * cd < cn * bd) || (an * bd < bn * ad && bn * cd <= cn
                * bd),
    {
        assert(an * bd * cd <= bn * ad * cd);
        assert(bn * cd * ad <= cn * bd * ad);
        assert(an * cd * bd < cn * ad * bd);
    }
}

/// Non-strict order on rationals is transitive.
pub proof fn lemma_le_trans(a: Param, b: Param, c: Param)
    requires
        a.wf(),
        b.wf(),
        c.wf(),
        !b.lt(a),
        !c.lt(b),
    ensures
        !c.lt(a),
{
    let (an, ad, bn, bd, cn, cd) = (a.num as int, a.den as int, b.num as int, b.den as int,
    c.num as int, c.den as int);
    assert(an * cd <= cn * ad) by (nonlinear_arith)
        requires
            ad > 0,
            bd > 0,
            cd > 0,
            an * bd <= bn * ad,
            bn * cd <= cn * bd,
    {
        assert(an * bd * cd <= bn * ad * cd);
        assert(bn * cd * ad <= cn * bd * ad);
        assert(an * cd * bd <= cn * ad * bd);
    }
}

/// A ray `origin + t * direction`, at a moment `time` of the exposure.
#[derive(Copy, Clone, Debug)]
pub struct Ray {
    pub origin: Vec3,
    pub direction: Vec3,
    pub time: i32,
}

/// A rational number `num / den`, with `den > 0`.
#[derive(Copy, Clone, Debug)]
pub struct Ratio {
    pub num: i128,
    pub den: i128,
}

/// A point with rational coordinates `x / den`, `y / den`, `z / den`, with `den > 0`.
#[derive(Copy, Clone, Debug)]
pub struct Point {
    pub x: i128,
    pub y: i128,
    pub z: i128,
    pub den: i128,
}

impl Point {
    /// The integer vector `v` as a point.
    pub open spec fn of(v: Vec3) -> Point {
        Point { x: v.0 as i128, y: v.1 as i128, z: v.2 as i128, den: 1 }
    }

    pub fn from_vec3(v: Vec3) -> (p: Point)
        ensures
            p == Point::of(v),
    {
        Point { x: v.0 as i128, y: v.1 as i128, z: v.2 as i128, den: 1 }
    }
    /// The numerator of the coordinate along `a`, read from the point.
    pub fn index(&self, a: Axis) -> (r: i128)
        ensures
            r == self.at(a),
    {
        match a {
            Axis::X => self.x,
            Axis::Y => self.y,
            Axis::Z => self.z,
        }
    }

    /// The numerator of the coordinate along `a`.
    pub open spec fn at(self, a: Axis) -> int {
        match a {
            Axis::X => self.x as int,
            Axis::Y => self.y as int,
            Axis::Z => self.z as int,
        }
    }
}

/// The largest magnitude of a direction component that the engine takes.
pub const MAX_DIRECTION: i32 = 0x1_0000;

impl Ray {
    /// Every component of the direction lies within `MAX_DIRECTION` of zero.
    pub open spec fn bounded(self) -> bool {
        &&& -MAX_DIRECTION <= self.direction.0 <= MAX_DIRECTION
        &&& -MAX_DIRECTION <= self.direction.1 <= MAX_DIRECTION
        &&& -MAX_DIRECTION <= self.direction.2 <= MAX_DIRECTION
    }
    pub fn new(origin: Vec3, direction: Vec3, time: i32) -> (r: Ray)
        ensures
            r.origin == origin,
            r.direction == direction,
            r.time == time,
    {
        Ray { origin, direction, time }
    }

    /// The numerator, over `t.den`, of the coordinate along `a` of the point at `t`.
    pub open spec fn at_num(self, t: Param, a: Axis) -> int {
        self.origin.at(a) * t.den + t.num * self.direction.at(a)
    }

    /// The point of the ray at `t`.
    pub open spec fn point(self, t: Param) -> Point {
        Point {
            x: self.at_num(t, Axis::X) as i128,
            y: self.at_num(t, Axis::Y) as i128,
            z: self.at_num(t, Axis::Z) as i128,
            den: t.den as i128,
        }
    }

    /// The point of the ray at parameter `t`, exact.
    pub fn point_at(&self, t: Param) -> (p: Point)
        requires
            t.wf(),
        ensures
            p == self.point(t),
            p.at(Axis::X) == self.at_num(t, Axis::X),
            p.at(Axis::Y) == self.at_num(t, Axis::Y),
            p.at(Axis::Z) == self.at_num(t, Axis::Z),
    {
        Point {
            x: coordinate_at(self.origin.0, self.direction.0, t),
            y: coordinate_at(self.origin.1, self.direction.1, t),
            z: coordinate_at(self.origin.2, self.direction.2, t),
            den: t.den as i128,
        }
    }
}

/// `o * t.den + t.num * d`, exact.
fn coordinate_at(o: i32, d: i32, t: Param) -> (r: i128)
    ensures
        r == o * t.den + t.num * d,
{
    proof {
    let (oi, di, n, m) = (o as int, d as int, t.num as int, t.den as int);
    assert(-0x4000_0000_0000_0000_0000_0000 <= oi * m <= 0x4000_0000_0000_0000_0000_0000)
        by (nonlinear_arith)
        requires
            -0x8000_0000 <= oi <= 0x7fff_ffff,
            -0x8000_0000_0000_0000 <= m <= 0x7fff_ffff_ffff_ffff,
    ;
    assert(-0x4000_0000_0000_0000_0000_0000 <= n * di <= 0x4000_0000_0000_0000_0000_0000)
        by (nonlinear_arith)
        requires
            -0x8000_0000 <= di <= 0x7fff_ffff,
            -0x8000_0000_0000_0000 <= n <= 0x7fff_ffff_ffff_ffff,
    ;
    }
    (o as i128) * (t.den as i128) + (t.num as i128) * (d as i128)
}

} // verus!
