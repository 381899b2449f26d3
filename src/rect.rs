use vstd::prelude::*;
use crate::aabb::AABB;
use crate::hittable::{hits_enclosed, is_nearest, HitRecord};
use crate::ray::{lemma_i32_i64_product_fits, Param, Point, Ratio, Ray};
use crate::vec::{Axis, Vec3};

verus! {

/// The first in-plane axis of a rectangle whose normal lies along `n`.
pub open spec fn first_axis(n: Axis) -> Axis {
    match n {
        Axis::X => Axis::Y,
        _ => Axis::X,
    }
}

/// The second in-plane axis of a rectangle whose normal lies along `n`.
pub open spec fn second_axis(n: Axis) -> Axis {
    match n {
        Axis::Z => Axis::Y,
        _ => Axis::Z,
    }
}

/// The vector with `along` on axis `n`, and `first`, `second` on the in-plane axes.
pub open spec fn compose(n: Axis, along: int, first: int, second: int) -> Vec3 {
    match n {
        Axis::X => Vec3(along as i32, first as i32, second as i32),
        Axis::Y => Vec3(first as i32, along as i32, second as i32),
        Axis::Z => Vec3(first as i32, second as i32, along as i32),
    }
}

fn plane_axes(n: Axis) -> (r: (Axis, Axis))
    ensures
        r == (first_axis(n), second_axis(n)),
{
    match n {
        Axis::X => (Axis::Y, Axis::Z),
        Axis::Y => (Axis::X, Axis::Z),
        Axis::Z => (Axis::X, Axis::Y),
    }
}

fn compose_exec(n: Axis, along: i32, first: i32, second: i32) -> (v: Vec3)
    ensures
        v == compose(n, along as int, first as int, second as int),
{
    match n {
        Axis::X => Vec3(along, first, second),
        Axis::Y => Vec3(first, along, second),
        Axis::Z => Vec3(first, second, along),
    }
}

/// A rectangle in the plane `axis = k`, spanning `[a0, a1]` on the first in-plane
/// axis and `[b0, b1]` on the second.
#[derive(Copy, Clone, Debug)]
pub struct AxisRect {
    pub axis: Axis,
    pub a0: i32,
    pub a1: i32,
    pub b0: i32,
    pub b1: i32,
    pub k: i32,
    pub material: usize,
}

/// `x` leaves room for a margin of one unit on both sides within `i32`.
pub open spec fn padded(x: int) -> bool {
    i32::MIN < x < i32::MAX
}

impl AxisRect {
    pub open spec fn wf(self) -> bool {
        &&& self.a0 <= self.a1
        &&& self.b0 <= self.b1
        &&& padded(self.a0 as int) && padded(self.a1 as int)
        &&& padded(self.b0 as int) && padded(self.b1 as int)
        &&& padded(self.k as int)
    }

    /// Where the ray meets the plane of the rectangle (when not parallel to it).
    pub open spec fn crossing(self, r: Ray) -> Param {
        let d = r.direction.at(self.axis);
        let o = r.origin.at(self.axis);
        if d > 0 {
            Param { num: (self.k - o) as i64, den: d as i64 }
        } else {
            Param { num: (o - self.k) as i64, den: (-d) as i64 }
        }
    }

    /// The ray crosses the plane inside the rectangle (edges included).
    pub open spec fn meets(self, r: Ray) -> bool {
        let t = self.crossing(r);
        let (fa, sa) = (first_axis(self.axis), second_axis(self.axis));
        &&& r.direction.at(self.axis) != 0
        &&& self.a0 * t.den <= r.at_num(t, fa) <= self.a1 * t.den
        &&& self.b0 * t.den <= r.at_num(t, sa) <= self.b1 * t.den
    }

    /// The unit normal facing against the ray.
    pub open spec fn facing_normal(self, r: Ray) -> Vec3 {
        if r.direction.at(self.axis) > 0 {
            compose(self.axis, -1, 0, 0)
        } else {
            compose(self.axis, 1, 0, 0)
        }
    }

    /// The fraction of the way from `lo` to `hi` at which the coordinate `p / m`
    /// lies: `(p / m - lo) / (hi - lo)`, and `0` for a rectangle of no width.
    pub open spec fn fraction(p: int, m: int, lo: int, hi: int) -> Ratio {
        Ratio { num: (p - lo * m) as i128, den: (m * if hi > lo { hi - lo } else { 1 }) as i128 }
    }

    /// The record of the ray meeting the rectangle at `t`; the outside is the side
    /// the positive axis points to, and `(u, v)` are the fractions of the way across
    /// the two in-plane extents.
    pub open spec fn record_at(self, r: Ray, t: Param) -> HitRecord {
        let (fa, sa) = (first_axis(self.axis), second_axis(self.axis));
        HitRecord {
            t,
            p: r.point(t),
            normal: Point::of(self.facing_normal(r)),
            front_face: r.direction.at(self.axis) < 0,
            material: self.material,
            uv: Some(
                (
                    AxisRect::fraction(r.at_num(t, fa), t.den as int, self.a0 as int, self.a1 as int),
                    AxisRect::fraction(r.at_num(t, sa), t.den as int, self.b0 as int, self.b1 as int),
                ),
            ),
            closed: true,
        }
    }

    /// The surface coordinates of a meeting lie in `[0, 1] x [0, 1]`.
    pub proof fn lemma_uv_in_unit_square(self, r: Ray)
        requires
            self.wf(),
            self.meets(r),
        ensures
            ({
                let (u, v) = self.record_at(r, self.crossing(r)).uv.unwrap();
                &&& 0 <= u.num <= u.den && u.den > 0
                &&& 0 <= v.num <= v.den && v.den > 0
            }),
    {
        let t = self.crossing(r);
        let m = t.den as int;
        let (fa, sa) = (first_axis(self.axis), second_axis(self.axis));
        let (pu, pv) = (r.at_num(t, fa), r.at_num(t, sa));
        let (a0, a1, b0, b1) = (self.a0 as int, self.a1 as int, self.b0 as int, self.b1 as int);
        let (wa, wb) = (if a1 > a0 { a1 - a0 } else { 1 }, if b1 > b0 { b1 - b0 } else { 1 });
        assert(0 <= pu - a0 * m <= m * wa && m * wa > 0) by (nonlinear_arith)
            requires
                m > 0,
                a0 * m <= pu <= a1 * m,
                wa == (if a1 > a0 { a1 - a0 } else { 1 }),
        ;
        assert(0 <= pv - b0 * m <= m * wb && m * wb > 0) by (nonlinear_arith)
            requires
                m > 0,
                b0 * m <= pv <= b1 * m,
                wb == (if b1 > b0 { b1 - b0 } else { 1 }),
        ;
        lemma_i32_i64_product_fits(self.a0, t.den);
        lemma_i32_i64_product_fits(self.b0, t.den);
        assert(m * wa <= 0x8000_0000_0000_0000 * 0x1_0000_0000 && m * wb <= 0x8000_0000_0000_0000
            * 0x1_0000_0000) by (nonlinear_arith)
            requires
                0 < m <= 0x8000_0000_0000_0000,
                0 < wa <= 0x1_0000_0000,
                0 < wb <= 0x1_0000_0000,
        ;
    }

    /// All meetings of the ray (over every parameter) with the rectangle.
    pub open spec fn hits(self, r: Ray) -> Seq<HitRecord> {
        if self.meets(r) {
            seq![self.record_at(r, self.crossing(r))]
        } else {
            seq![]
        }
    }

    /// The rectangle widened by one unit on every side, so that every point of it
    /// lies strictly inside.
    pub open spec fn bounds(self) -> AABB {
        AABB {
            min: compose(self.axis, self.k - 1, self.a0 - 1, self.b0 - 1),
            max: compose(self.axis, self.k + 1, self.a1 + 1, self.b1 + 1),
        }
    }

    pub fn new(axis: Axis, a0: i32, a1: i32, b0: i32, b1: i32, k: i32, material: usize) -> (r:
        AxisRect)
        requires
            a0 <= a1,
            b0 <= b1,
            padded(a0 as int) && padded(a1 as int) && padded(b0 as int) && padded(b1 as int),
            padded(k as int),
        ensures
            r == (AxisRect { axis, a0, a1, b0, b1, k, material }),
            r.wf(),
    {
        AxisRect { axis, a0, a1, b0, b1, k, material }
    }

    /// The meeting with the ray when `t_min <= t <= t_max`.
    pub fn hit(&self, r: &Ray, t_min: Param, t_max: Param) -> (res: Option<HitRecord>)
        requires
            self.wf(),
            t_min.wf(),
            t_max.wf(),
        ensures
            is_nearest(self.hits(*r), t_min, t_max, res),
    {
        let d = r.direction.index(self.axis);
        if d == 0 {
            return None;
        }
        let o = r.origin.index(self.axis);
        let t = if d > 0 {
            Param::new(self.k as i64 - o as i64, d as i64)
        } else {
            Param::new(o as i64 - self.k as i64, -(d as i64))
        };
        assert(t == self.crossing(*r));
        if t.less(&t_min) || t_max.less(&t) {
            return None;
        }
        let p = r.point_at(t);
        let (fa, sa) = plane_axes(self.axis);
        let u = p.index(fa);
        let v = p.index(sa);
        let den = t.den as i128;
        proof {
            lemma_i32_i64_product_fits(self.a0, t.den);
            lemma_i32_i64_product_fits(self.a1, t.den);
            lemma_i32_i64_product_fits(self.b0, t.den);
            lemma_i32_i64_product_fits(self.b1, t.den);
        }
        let lo_u = self.a0 as i128 * den;
        let hi_u = self.a1 as i128 * den;
        let lo_v = self.b0 as i128 * den;
        let hi_v = self.b1 as i128 * den;
        if u < lo_u || u > hi_u || v < lo_v || v > hi_v {
            return None;
        }
        let normal = if d > 0 {
            compose_exec(self.axis, -1, 0, 0)
        } else {
            compose_exec(self.axis, 1, 0, 0)
        };
        let span_u: i128 = if self.a1 > self.a0 { self.a1 as i128 - self.a0 as i128 } else { 1 };
        let span_v: i128 = if self.b1 > self.b0 { self.b1 as i128 - self.b0 as i128 } else { 1 };
        assert(den * span_u <= 0x8000_0000_0000_0000 * 0x1_0000_0000 && den * span_v
            <= 0x8000_0000_0000_0000 * 0x1_0000_0000) by (nonlinear_arith)
            requires
                0 < den <= 0x8000_0000_0000_0000,
                0 < span_u <= 0x1_0000_0000,
                0 < span_v <= 0x1_0000_0000,
        ;
        let uv = Some(
            (Ratio { num: u - lo_u, den: den * span_u }, Ratio { num: v - lo_v, den: den * span_v }),
        );
        let h = HitRecord::new(t, p, Point::from_vec3(normal), d < 0, self.material, uv, true);
        assert(self.hits(*r)[0] == h);
        Some(h)
    }

    pub fn bounding_box(&self) -> (b: AABB)
        requires
            self.wf(),
        ensures
            b == self.bounds(),
            b.wf(),
    {
        AABB {
            min: compose_exec(self.axis, self.k - 1, self.a0 - 1, self.b0 - 1),
            max: compose_exec(self.axis, self.k + 1, self.a1 + 1, self.b1 + 1),
        }
    }

    /// The widened box is well formed.
    pub proof fn lemma_bounds_wf(self)
        requires
            self.wf(),
        ensures
            self.bounds().wf(),
    {
        match self.axis {
            Axis::X => {},
            Axis::Y => {},
            Axis::Z => {},
        }
    }

    /// Every meeting touches the widened box (see `AABB::touches_at`).
    pub proof fn lemma_hits_enclosed(self, r: Ray)
        requires
            self.wf(),
        ensures
            hits_enclosed(self.bounds(), self.hits(r), r),
            forall|i: int| 0 <= i < self.hits(r).len() ==> (#[trigger] self.hits(r)[i]).t.wf(),
    {
        if self.meets(r) {
            let t = self.crossing(r);
            let (m, n) = (t.den as int, t.num as int);
            let (d, o, k) = (r.direction.at(self.axis), r.origin.at(self.axis), self.k as int);
            assert(r.at_num(t, self.axis) == k * m) by (nonlinear_arith)
                requires
                    r.at_num(t, self.axis) == o * m + n * d,
                    (d > 0 && n == k - o && m == d) || (d < 0 && n == o - k && m == -d),
            ;
            assert((k - 1) * m < k * m < (k + 1) * m) by (nonlinear_arith)
                requires
                    m > 0,
            ;
            let (pa, pb) = (r.at_num(t, first_axis(self.axis)), r.at_num(t, second_axis(self.axis)));
            let (a0, a1, b0, b1) = (self.a0 as int, self.a1 as int, self.b0 as int, self.b1 as int);
            assert((a0 - 1) * m < pa < (a1 + 1) * m && (b0 - 1) * m < pb < (b1 + 1) * m)
                by (nonlinear_arith)
                requires
                    m > 0,
                    a0 * m <= pa <= a1 * m,
                    b0 * m <= pb <= b1 * m,
            ;
            let b = self.bounds();
            let h = self.hits(r)[0];
            assert(b.inside_at(r, h.t)) by {
                match self.axis {
                    Axis::X => {},
                    Axis::Y => {},
                    Axis::Z => {},
                }
            b.lemma_inside_touches(r, h.t);
            }
        }
    }
}

/// A rectangle in a plane `z = k`.
#[derive(Copy, Clone, Debug)]
pub struct XYRect(pub AxisRect);

/// A rectangle in a plane `y = k`.
#[derive(Copy, Clone, Debug)]
pub struct XZRect(pub AxisRect);

/// A rectangle in a plane `x = k`.
#[derive(Copy, Clone, Debug)]
pub struct YZRect(pub AxisRect);

impl XYRect {
    /// The rectangle `[x0, x1] x [y0, y1]` in the plane `z = k`.
    pub fn new(x0: i32, x1: i32, y0: i32, y1: i32, k: i32, material: usize) -> (r: XYRect)
        requires
            x0 <= x1,
            y0 <= y1,
            padded(x0 as int) && padded(x1 as int) && padded(y0 as int) && padded(y1 as int),
            padded(k as int),
        ensures
            r.0 == (AxisRect { axis: Axis::Z, a0: x0, a1: x1, b0: y0, b1: y1, k, material }),
            r.0.wf(),
    {
        XYRect(AxisRect::new(Axis::Z, x0, x1, y0, y1, k, material))
    }
}

impl XZRect {
    /// The rectangle `[x0, x1] x [z0, z1]` in the plane `y = k`.
    pub fn new(x0: i32, x1: i32, z0: i32, z1: i32, k: i32, material: usize) -> (r: XZRect)
        requires
            x0 <= x1,
            z0 <= z1,
            padded(x0 as int) && padded(x1 as int) && padded(z0 as int) && padded(z1 as int),
            padded(k as int),
        ensures
            r.0 == (AxisRect { axis: Axis::Y, a0: x0, a1: x1, b0: z0, b1: z1, k, material }),
            r.0.wf(),
    {
        XZRect(AxisRect::new(Axis::Y, x0, x1, z0, z1, k, material))
    }
}

impl YZRect {
    /// The rectangle `[y0, y1] x [z0, z1]` in the plane `x = k`.
    pub fn new(y0: i32, y1: i32, z0: i32, z1: i32, k: i32, material: usize) -> (r: YZRect)
        requires
            y0 <= y1,
            z0 <= z1,
            padded(y0 as int) && padded(y1 as int) && padded(z0 as int) && padded(z1 as int),
            padded(k as int),
        ensures
            r.0 == (AxisRect { axis: Axis::X, a0: y0, a1: y1, b0: z0, b1: z1, k, material }),
            r.0.wf(),
    {
        YZRect(AxisRect::new(Axis::X, y0, y1, z0, z1, k, material))
    }
}

} // verus!
