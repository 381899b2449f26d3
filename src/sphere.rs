use vstd::prelude::*;
use crate::aabb::AABB;
use crate::hittable::{hits_enclosed, is_nearest, params_wf, HitRecord};
use crate::ray::{Param, Point, Ray, MAX_DIRECTION};
use crate::rect::padded;
use crate::vec::{Axis, Vec3};

verus! {
/// Steps per unit of the ray parameter's denominator at which sphere crossings are
/// resolved: the reported crossing lies within `1 / SUBSTEPS` of a grid unit of the
/// exact one.
pub const SUBSTEPS: i64 = 1024;

/// `s` is the integer square root of `x`, rounded down.
pub open spec fn is_floor_sqrt(x: int, s: int) -> bool {
    0 <= s && s * s <= x < (s + 1) * (s + 1)
}

/// The integer square root of `x >= 0`, rounded down.
pub open spec fn floor_sqrt(x: int) -> int {
    choose|s: int| is_floor_sqrt(x, s)
}

proof fn lemma_floor_sqrt_unique(x: int, s: int, u: int)
    requires
        is_floor_sqrt(x, s),
        is_floor_sqrt(x, u),
    ensures
        s == u,
{
    if s < u {
        assert((s + 1) * (s + 1) <= u * u) by (nonlinear_arith)
            requires
                0 <= s < u,
        ;
    } else if u < s {
        assert((u + 1) * (u + 1) <= s * s) by (nonlinear_arith)
            requires
                0 <= u < s,
        ;
    }
}

proof fn lemma_floor_sqrt_exists(x: int)
    requires
        x >= 0,
    ensures
        is_floor_sqrt(x, floor_sqrt(x)),
    decreases x,
{
    if x == 0 {
        assert(is_floor_sqrt(0, 0));
    } else {
        lemma_floor_sqrt_exists(x - 1);
        let s = floor_sqrt(x - 1);
        if (s + 1) * (s + 1) <= x {
            assert(is_floor_sqrt(x, s + 1)) by (nonlinear_arith)
                requires
                    0 <= s,
                    x - 1 < (s + 1) * (s + 1),
                    (s + 1) * (s + 1) <= x,
            ;
        } else {
            assert(is_floor_sqrt(x, s));
        }
    }
}

/// The integer square root by bisection.
fn isqrt(x: i128) -> (s: i128)
    requires
        0 <= x < 0x400_0000_0000_0000_0000_0000_0000_0000,
    ensures
        s == floor_sqrt(x as int),
        is_floor_sqrt(x as int, s as int),
{
    let mut lo: i128 = 0;
    let mut hi: i128 = 0x2000_0000_0000_0001;
    assert(hi * hi > x) by (nonlinear_arith)
        requires
            hi == 0x2000_0000_0000_0001,
            x < 0x400_0000_0000_0000_0000_0000_0000_0000,
    ;
    while hi - lo > 1
        invariant
            0 <= lo < hi <= 0x2000_0000_0000_0001,
            lo * lo <= x < hi * hi,
        decreases hi - lo,
    {
        let mid = lo + (hi - lo) / 2;
        assert(mid * mid <= 0x401_0000_0000_0000_0000_0000_0000_0000) by (nonlinear_arith)
            requires
                0 <= mid <= 0x2000_0000_0000_0001,
        ;
        if mid * mid <= x {
            lo = mid;
        } else {
            hi = mid;
        }
    }
    assert(is_floor_sqrt(x as int, lo as int));
    proof {
        lemma_floor_sqrt_unique(x as int, lo as int, floor_sqrt(x as int));
    }
    lo
}

/// A ball of integer centre and radius.
#[derive(Copy, Clone, Debug)]
pub struct Sphere {
    pub center: Vec3,
    pub radius: i32,
    pub material: usize,
}

/// `|x| <= b`.
pub open spec fn within(x: int, b: int) -> bool {
    -b <= x <= b
}

proof fn lemma_mul_within(x: int, y: int, bx: int, by: int)
    requires
        within(x, bx),
        within(y, by),
    ensures
        within(x * y, bx * by),
{
    assert(within(x * y, bx * by)) by (nonlinear_arith)
        requires
            within(x, bx),
            within(y, by),
    ;
}

proof fn lemma_square_expand(x: int, m: int, n: int, d: int)
    ensures
        (x * m + n * d) * (x * m + n * d) == (m * m) * (x * x) + 2 * ((m * n) * (x * d)) + (n * n)
            * (d * d),
{
    let (a, b) = (x * m, n * d);
    assert((a + b) * (a + b) == a * a + 2 * (a * b) + b * b) by (nonlinear_arith);
    vstd::arithmetic::mul::lemma_mul_is_associative(x, m, x * m);
    assert(a * a == (m * m) * (x * x)) by (nonlinear_arith)
        requires
            a == x * m,
    ;
    assert(a * b == (m * n) * (x * d)) by (nonlinear_arith)
        requires
            a == x * m,
            b == n * d,
    ;
    assert(b * b == (n * n) * (d * d)) by (nonlinear_arith)
        requires
            b == n * d,
    ;
}

impl Sphere {
    pub open spec fn wf(self) -> bool {
        &&& self.radius > 0
        &&& padded(self.center.0 - self.radius) && padded(self.center.0 + self.radius)
        &&& padded(self.center.1 - self.radius) && padded(self.center.1 + self.radius)
        &&& padded(self.center.2 - self.radius) && padded(self.center.2 + self.radius)
    }

    /// The ray's origin relative to the centre, along `a`.
    pub open spec fn oc(self, r: Ray, a: Axis) -> int {
        r.origin.at(a) - self.center.at(a)
    }

    /// `a`, `h`, `c` of the equation `a t^2 + 2 h t + c = 0` for the parameters at
    /// which the ray lies on the sphere.
    pub open spec fn quad_a(self, r: Ray) -> int {
        r.direction.dot_spec(r.direction)
    }

    pub open spec fn quad_h(self, r: Ray) -> int {
        self.oc(r, Axis::X) * r.direction.0 + self.oc(r, Axis::Y) * r.direction.1 + self.oc(
            r,
            Axis::Z,
        ) * r.direction.2
    }

    pub open spec fn quad_c(self, r: Ray) -> int {
        self.oc(r, Axis::X) * self.oc(r, Axis::X) + self.oc(r, Axis::Y) * self.oc(r, Axis::Y)
            + self.oc(r, Axis::Z) * self.oc(r, Axis::Z) - self.radius * self.radius
    }

    /// `h^2 - a c`: positive when the ray crosses the sphere at two points.
    pub open spec fn discriminant(self, r: Ray) -> int {
        self.quad_h(r) * self.quad_h(r) - self.quad_a(r) * self.quad_c(r)
    }

    /// The roots `(-K h - s) / (K a)` and `(-K h + s) / (K a)`, `K = SUBSTEPS`, with
    /// `s` the square root of `K^2` times the discriminant, rounded down. Each lies in
    /// the closed ball and within one step `1 / (K a)` of the exact crossing beyond it:
    /// see `brackets`.
    pub open spec fn near_root(self, r: Ray) -> Param {
        Param {
            num: (-SUBSTEPS * self.quad_h(r) - floor_sqrt(self.scaled_discriminant(r))) as i64,
            den: (SUBSTEPS * self.quad_a(r)) as i64,
        }
    }

    pub open spec fn far_root(self, r: Ray) -> Param {
        Param {
            num: (-SUBSTEPS * self.quad_h(r) + floor_sqrt(self.scaled_discriminant(r))) as i64,
            den: (SUBSTEPS * self.quad_a(r)) as i64,
        }
    }

    pub open spec fn scaled_discriminant(self, r: Ray) -> int {
        SUBSTEPS * SUBSTEPS * self.discriminant(r)
    }

    /// The squared distance from the centre, times `m^2`, of the ray's point at `x / m`.
    pub open spec fn dist2(self, r: Ray, x: int, m: int) -> int {
        let q0 = self.oc(r, Axis::X) * m + x * r.direction.0;
        let q1 = self.oc(r, Axis::Y) * m + x * r.direction.1;
        let q2 = self.oc(r, Axis::Z) * m + x * r.direction.2;
        q0 * q0 + q1 * q1 + q2 * q2
    }

    /// The ray's point at `x / m` lies in the closed ball.
    pub open spec fn in_ball(self, r: Ray, x: int, m: int) -> bool {
        self.dist2(r, x, m) <= (self.radius * m) * (self.radius * m)
    }

    /// The reported roots bracket the exact crossings to within one step: the point
    /// at the near root is in the ball and one step before it is outside; the point
    /// at the far root is in the ball and one step after it is outside. A step moves
    /// the point by `|d| / (K a) = 1 / (K |d|)`, at most `1 / K` of a grid unit, and
    /// so the normal's length is within `1 / (K radius)` of one.
    pub open spec fn brackets(self, r: Ray) -> bool {
        let (n, f) = (self.near_root(r), self.far_root(r));
        &&& n.den == SUBSTEPS * self.quad_a(r) && f.den == n.den
        &&& self.in_ball(r, n.num as int, n.den as int)
        &&& !self.in_ball(r, n.num - 1, n.den as int)
        &&& self.in_ball(r, f.num as int, f.den as int)
        &&& !self.in_ball(r, f.num + 1, f.den as int)
    }

    /// The numerator along `a` of `p - center`, over `t.den`.
    pub open spec fn offset(self, r: Ray, t: Param, a: Axis) -> int {
        r.at_num(t, a) - self.center.at(a) * t.den
    }

    /// The outward normal `(p - center) / radius` at the ray's point at `t`.
    pub open spec fn outward(self, r: Ray, t: Param) -> Point {
        Point {
            x: self.offset(r, t, Axis::X) as i128,
            y: self.offset(r, t, Axis::Y) as i128,
            z: self.offset(r, t, Axis::Z) as i128,
            den: (t.den * self.radius) as i128,
        }
    }

    /// The ray leaves the ball at `t` (its direction points along the outward normal).
    pub open spec fn leaving(self, r: Ray, t: Param) -> bool {
        r.direction.0 * self.offset(r, t, Axis::X) + r.direction.1 * self.offset(r, t, Axis::Y)
            + r.direction.2 * self.offset(r, t, Axis::Z) > 0
    }

    /// The record at `t`: the normal faces against the ray, and the ray comes from
    /// outside unless it is leaving.
    pub open spec fn record_at(self, r: Ray, t: Param) -> HitRecord {
        let n = self.outward(r, t);
        HitRecord {
            t,
            p: r.point(t),
            normal: if self.leaving(r, t) {
                Point { x: (-n.x) as i128, y: (-n.y) as i128, z: (-n.z) as i128, den: n.den }
            } else {
                n
            },
            front_face: !self.leaving(r, t),
            material: self.material,
            uv: None,
            closed: false,
        }
    }

    /// The two crossings of the ray with the sphere, nearer first; none when the
    /// ray misses it or only touches it.
    pub open spec fn hits(self, r: Ray) -> Seq<HitRecord> {
        if self.discriminant(r) > 0 {
            seq![self.record_at(r, self.near_root(r)), self.record_at(r, self.far_root(r))]
        } else {
            seq![]
        }
    }

    /// The ball's box, `center -/+ radius`.
    pub open spec fn bounds(self) -> AABB {
        AABB {
            min: Vec3(
                (self.center.0 - self.radius) as i32,
                (self.center.1 - self.radius) as i32,
                (self.center.2 - self.radius) as i32,
            ),
            max: Vec3(
                (self.center.0 + self.radius) as i32,
                (self.center.1 + self.radius) as i32,
                (self.center.2 + self.radius) as i32,
            ),
        }
    }

    pub fn new(center: Vec3, radius: i32, material: usize) -> (s: Sphere)
        requires
            (Sphere { center, radius, material }).wf(),
        ensures
            s == (Sphere { center, radius, material }),
    {
        Sphere { center, radius, material }
    }

    pub fn bounding_box(&self) -> (b: AABB)
        requires
            self.wf(),
        ensures
            b == self.bounds(),
            b.wf(),
    {
        let r = self.radius;
        AABB {
            min: Vec3(self.center.0 - r, self.center.1 - r, self.center.2 - r),
            max: Vec3(self.center.0 + r, self.center.1 + r, self.center.2 + r),
        }
    }

    /// Sizes of the quantities of the intersection, for a bounded ray.
    proof fn lemma_sizes(self, r: Ray)
        requires
            self.wf(),
            r.bounded(),
        ensures
            0 <= self.quad_a(r) <= 0x3_0000_0000,
            within(self.quad_h(r), 0x3_0000_0000_0000),
            within(self.quad_c(r), 0x4_0000_0000_0000_0000),
            within(self.discriminant(r), 0x20_0000_0000_0000_0000_0000_0000),
            self.quad_a(r) == 0 ==> self.discriminant(r) == 0,
            forall|a: Axis| {
                &&& within(#[trigger] self.oc(r, a), 0x1_0000_0000)
                &&& within(self.oc(r, a) * r.direction.at(a), 0x1_0000_0000_0000)
                &&& 0 <= self.oc(r, a) * self.oc(r, a) <= 0x1_0000_0000_0000_0000
                &&& 0 <= r.direction.at(a) * r.direction.at(a) <= 0x1_0000_0000
            },
            0 <= self.radius * self.radius <= 0x4000_0000_0000_0000,
    {
        let b = MAX_DIRECTION as int;
        let (d0, d1, d2) = (r.direction.0 as int, r.direction.1 as int, r.direction.2 as int);
        let (x, y, z) = (self.oc(r, Axis::X), self.oc(r, Axis::Y), self.oc(r, Axis::Z));
        let big = 0x1_0000_0000;
        lemma_mul_within(d0, d0, b, b);
        lemma_mul_within(d1, d1, b, b);
        lemma_mul_within(d2, d2, b, b);
        assert(d0 * d0 >= 0 && d1 * d1 >= 0 && d2 * d2 >= 0) by (nonlinear_arith);
        lemma_mul_within(x, d0, big, b);
        lemma_mul_within(y, d1, big, b);
        lemma_mul_within(z, d2, big, b);
        lemma_mul_within(x, x, big, big);
        lemma_mul_within(y, y, big, big);
        lemma_mul_within(z, z, big, big);
        let rr = self.radius as int;
        lemma_mul_within(rr, rr, 0x8000_0000, 0x8000_0000);
        assert(x * x >= 0 && y * y >= 0 && z * z >= 0 && rr * rr >= 0) by (nonlinear_arith);
        assert forall|a: Axis| {
            &&& within(#[trigger] self.oc(r, a), 0x1_0000_0000)
            &&& within(self.oc(r, a) * r.direction.at(a), 0x1_0000_0000_0000)
            &&& 0 <= self.oc(r, a) * self.oc(r, a) <= 0x1_0000_0000_0000_0000
            &&& 0 <= r.direction.at(a) * r.direction.at(a) <= 0x1_0000_0000
        } by {
            match a {
                Axis::X => {},
                Axis::Y => {},
                Axis::Z => {},
            }
        }
        let (a, h, c) = (self.quad_a(r), self.quad_h(r), self.quad_c(r));
        lemma_mul_within(h, h, 0x3_0000_0000_0000, 0x3_0000_0000_0000);
        lemma_mul_within(a, c, 0x3_0000_0000, 0x4_0000_0000_0000_0000);
        assert(0x3_0000_0000_0000 * 0x3_0000_0000_0000 + 0x3_0000_0000 * 0x4_0000_0000_0000_0000
            <= 0x20_0000_0000_0000_0000_0000_0000);
        if a == 0 {
            assert(d0 == 0 && d1 == 0 && d2 == 0) by (nonlinear_arith)
                requires
                    d0 * d0 + d1 * d1 + d2 * d2 == 0,
                    d0 * d0 >= 0 && d1 * d1 >= 0 && d2 * d2 >= 0,
            ;
            assert(x * d0 == 0 && y * d1 == 0 && z * d2 == 0) by (nonlinear_arith)
                requires
                    d0 == 0 && d1 == 0 && d2 == 0,
            ;
            assert(h * h == 0 && a * c == 0) by (nonlinear_arith)
                requires
                    h == 0 && a == 0,
            ;
        }
    }

    /// With `m = K a` and `a x + h m = a w` or `-(a w)`, the point at `x / m` is as
    /// far outside the ball as `w^2` exceeds `K^2` times the discriminant:
    /// `dist2 - (radius m)^2 = a (w^2 - K^2 disc)`.
    proof fn lemma_power(self, r: Ray, x: int, w: int)
        requires
            self.quad_a(r) > 0,
            ({
                let (a, h, m) = (self.quad_a(r), self.quad_h(r), SUBSTEPS * self.quad_a(r));
                a * x + h * m == a * w || a * x + h * m == -(a * w)
            }),
        ensures
            self.dist2(r, x, SUBSTEPS * self.quad_a(r)) - (self.radius * (SUBSTEPS * self.quad_a(
                r,
            ))) * (self.radius * (SUBSTEPS * self.quad_a(r))) == self.quad_a(r) * (w * w
                - self.scaled_discriminant(r)),
    {
        let a = self.quad_a(r);
        let m = SUBSTEPS * a;
        let h = self.quad_h(r);
        let c = self.quad_c(r);
        let rad = self.radius as int;
        let k = SUBSTEPS as int;
        let (d0, d1, d2) = (r.direction.0 as int, r.direction.1 as int, r.direction.2 as int);
        let (ox, oy, oz) = (self.oc(r, Axis::X), self.oc(r, Axis::Y), self.oc(r, Axis::Z));
        let disc = h * h - a * c;
        lemma_square_expand(ox, m, x, d0);
        lemma_square_expand(oy, m, x, d1);
        lemma_square_expand(oz, m, x, d2);
        let (mm, mx, xx) = (m * m, m * x, x * x);
        assert(mm * (ox * ox) + mm * (oy * oy) + mm * (oz * oz) == mm * (c + rad * rad))
            by (nonlinear_arith)
            requires
                c == ox * ox + oy * oy + oz * oz - rad * rad,
        ;
        assert(mx * (ox * d0) + mx * (oy * d1) + mx * (oz * d2) == mx * h) by (nonlinear_arith)
            requires
                h == ox * d0 + oy * d1 + oz * d2,
        ;
        assert(xx * (d0 * d0) + xx * (d1 * d1) + xx * (d2 * d2) == xx * a) by (nonlinear_arith)
            requires
                a == d0 * d0 + d1 * d1 + d2 * d2,
        ;
        let total = self.dist2(r, x, m);
        assert(total == mm * (c + rad * rad) + 2 * (mx * h) + xx * a);
        assert(mm * (c + rad * rad) == mm * c + mm * (rad * rad)) by (nonlinear_arith);
        assert(mm * (rad * rad) == (rad * m) * (rad * m)) by (nonlinear_arith)
            requires
                mm == m * m,
        ;
        // a (total - (rad m)^2) = a m^2 c + 2 a m x h + a^2 x^2 = (a x + h m)^2 - m^2 disc
        let axhm = a * x * h * m;
        assert(a * (mm * c) == (a * c) * mm) by (nonlinear_arith);
        assert(a * (2 * (mx * h)) == 2 * axhm) by (nonlinear_arith)
            requires
                mx == m * x,
                axhm == a * x * h * m,
        ;
        assert(a * (xx * a) == (a * a) * xx) by (nonlinear_arith);
        let (pa, pb) = (a * x, h * m);
        assert((pa + pb) * (pa + pb) == pa * pa + 2 * (pa * pb) + pb * pb) by (nonlinear_arith);
        assert(pa * pa == (a * a) * xx) by (nonlinear_arith)
            requires
                pa == a * x,
                xx == x * x,
        ;
        assert(pa * pb == axhm) by (nonlinear_arith)
            requires
                pa == a * x,
                pb == h * m,
                axhm == a * x * h * m,
        ;
        assert(pb * pb == (h * h) * mm) by (nonlinear_arith)
            requires
                pb == h * m,
                mm == m * m,
        ;
        assert(mm * disc == (h * h) * mm - (a * c) * mm) by (nonlinear_arith)
            requires
                disc == h * h - a * c,
        ;
        assert(a * (mm * c + 2 * (mx * h) + xx * a) == a * (mm * c) + a * (2 * (mx * h)) + a * (
        xx * a)) by (nonlinear_arith);
        assert((a * x + h * m) * (a * x + h * m) == (a * w) * (a * w)) by (nonlinear_arith)
            requires
                a * x + h * m == a * w || a * x + h * m == -(a * w),
        ;
        assert(mm * disc == a * (a * (k * k * disc))) by (nonlinear_arith)
            requires
                mm == m * m,
                m == k * a,
        ;
        assert((a * w) * (a * w) == a * (a * (w * w))) by (nonlinear_arith);
        let e = mm * c + 2 * (mx * h) + xx * a;
        assert(e == a * (w * w - k * k * disc)) by (nonlinear_arith)
            requires
                a > 0,
                a * e == a * (a * (w * w)) - a * (a * (k * k * disc)),
        ;
    }

    /// Both reported roots bracket the exact crossings (see `brackets`).
    proof fn lemma_brackets(self, r: Ray)
        requires
            self.wf(),
            r.bounded(),
            self.discriminant(r) > 0,
        ensures
            self.brackets(r),
            self.quad_a(r) > 0,
            is_floor_sqrt(self.scaled_discriminant(r), floor_sqrt(self.scaled_discriminant(r))),
            0 <= floor_sqrt(self.scaled_discriminant(r)) <= 0x2000_0000_0000_0000,
            within(self.near_root(r).num as int, 0x4000_0000_0000_0000),
            within(self.far_root(r).num as int, 0x4000_0000_0000_0000),
            self.near_root(r).num == -SUBSTEPS * self.quad_h(r) - floor_sqrt(self.scaled_discriminant(r)),
            self.far_root(r).num == -SUBSTEPS * self.quad_h(r) + floor_sqrt(self.scaled_discriminant(r)),
            0 < self.near_root(r).den <= 0x1000_0000_0000,
    {
        self.lemma_sizes(r);
        let (a, h) = (self.quad_a(r), self.quad_h(r));
        let sd = self.scaled_discriminant(r);
        lemma_floor_sqrt_exists(sd);
        let s = floor_sqrt(sd);
        assert(sd <= 0x400_0000_0000_0000_0000_0000_0000_0000);
        assert(s <= 0x2000_0000_0000_0000) by (nonlinear_arith)
            requires
                0 <= s,
                s * s <= sd,
                sd <= 0x400_0000_0000_0000_0000_0000_0000_0000,
        {
            if s > 0x2000_0000_0000_0000 {
                assert(s * s > 0x2000_0000_0000_0000 * 0x2000_0000_0000_0000);
            }
        }
        let k = SUBSTEPS as int;
        let m = k * a;
        let (n, f) = (-k * h - s, -k * h + s);
        assert(a * n + h * m == -(a * s) && a * (n - 1) + h * m == -(a * (s + 1))
            && a * f + h * m == a * s && a * (f + 1) + h * m == a * (s + 1)) by (nonlinear_arith)
            requires
                m == k * a,
                n == -k * h - s,
                f == -k * h + s,
        ;
        self.lemma_power(r, n, s);
        self.lemma_power(r, n - 1, s + 1);
        self.lemma_power(r, f, s);
        self.lemma_power(r, f + 1, s + 1);
        assert(a * (s * s - sd) <= 0 && a * ((s + 1) * (s + 1) - sd) > 0) by (nonlinear_arith)
            requires
                a > 0,
                s * s <= sd < (s + 1) * (s + 1),
        ;
    }

    /// The normal of each reported crossing has length at most one, and one step
    /// `d / (K a)` back along the ray from it (towards the outside) the point
    /// leaves the ball: so its length is within `1 / (K radius |d|)` of one.
    pub proof fn lemma_normal_length(self, r: Ray)
        requires
            self.wf(),
            r.bounded(),
            self.discriminant(r) > 0,
        ensures
            forall|k: int| #![trigger self.hits(r)[k]] 0 <= k < 2 ==> {
                let n = self.hits(r)[k].normal;
                n.x * n.x + n.y * n.y + n.z * n.z <= n.den * n.den
            },
            !self.in_ball(r, self.near_root(r).num - 1, self.near_root(r).den as int),
            !self.in_ball(r, self.far_root(r).num + 1, self.far_root(r).den as int),
    {
        self.lemma_brackets(r);
        self.lemma_sizes(r);
        assert forall|k: int| #![trigger self.hits(r)[k]] 0 <= k < 2 implies {
            let n = self.hits(r)[k].normal;
            n.x * n.x + n.y * n.y + n.z * n.z <= n.den * n.den
        } by {
            let t = self.hits(r)[k].t;
            let (x, m) = (t.num as int, t.den as int);
            let rad = self.radius as int;
            assert(self.in_ball(r, x, m));
            let q0 = self.oc(r, Axis::X) * m + x * r.direction.0;
            let q1 = self.oc(r, Axis::Y) * m + x * r.direction.1;
            let q2 = self.oc(r, Axis::Z) * m + x * r.direction.2;
            assert forall|a: Axis| #[trigger] self.offset(r, t, a) == self.oc(r, a) * m + x * r.direction.at(a) by {
                assert(r.at_num(t, a) - self.center.at(a) * m == (r.origin.at(a) - self.center.at(a)) * m + x * r.direction.at(a)) by (nonlinear_arith)
                    requires
                        r.at_num(t, a) == r.origin.at(a) * m + x * r.direction.at(a),
                ;
            }
            assert(self.offset(r, t, Axis::X) == q0);
            assert(self.offset(r, t, Axis::Y) == q1);
            assert(self.offset(r, t, Axis::Z) == q2);
            let bound = rad * m;
            assert(m == SUBSTEPS * self.quad_a(r) && m > 0);
            assert(bound > 0) by (nonlinear_arith)
                requires
                    bound == rad * m,
                    rad > 0,
                    m > 0,
            ;
            assert(within(q0, bound) && within(q1, bound) && within(q2, bound)) by (nonlinear_arith)
                requires
                    q0 * q0 + q1 * q1 + q2 * q2 <= bound * bound,
                    bound > 0,
            {
                assert(q0 * q0 >= 0 && q1 * q1 >= 0 && q2 * q2 >= 0);
                if q0 > bound || q0 < -bound {
                    assert(q0 * q0 > bound * bound);
                }
                if q1 > bound || q1 < -bound {
                    assert(q1 * q1 > bound * bound);
                }
                if q2 > bound || q2 < -bound {
                    assert(q2 * q2 > bound * bound);
                }
            }
            assert(bound <= 0x1000_0000_0000 * 0x8000_0000) by (nonlinear_arith)
                requires
                    bound == rad * m,
                    0 < m <= 0x1000_0000_0000,
                    0 < rad <= 0x8000_0000,
            ;
            assert((-q0) * (-q0) == q0 * q0 && (-q1) * (-q1) == q1 * q1 && (-q2) * (-q2) == q2 * q2)
                by (nonlinear_arith);
        }
    }

    /// Builds the record at `t`.
    fn record(&self, r: &Ray, t: Param) -> (h: HitRecord)
        requires
            self.wf(),
            r.bounded(),
            t.wf(),
            within(t.num as int, 0x4000_0000_0000_0000),
            t.den <= 0x1000_0000_0000,
        ensures
            h == self.record_at(*r, t),
    {
        proof {
            let (n, m) = (t.num as int, t.den as int);
            assert forall|a: Axis| #![trigger r.at_num(t, a)] within(r.at_num(t, a), 0x8000_0000_0000_0000_0000)
                && within(self.center.at(a) * m, 0x800_0000_0000_0000_0000)
                && within(r.direction.at(a) * (r.at_num(t, a) - self.center.at(a) * m), 0x1_0000_0000_0000_0000_0000_0000) by {
                lemma_mul_within(r.origin.at(a), m, 0x8000_0000, 0x1000_0000_0000);
                lemma_mul_within(n, r.direction.at(a), 0x4000_0000_0000_0000, MAX_DIRECTION as int);
                lemma_mul_within(self.center.at(a), m, 0x8000_0000, 0x1000_0000_0000);
                lemma_mul_within(r.direction.at(a), r.at_num(t, a) - self.center.at(a) * m, MAX_DIRECTION as int, 0x1_0000_0000_0000_0000_0000);
            }
            assert(r.at_num(t, Axis::X) == r.at_num(t, Axis::X));
            assert(r.at_num(t, Axis::Y) == r.at_num(t, Axis::Y));
            assert(r.at_num(t, Axis::Z) == r.at_num(t, Axis::Z));
            lemma_mul_within(m, self.radius as int, 0x1000_0000_0000, 0x8000_0000);
        }
        let p = r.point_at(t);
        let den = t.den as i128;
        let q0 = p.x - self.center.0 as i128 * den;
        let q1 = p.y - self.center.1 as i128 * den;
        let q2 = p.z - self.center.2 as i128 * den;
        let leaving = r.direction.0 as i128 * q0 + r.direction.1 as i128 * q1 + r.direction.2 as i128
            * q2 > 0;
        let nd = den * self.radius as i128;
        let normal = if leaving {
            Point { x: -q0, y: -q1, z: -q2, den: nd }
        } else {
            Point { x: q0, y: q1, z: q2, den: nd }
        };
        HitRecord::new(t, p, normal, !leaving, self.material, None, false)
    }

    /// The nearer crossing with the sphere in `(t_min, t_max)`. The crossings
    /// reported bracket the exact ones to within one step (`brackets`).
    pub fn hit(&self, r: &Ray, t_min: Param, t_max: Param) -> (res: Option<HitRecord>)
        requires
            self.wf(),
            r.bounded(),
            t_min.wf(),
            t_max.wf(),
        ensures
            is_nearest(self.hits(*r), t_min, t_max, res),
            self.discriminant(*r) > 0 ==> self.brackets(*r),
    {
        proof {
            self.lemma_sizes(*r);
            assert(self.oc(*r, Axis::X) == self.oc(*r, Axis::X));
            assert(self.oc(*r, Axis::Y) == self.oc(*r, Axis::Y));
            assert(self.oc(*r, Axis::Z) == self.oc(*r, Axis::Z));
        }
        let ox = r.origin.0 as i128 - self.center.0 as i128;
        let oy = r.origin.1 as i128 - self.center.1 as i128;
        let oz = r.origin.2 as i128 - self.center.2 as i128;
        let (d0, d1, d2) = (r.direction.0 as i128, r.direction.1 as i128, r.direction.2 as i128);
        let a = d0 * d0 + d1 * d1 + d2 * d2;
        let h = ox * d0 + oy * d1 + oz * d2;
        let rad = self.radius as i128;
        let c = ox * ox + oy * oy + oz * oz - rad * rad;
        proof {
            lemma_mul_within(h as int, h as int, 0x3_0000_0000_0000, 0x3_0000_0000_0000);
            lemma_mul_within(a as int, c as int, 0x3_0000_0000, 0x4_0000_0000_0000_0000);
        }
        let disc = h * h - a * c;
        assert(disc == self.discriminant(*r));
        if disc <= 0 {
            return None;
        }
        let k: i128 = 1024;
        assert(k == SUBSTEPS);
        assert(k * k * disc <= 0x10_0000 * 0x20_0000_0000_0000_0000_0000_0000) by (nonlinear_arith)
            requires
                k == 1024,
                0 < disc <= 0x20_0000_0000_0000_0000_0000_0000,
        ;
        let s = isqrt(k * k * disc);
        proof {
            self.lemma_brackets(*r);
        }
        let t1 = Param::new((-k * h - s) as i64, (k * a) as i64);
        let t2 = Param::new((-k * h + s) as i64, (k * a) as i64);
        assert(t1 == self.near_root(*r));
        assert(t2 == self.far_root(*r));
        proof {
            let (ai, si) = ((k * a) as int, s as int);
            let hi = (-k * h) as int;
            assert(!((hi + si) * ai < (hi - si) * ai)) by (nonlinear_arith)
                requires
                    ai > 0,
                    si >= 0,
            ;
        }
        let recs = Ghost(self.hits(*r));
        if t_min.less(&t1) && t1.less(&t_max) {
            let rec = self.record(r, t1);
            assert(recs@[0] == rec);
            return Some(rec);
        }
        if t_min.less(&t2) && t2.less(&t_max) {
            let rec = self.record(r, t2);
            assert(recs@[1] == rec);
            return Some(rec);
        }
        None
    }

    /// Every crossing touches the ball's box: it lies in the closed box, and on a
    /// face only at that face's centre.
    pub proof fn lemma_hits_enclosed(self, r: Ray)
        requires
            self.wf(),
            r.bounded(),
        ensures
            hits_enclosed(self.bounds(), self.hits(r), r),
            params_wf(self.hits(r)),
    {
        self.lemma_sizes(r);
        if self.discriminant(r) > 0 {
            self.lemma_brackets(r);
            let b = self.bounds();
            let m = SUBSTEPS * self.quad_a(r);
            let rad = self.radius as int;
            assert forall|k: int| #![trigger self.hits(r)[k]] 0 <= k < self.hits(r).len() implies
                self.hits(r)[k].t.wf() && b.touches_at(r, self.hits(r)[k].t) by {
                let t = self.hits(r)[k].t;
                let n = t.num as int;
                assert(t.den == m);
                assert(self.in_ball(r, n, m));
                let q0 = self.oc(r, Axis::X) * m + n * r.direction.0;
                let q1 = self.oc(r, Axis::Y) * m + n * r.direction.1;
                let q2 = self.oc(r, Axis::Z) * m + n * r.direction.2;
                let bound = rad * m;
                assert(bound > 0) by (nonlinear_arith)
                    requires
                        rad > 0,
                        m > 0,
                        bound == rad * m,
                ;
                assert(within(q0, bound) && within(q1, bound) && within(q2, bound)
                    && (q0 == bound || q0 == -bound ==> q1 == 0 && q2 == 0)
                    && (q1 == bound || q1 == -bound ==> q0 == 0 && q2 == 0)
                    && (q2 == bound || q2 == -bound ==> q0 == 0 && q1 == 0)) by (nonlinear_arith)
                    requires
                        q0 * q0 + q1 * q1 + q2 * q2 <= bound * bound,
                        bound > 0,
                {
                    assert(q0 * q0 >= 0 && q1 * q1 >= 0 && q2 * q2 >= 0);
                    if q0 > bound || q0 < -bound {
                        assert(q0 * q0 > bound * bound);
                    }
                    if q1 > bound || q1 < -bound {
                        assert(q1 * q1 > bound * bound);
                    }
                    if q2 > bound || q2 < -bound {
                        assert(q2 * q2 > bound * bound);
                    }
                    if q0 == bound || q0 == -bound {
                        assert(q0 * q0 == bound * bound);
                        assert(q1 * q1 + q2 * q2 <= 0);
                        if q1 != 0 {
                            assert(q1 * q1 > 0);
                        }
                        if q2 != 0 {
                            assert(q2 * q2 > 0);
                        }
                    }
                    if q1 == bound || q1 == -bound {
                        assert(q1 * q1 == bound * bound);
                        if q0 != 0 {
                            assert(q0 * q0 > 0);
                        }
                        if q2 != 0 {
                            assert(q2 * q2 > 0);
                        }
                    }
                    if q2 == bound || q2 == -bound {
                        assert(q2 * q2 == bound * bound);
                        if q0 != 0 {
                            assert(q0 * q0 > 0);
                        }
                        if q1 != 0 {
                            assert(q1 * q1 > 0);
                        }
                    }
                }
                assert forall|a: Axis| #![trigger b.closed_on(r, t, a)] b.closed_on(r, t, a)
                    && (b.on_face(r, t, a) <==> (self.oc(r, a) * m + n * r.direction.at(a) == bound
                    || self.oc(r, a) * m + n * r.direction.at(a) == -bound)) by {
                    let q = self.oc(r, a) * m + n * r.direction.at(a);
                    let c = self.center.at(a);
                    assert(r.at_num(t, a) == q + c * m) by (nonlinear_arith)
                        requires
                            r.at_num(t, a) == r.origin.at(a) * m + n * r.direction.at(a),
                            q == (r.origin.at(a) - c) * m + n * r.direction.at(a),
                    ;
                    assert((c - rad) * m == c * m - bound && (c + rad) * m == c * m + bound)
                        by (nonlinear_arith)
                        requires
                            bound == rad * m,
                    ;
                    match a {
                        Axis::X => {},
                        Axis::Y => {},
                        Axis::Z => {},
                    }
                }
                assert(b.closed_on(r, t, Axis::X));
                assert(b.closed_on(r, t, Axis::Y));
                assert(b.closed_on(r, t, Axis::Z));
            }
        }
    }
}

} // verus!
