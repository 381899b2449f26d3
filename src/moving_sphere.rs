use vstd::prelude::*;
use crate::aabb::{lemma_merge_encloses, AABB};
use crate::hittable::{hits_enclosed, is_nearest, lemma_hits_enclosed_widen, params_wf, HitRecord};
use crate::ray::{Param, Ray};
use crate::rect::padded;
use crate::sphere::Sphere;
use crate::vec::{Axis, Vec3};

verus! {

/// `p / dd` rounded towards zero (`dd != 0`).
pub open spec fn tdiv(p: int, dd: int) -> int {
    let (q, d) = if dd > 0 {
        (p, dd)
    } else {
        (-p, -dd)
    };
    if q >= 0 {
        q / d
    } else {
        -((-q) / d)
    }
}

proof fn lemma_tdiv_pos_monotone(p: int, q: int, d: int)
    requires
        p <= q,
        d > 0,
    ensures
        tdiv(p, d) <= tdiv(q, d),
{
    if p >= 0 {
        vstd::arithmetic::div_mod::lemma_div_is_ordered(p, q, d);
    } else if q >= 0 {
        vstd::arithmetic::div_mod::lemma_div_is_ordered(0, -p, d);
        vstd::arithmetic::div_mod::lemma_div_is_ordered(0, q, d);
    } else {
        vstd::arithmetic::div_mod::lemma_div_is_ordered(-q, -p, d);
    }
}

/// Rounding towards zero keeps the order of numerators for a positive divisor and
/// reverses it for a negative one.
proof fn lemma_tdiv_monotone(p: int, q: int, dd: int)
    requires
        p <= q,
        dd != 0,
    ensures
        dd > 0 ==> tdiv(p, dd) <= tdiv(q, dd),
        dd < 0 ==> tdiv(q, dd) <= tdiv(p, dd),
{
    if dd > 0 {
        lemma_tdiv_pos_monotone(p, q, dd);
    } else {
        lemma_tdiv_pos_monotone(-q, -p, -dd);
        assert(tdiv(p, dd) == tdiv(-p, -dd));
        assert(tdiv(q, dd) == tdiv(-q, -dd));
    }
}

/// A ball moving in a straight line, at `center0` at `time0` and at `center1` at
/// `time1`, and continuing along that line at every other time.
#[derive(Copy, Clone, Debug)]
pub struct MovingSphere {
    pub center0: Vec3,
    pub center1: Vec3,
    pub time0: i32,
    pub time1: i32,
    pub radius: i32,
    pub material: usize,
}

impl MovingSphere {
    pub open spec fn wf(self) -> bool {
        &&& self.time0 != self.time1
        &&& self.radius > 0
        &&& self.fits_at(self.time0 as int)
        &&& self.fits_at(self.time1 as int)
    }

    /// The component along `a` of the centre at `time`:
    /// `center0 + (time - time0) / (time1 - time0) * (center1 - center0)`, the
    /// offset from `center0` rounded towards zero onto the grid.
    pub open spec fn center_on(self, time: int, a: Axis) -> int {
        self.center0.at(a) + tdiv(
            (time - self.time0) * (self.center1.at(a) - self.center0.at(a)),
            self.time1 - self.time0,
        )
    }

    /// The ball at `time` lies on the grid with room for its box.
    pub open spec fn fits_at(self, time: int) -> bool {
        &&& padded(self.center_on(time, Axis::X) - self.radius)
        &&& padded(self.center_on(time, Axis::X) + self.radius)
        &&& padded(self.center_on(time, Axis::Y) - self.radius)
        &&& padded(self.center_on(time, Axis::Y) + self.radius)
        &&& padded(self.center_on(time, Axis::Z) - self.radius)
        &&& padded(self.center_on(time, Axis::Z) + self.radius)
    }

    pub open spec fn center_at(self, time: int) -> Vec3 {
        Vec3(
            self.center_on(time, Axis::X) as i32,
            self.center_on(time, Axis::Y) as i32,
            self.center_on(time, Axis::Z) as i32,
        )
    }

    /// The ball as it stands at `time`.
    pub open spec fn sphere_at(self, time: int) -> Sphere {
        Sphere { center: self.center_at(time), radius: self.radius, material: self.material }
    }

    /// All crossings of the ray with the ball as it stands at the ray's time.
    pub open spec fn hits(self, r: Ray) -> Seq<HitRecord> {
        self.sphere_at(r.time as int).hits(r)
    }

    /// A box holding the ball over `[t0, t1]`: the merge of its boxes at both ends.
    pub open spec fn bounds(self, t0: int, t1: int) -> AABB {
        self.sphere_at(t0).bounds().merged(self.sphere_at(t1).bounds())
    }

    /// The centre at a time between `t0` and `t1` lies between its places at them.
    proof fn lemma_between(self, t0: int, time: int, t1: int, a: Axis)
        requires
            self.time0 != self.time1,
            t0 <= time <= t1,
        ensures
            self.center_on(t0, a) <= self.center_on(time, a) <= self.center_on(t1, a)
                || self.center_on(t1, a) <= self.center_on(time, a) <= self.center_on(t0, a),
    {
        let k = self.center1.at(a) - self.center0.at(a);
        let dd = self.time1 - self.time0;
        let (p0, p, p1) = ((t0 - self.time0) * k, (time - self.time0) * k, (t1 - self.time0) * k);
        if k >= 0 {
            assert(p0 <= p <= p1) by (nonlinear_arith)
                requires
                    t0 <= time <= t1,
                    k >= 0,
                    p0 == (t0 - self.time0) * k,
                    p == (time - self.time0) * k,
                    p1 == (t1 - self.time0) * k,
            ;
            lemma_tdiv_monotone(p0, p, dd);
            lemma_tdiv_monotone(p, p1, dd);
        } else {
            assert(p1 <= p <= p0) by (nonlinear_arith)
                requires
                    t0 <= time <= t1,
                    k < 0,
                    p0 == (t0 - self.time0) * k,
                    p == (time - self.time0) * k,
                    p1 == (t1 - self.time0) * k,
            ;
            lemma_tdiv_monotone(p1, p, dd);
            lemma_tdiv_monotone(p, p0, dd);
        }
    }

    /// Fitting at both ends of an interval, the ball fits at every time between.
    pub proof fn lemma_fits_between(self, t0: int, time: int, t1: int)
        requires
            self.time0 != self.time1,
            t0 <= time <= t1,
            self.fits_at(t0),
            self.fits_at(t1),
        ensures
            self.fits_at(time),
    {
        self.lemma_between(t0, time, t1, Axis::X);
        self.lemma_between(t0, time, t1, Axis::Y);
        self.lemma_between(t0, time, t1, Axis::Z);
    }

    /// The ball at a time where it fits is a well-formed sphere.
    pub proof fn lemma_sphere_at_wf(self, time: int)
        requires
            self.radius > 0,
            self.fits_at(time),
        ensures
            self.sphere_at(time).wf(),
    {
    }

    pub fn new(
        center0: Vec3,
        center1: Vec3,
        time0: i32,
        time1: i32,
        radius: i32,
        material: usize,
    ) -> (s: MovingSphere)
        requires
            (MovingSphere { center0, center1, time0, time1, radius, material }).wf(),
        ensures
            s == (MovingSphere { center0, center1, time0, time1, radius, material }),
    {
        MovingSphere { center0, center1, time0, time1, radius, material }
    }

    fn center_component(&self, a: Axis, time: i32) -> (c: i32)
        requires
            self.wf(),
            self.fits_at(time as int),
        ensures
            c == self.center_on(time as int, a),
    {
        let (c0, c1) = (self.center0.index(a), self.center1.index(a));
        let k = c1 as i128 - c0 as i128;
        let x = time as i128 - self.time0 as i128;
        let mut dd = self.time1 as i128 - self.time0 as i128;
        assert(-0x1_0000_0000_0000_0000 <= x * k <= 0x1_0000_0000_0000_0000) by (nonlinear_arith)
            requires
                -0x1_0000_0000 <= x <= 0x1_0000_0000,
                -0x1_0000_0000 <= k <= 0x1_0000_0000,
        ;
        let mut p = x * k;
        if dd < 0 {
            p = -p;
            dd = -dd;
        }
        let off: i128 = if p >= 0 {
            (p as u128 / dd as u128) as i128
        } else {
            -(((-p) as u128 / dd as u128) as i128)
        };
        assert(off == tdiv(x * k, (self.time1 - self.time0) as int));
        proof {
            assert(padded(self.center_on(time as int, a) - self.radius)) by {
                match a {
                    Axis::X => {},
                    Axis::Y => {},
                    Axis::Z => {},
                }
            }
        }
        (c0 as i128 + off) as i32
    }

    /// The centre at `time`.
    pub fn center(&self, time: i32) -> (c: Vec3)
        requires
            self.wf(),
            self.fits_at(time as int),
        ensures
            c == self.center_at(time as int),
    {
        let cx = self.center_component(Axis::X, time);
        let cy = self.center_component(Axis::Y, time);
        let cz = self.center_component(Axis::Z, time);
        Vec3(cx, cy, cz)
    }

    /// The nearer crossing in `(t_min, t_max)` with the ball as it stands at the
    /// ray's time.
    pub fn hit(&self, r: &Ray, t_min: Param, t_max: Param) -> (res: Option<HitRecord>)
        requires
            self.wf(),
            self.fits_at(r.time as int),
            r.bounded(),
            t_min.wf(),
            t_max.wf(),
        ensures
            is_nearest(self.hits(*r), t_min, t_max, res),
            self.sphere_at(r.time as int).discriminant(*r) > 0 ==> self.sphere_at(
                r.time as int,
            ).brackets(*r),
    {
        let s = Sphere { center: self.center(r.time), radius: self.radius, material: self.material };
        proof {
            self.lemma_sphere_at_wf(r.time as int);
        }
        s.hit(r, t_min, t_max)
    }

    /// The box holding the ball over `[t0, t1]`.
    pub fn bounding_box(&self, t0: i32, t1: i32) -> (b: AABB)
        requires
            self.wf(),
            self.fits_at(t0 as int),
            self.fits_at(t1 as int),
        ensures
            b == self.bounds(t0 as int, t1 as int),
            b.wf(),
    {
        proof {
            self.lemma_sphere_at_wf(t0 as int);
            self.lemma_sphere_at_wf(t1 as int);
        }
        let s0 = Sphere { center: self.center(t0), radius: self.radius, material: self.material };
        let s1 = Sphere { center: self.center(t1), radius: self.radius, material: self.material };
        let (b0, b1) = (s0.bounding_box(), s1.bounding_box());
        proof {
            lemma_merge_encloses(b0, b1);
        }
        b0.merge(b1)
    }

    /// For a ray whose time lies in `[t0, t1]`, every crossing touches the box over
    /// `[t0, t1]`.
    pub proof fn lemma_hits_enclosed(self, r: Ray, t0: int, t1: int)
        requires
            self.wf(),
            r.bounded(),
            t0 <= r.time <= t1,
            self.fits_at(t0),
            self.fits_at(t1),
        ensures
            hits_enclosed(self.bounds(t0, t1), self.hits(r), r),
            params_wf(self.hits(r)),
    {
        let now = self.sphere_at(r.time as int);
        self.lemma_fits_between(t0, r.time as int, t1);
        self.lemma_sphere_at_wf(r.time as int);
        self.lemma_sphere_at_wf(t0);
        self.lemma_sphere_at_wf(t1);
        now.lemma_hits_enclosed(r);
        let (b, s0, s1) = (self.bounds(t0, t1), self.sphere_at(t0), self.sphere_at(t1));
        assert forall|a: Axis| #[trigger] b.encloses_on(now.bounds(), a) by {
            self.lemma_between(t0, r.time as int, t1, a);
            assert(now.center.at(a) == self.center_on(r.time as int, a));
            assert(s0.center.at(a) == self.center_on(t0, a));
            assert(s1.center.at(a) == self.center_on(t1, a));
            match a {
                Axis::X => {},
                Axis::Y => {},
                Axis::Z => {},
            }
        }
        assert(b.encloses_on(now.bounds(), Axis::X));
        assert(b.encloses_on(now.bounds(), Axis::Y));
        assert(b.encloses_on(now.bounds(), Axis::Z));
        lemma_hits_enclosed_widen(self.bounds(t0, t1), now.bounds(), now.hits(r), r);
    }
}

} // verus!
