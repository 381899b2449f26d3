use vstd::prelude::*;
use crate::ray::{lemma_le_lt_trans, lemma_le_trans, Param, Ray};
use crate::vec::{Axis, Vec3};

verus! {

/// An axis-aligned box `[min, max]`.
#[derive(Copy, Clone, Debug)]
pub struct AABB {
    pub min: Vec3,
    pub max: Vec3,
}

pub open spec fn min_i(a: int, b: int) -> int {
    if a <= b { a } else { b }
}

pub open spec fn max_i(a: int, b: int) -> int {
    if a >= b { a } else { b }
}

impl AABB {
    /// `min <= max` along every axis.
    pub open spec fn wf(self) -> bool {
        self.min.0 <= self.max.0 && self.min.1 <= self.max.1 && self.min.2 <= self.max.2
    }

    /// The smallest box holding both boxes: per axis, the least minimum and the
    /// greatest maximum.
    pub open spec fn merged(self, o: AABB) -> AABB {
        AABB {
            min: Vec3(
                min_i(self.min.0 as int, o.min.0 as int) as i32,
                min_i(self.min.1 as int, o.min.1 as int) as i32,
                min_i(self.min.2 as int, o.min.2 as int) as i32,
            ),
            max: Vec3(
                max_i(self.max.0 as int, o.max.0 as int) as i32,
                max_i(self.max.1 as int, o.max.1 as int) as i32,
                max_i(self.max.2 as int, o.max.2 as int) as i32,
            ),
        }
    }

    /// Every point of `o` lies in `self`.
    pub open spec fn encloses(self, o: AABB) -> bool {
        self.encloses_on(o, Axis::X) && self.encloses_on(o, Axis::Y) && self.encloses_on(o, Axis::Z)
    }

    pub open spec fn encloses_on(self, o: AABB, a: Axis) -> bool {
        self.min.at(a) <= o.min.at(a) && o.max.at(a) <= self.max.at(a)
    }

    /// Where the ray enters the slab of axis `a` (meaningful when the ray is not
    /// parallel to it).
    pub open spec fn slab_entry(self, r: Ray, a: Axis) -> Param {
        if r.direction.at(a) > 0 {
            Param { num: (self.min.at(a) - r.origin.at(a)) as i64, den: r.direction.at(a) as i64 }
        } else {
            Param {
                num: (r.origin.at(a) - self.max.at(a)) as i64,
                den: (-r.direction.at(a)) as i64,
            }
        }
    }

    /// Where the ray leaves the slab of axis `a` (meaningful when the ray is not
    /// parallel to it).
    pub open spec fn slab_exit(self, r: Ray, a: Axis) -> Param {
        if r.direction.at(a) > 0 {
            Param { num: (self.max.at(a) - r.origin.at(a)) as i64, den: r.direction.at(a) as i64 }
        } else {
            Param {
                num: (r.origin.at(a) - self.min.at(a)) as i64,
                den: (-r.direction.at(a)) as i64,
            }
        }
    }

    /// A ray parallel to the slab of `a` starts inside it.
    pub open spec fn parallel_inside(self, r: Ray, a: Axis) -> bool {
        r.direction.at(a) == 0 ==> self.min.at(a) <= r.origin.at(a) <= self.max.at(a)
    }

    /// The slab interval of `a` meets the interval `(t_min, t_max)`.
    pub open spec fn within_interval(self, r: Ray, a: Axis, t_min: Param, t_max: Param) -> bool {
        r.direction.at(a) != 0 ==> self.slab_entry(r, a).lt(t_max) && t_min.lt(
            self.slab_exit(r, a),
        )
    }

    /// The ray enters the slab of `a` before it leaves the slab of `b`.
    pub open spec fn slabs_cross(self, r: Ray, a: Axis, b: Axis) -> bool {
        r.direction.at(a) != 0 && r.direction.at(b) != 0 ==> self.slab_entry(r, a).lt(
            self.slab_exit(r, b),
        )
    }

    /// The ray meets the box for some parameter in `(t_min, t_max)`, checked pair by
    /// pair: every lower bound of the parameter (`t_min` and each slab entry) lies
    /// below every upper bound (`t_max` and each slab exit).
    pub open spec fn slab_hit(self, r: Ray, t_min: Param, t_max: Param) -> bool {
        &&& t_min.lt(t_max)
        &&& forall|a: Axis| #[trigger] self.parallel_inside(r, a)
        &&& forall|a: Axis| #[trigger] self.within_interval(r, a, t_min, t_max)
        &&& forall|a: Axis, b: Axis| #[trigger] self.slabs_cross(r, a, b)
    }

    /// Narrows `[start, end]` by the slab of axis `a`; false when the ray is parallel
    /// to that slab and outside it.
    fn narrow(&self, r: &Ray, a: Axis, start: &mut Param, end: &mut Param) -> (inside: bool)
        requires
            old(start).wf(),
            old(end).wf(),
        ensures
            inside == self.parallel_inside(*r, a),
            final(start).wf(),
            final(end).wf(),
            r.direction.at(a) == 0 ==> *final(start) == *old(start) && *final(end) == *old(end),
            r.direction.at(a) != 0 ==> {
                &&& self.slab_entry(*r, a).wf()
                &&& self.slab_exit(*r, a).wf()
                &&& *final(start) == *old(start) || *final(start) == self.slab_entry(*r, a)
                &&& !final(start).lt(*old(start))
                &&& !final(start).lt(self.slab_entry(*r, a))
                &&& *final(end) == *old(end) || *final(end) == self.slab_exit(*r, a)
                &&& !old(end).lt(*final(end))
                &&& !self.slab_exit(*r, a).lt(*final(end))
            },
    {
        let d = r.direction.index(a);
        let o = r.origin.index(a);
        let lo = self.min.index(a);
        let hi = self.max.index(a);
        if d == 0 {
            return lo <= o && o <= hi;
        }
        let (entry, exit) = if d > 0 {
            (Param::new(lo as i64 - o as i64, d as i64), Param::new(hi as i64 - o as i64, d as i64))
        } else {
            (
                Param::new(o as i64 - hi as i64, -(d as i64)),
                Param::new(o as i64 - lo as i64, -(d as i64)),
            )
        };
        if start.less(&entry) {
            *start = entry;
        }
        if exit.less(end) {
            *end = exit;
        }
        true
    }

    /// Slab test: does the ray meet the box for some parameter in `(t_min, t_max)`?
    /// A ray parallel to a slab meets it for every parameter when it starts inside
    /// (faces included), and never otherwise.
    pub fn hit(&self, r: &Ray, t_min: Param, t_max: Param) -> (h: bool)
        requires
            t_min.wf(),
            t_max.wf(),
        ensures
            h == self.slab_hit(*r, t_min, t_max),
    {
        let mut start = t_min;
        let mut end = t_max;
        let ix = self.narrow(r, Axis::X, &mut start, &mut end);
        let ghost (s1, e1) = (start, end);
        let iy = self.narrow(r, Axis::Y, &mut start, &mut end);
        let ghost (s2, e2) = (start, end);
        let iz = self.narrow(r, Axis::Z, &mut start, &mut end);
        let res = ix && iy && iz && start.less(&end);
        proof {
            self.lemma_hit_bounds(*r, t_min, t_max, s1, e1, s2, e2, start, end);
            if res {
                self.lemma_hit_complete(*r, t_min, t_max, start, end);
            } else if ix && iy && iz {
                self.lemma_hit_sound(*r, t_min, t_max, start, end);
            }
        }
        res
    }

    /// The running bounds after the three slabs: `start` is the largest lower bound
    /// and `end` the smallest upper bound.
    proof fn lemma_hit_bounds(
        self,
        r: Ray,
        t_min: Param,
        t_max: Param,
        s1: Param,
        e1: Param,
        s2: Param,
        e2: Param,
        s3: Param,
        e3: Param,
    )
        requires
            t_min.wf(),
            t_max.wf(),
            s1.wf() && e1.wf() && s2.wf() && e2.wf() && s3.wf() && e3.wf(),
            r.direction.at(Axis::X) == 0 ==> s1 == t_min && e1 == t_max,
            r.direction.at(Axis::X) != 0 ==> {
                &&& self.slab_entry(r, Axis::X).wf() && self.slab_exit(r, Axis::X).wf()
                &&& s1 == t_min || s1 == self.slab_entry(r, Axis::X)
                &&& !s1.lt(t_min) && !s1.lt(self.slab_entry(r, Axis::X))
                &&& e1 == t_max || e1 == self.slab_exit(r, Axis::X)
                &&& !t_max.lt(e1) && !self.slab_exit(r, Axis::X).lt(e1)
            },
            r.direction.at(Axis::Y) == 0 ==> s2 == s1 && e2 == e1,
            r.direction.at(Axis::Y) != 0 ==> {
                &&& self.slab_entry(r, Axis::Y).wf() && self.slab_exit(r, Axis::Y).wf()
                &&& s2 == s1 || s2 == self.slab_entry(r, Axis::Y)
                &&& !s2.lt(s1) && !s2.lt(self.slab_entry(r, Axis::Y))
                &&& e2 == e1 || e2 == self.slab_exit(r, Axis::Y)
                &&& !e1.lt(e2) && !self.slab_exit(r, Axis::Y).lt(e2)
            },
            r.direction.at(Axis::Z) == 0 ==> s3 == s2 && e3 == e2,
            r.direction.at(Axis::Z) != 0 ==> {
                &&& self.slab_entry(r, Axis::Z).wf() && self.slab_exit(r, Axis::Z).wf()
                &&& s3 == s2 || s3 == self.slab_entry(r, Axis::Z)
                &&& !s3.lt(s2) && !s3.lt(self.slab_entry(r, Axis::Z))
                &&& e3 == e2 || e3 == self.slab_exit(r, Axis::Z)
                &&& !e2.lt(e3) && !self.slab_exit(r, Axis::Z).lt(e3)
            },
        ensures
            self.bounds_reached(r, t_min, t_max, s3, e3),
    {
        if r.direction.at(Axis::X) != 0 {
            lemma_le_trans(self.slab_entry(r, Axis::X), s1, s2);
            lemma_le_trans(self.slab_entry(r, Axis::X), s2, s3);
            lemma_le_trans(e2, e1, self.slab_exit(r, Axis::X));
            lemma_le_trans(e3, e2, self.slab_exit(r, Axis::X));
        }
        if r.direction.at(Axis::Y) != 0 {
            lemma_le_trans(self.slab_entry(r, Axis::Y), s2, s3);
            lemma_le_trans(e3, e2, self.slab_exit(r, Axis::Y));
        }
        lemma_le_trans(t_min, s1, s2);
        lemma_le_trans(t_min, s2, s3);
        lemma_le_trans(e2, e1, t_max);
        lemma_le_trans(e3, e2, t_max);
    }

    /// `start` is `t_min` or a slab entry and bounds all of them from above; `end` is
    /// `t_max` or a slab exit and bounds all of them from below.
    pub open spec fn bounds_reached(self, r: Ray, t_min: Param, t_max: Param, s: Param, e: Param) -> bool {
        &&& s.wf() && e.wf()
        &&& !s.lt(t_min) && !t_max.lt(e)
        &&& s == t_min || s == self.slab_entry(r, Axis::X) && r.direction.at(Axis::X) != 0
            || s == self.slab_entry(r, Axis::Y) && r.direction.at(Axis::Y) != 0
            || s == self.slab_entry(r, Axis::Z) && r.direction.at(Axis::Z) != 0
        &&& e == t_max || e == self.slab_exit(r, Axis::X) && r.direction.at(Axis::X) != 0
            || e == self.slab_exit(r, Axis::Y) && r.direction.at(Axis::Y) != 0
            || e == self.slab_exit(r, Axis::Z) && r.direction.at(Axis::Z) != 0
        &&& forall|a: Axis| #![trigger self.slab_entry(r, a)] #![trigger self.slab_exit(r, a)]
            r.direction.at(a) != 0 ==> {
            &&& self.slab_entry(r, a).wf()
            &&& self.slab_exit(r, a).wf()
            &&& !s.lt(self.slab_entry(r, a))
            &&& !self.slab_exit(r, a).lt(e)
        }
    }

    /// The slab test in running form: with `s` the latest of `t_min` and the slab
    /// entries and `e` the earliest of `t_max` and the slab exits, the ray meets the
    /// box exactly when every slab it is parallel to holds its origin and `s < e`.
    pub proof fn lemma_slab_hit_running_form(self, r: Ray, t_min: Param, t_max: Param, s: Param, e: Param)
        requires
            t_min.wf(),
            t_max.wf(),
            self.bounds_reached(r, t_min, t_max, s, e),
        ensures
            self.slab_hit(r, t_min, t_max) == ((forall|a: Axis| #[trigger] self.parallel_inside(r, a))
                && s.lt(e)),
    {
        if s.lt(e) && forall|a: Axis| #[trigger] self.parallel_inside(r, a) {
            self.lemma_hit_complete(r, t_min, t_max, s, e);
        }
        if !s.lt(e) {
            self.lemma_hit_sound(r, t_min, t_max, s, e);
        }
    }

    proof fn lemma_hit_complete(self, r: Ray, t_min: Param, t_max: Param, s: Param, e: Param)
        requires
            t_min.wf(),
            t_max.wf(),
            self.bounds_reached(r, t_min, t_max, s, e),
            s.lt(e),
            forall|a: Axis| #[trigger] self.parallel_inside(r, a),
        ensures
            self.slab_hit(r, t_min, t_max),
    {
        lemma_le_lt_trans(t_min, s, e);
        lemma_le_lt_trans(t_min, e, t_max);
        assert forall|a: Axis| #[trigger] self.within_interval(r, a, t_min, t_max) by {
            if r.direction.at(a) != 0 {
                let en = self.slab_entry(r, a);
                let ex = self.slab_exit(r, a);
                lemma_le_lt_trans(en, s, e);
                lemma_le_lt_trans(en, e, t_max);
                lemma_le_lt_trans(t_min, e, ex);
            }
        }
        assert forall|a: Axis, b: Axis| #[trigger] self.slabs_cross(r, a, b) by {
            if r.direction.at(a) != 0 && r.direction.at(b) != 0 {
                let en = self.slab_entry(r, a);
                let ex = self.slab_exit(r, b);
                lemma_le_lt_trans(en, s, e);
                lemma_le_lt_trans(en, e, ex);
            }
        }
    }

    proof fn lemma_hit_sound(self, r: Ray, t_min: Param, t_max: Param, s: Param, e: Param)
        requires
            t_min.wf(),
            t_max.wf(),
            self.bounds_reached(r, t_min, t_max, s, e),
            !s.lt(e),
        ensures
            !self.slab_hit(r, t_min, t_max),
    {
        if self.slab_hit(r, t_min, t_max) {
            assert(self.within_interval(r, Axis::X, t_min, t_max));
            assert(self.within_interval(r, Axis::Y, t_min, t_max));
            assert(self.within_interval(r, Axis::Z, t_min, t_max));
            assert(self.slabs_cross(r, Axis::X, Axis::X));
            assert(self.slabs_cross(r, Axis::X, Axis::Y));
            assert(self.slabs_cross(r, Axis::X, Axis::Z));
            assert(self.slabs_cross(r, Axis::Y, Axis::X));
            assert(self.slabs_cross(r, Axis::Y, Axis::Y));
            assert(self.slabs_cross(r, Axis::Y, Axis::Z));
            assert(self.slabs_cross(r, Axis::Z, Axis::X));
            assert(self.slabs_cross(r, Axis::Z, Axis::Y));
            assert(self.slabs_cross(r, Axis::Z, Axis::Z));
        }
    }

    /// The ray's point at `t` lies strictly inside the box along axis `a`.
    pub open spec fn inside_on(self, r: Ray, t: Param, a: Axis) -> bool {
        self.min.at(a) * t.den < r.at_num(t, a) < self.max.at(a) * t.den
    }

    /// The ray's point at `t` lies strictly inside the box.
    pub open spec fn inside_at(self, r: Ray, t: Param) -> bool {
        self.inside_on(r, t, Axis::X) && self.inside_on(r, t, Axis::Y) && self.inside_on(r, t, Axis::Z)
    }

    /// The ray's point at `t` lies in the closed box along axis `a`.
    pub open spec fn closed_on(self, r: Ray, t: Param, a: Axis) -> bool {
        self.min.at(a) * t.den <= r.at_num(t, a) <= self.max.at(a) * t.den
    }

    /// The ray's point at `t` lies on a face of the box normal to `a`.
    pub open spec fn on_face(self, r: Ray, t: Param, a: Axis) -> bool {
        r.at_num(t, a) == self.min.at(a) * t.den || r.at_num(t, a) == self.max.at(a) * t.den
    }

    /// The ray's point at `t` lies in the closed box and on at most one pair of its
    /// faces, along which the box is not flat.
    pub open spec fn touches_at(self, r: Ray, t: Param) -> bool {
        &&& self.closed_on(r, t, Axis::X) && self.closed_on(r, t, Axis::Y) && self.closed_on(
            r,
            t,
            Axis::Z,
        )
        &&& !(self.on_face(r, t, Axis::X) && self.on_face(r, t, Axis::Y))
        &&& !(self.on_face(r, t, Axis::X) && self.on_face(r, t, Axis::Z))
        &&& !(self.on_face(r, t, Axis::Y) && self.on_face(r, t, Axis::Z))
        &&& self.on_face(r, t, Axis::X) ==> self.min.0 < self.max.0
        &&& self.on_face(r, t, Axis::Y) ==> self.min.1 < self.max.1
        &&& self.on_face(r, t, Axis::Z) ==> self.min.2 < self.max.2
    }

    /// A point strictly inside touches the box.
    pub proof fn lemma_inside_touches(self, r: Ray, t: Param)
        requires
            t.wf(),
            self.inside_at(r, t),
        ensures
            self.touches_at(r, t),
    {
    }

    proof fn lemma_closed_slab(self, r: Ray, t: Param, a: Axis)
        requires
            t.wf(),
            self.closed_on(r, t, a),
            self.on_face(r, t, a) ==> self.min.at(a) < self.max.at(a),
        ensures
            self.parallel_inside(r, a),
            r.direction.at(a) != 0 ==> {
                &&& self.slab_entry(r, a).wf()
                &&& self.slab_exit(r, a).wf()
                &&& !t.lt(self.slab_entry(r, a))
                &&& !self.slab_exit(r, a).lt(t)
                &&& !self.on_face(r, t, a) ==> self.slab_entry(r, a).lt(t) && t.lt(
                    self.slab_exit(r, a),
                )
                &&& self.slab_entry(r, a).lt(self.slab_exit(r, a))
            },
    {
        let (d, o, lo, hi, n, m) = (r.direction.at(a), r.origin.at(a), self.min.at(a),
        self.max.at(a), t.num as int, t.den as int);
        let p = o * m + n * d;
        assert(lo <= hi) by (nonlinear_arith)
            requires
                m > 0,
                lo * m <= p <= hi * m,
        ;
        if d == 0 {
            assert(lo <= o && o <= hi) by (nonlinear_arith)
                requires
                    m > 0,
                    lo * m <= o * m + n * d,
                    o * m + n * d <= hi * m,
                    d == 0,
            ;
        } else if d > 0 {
            assert((lo - o) * m <= n * d && n * d <= (hi - o) * m) by (nonlinear_arith)
                requires
                    lo * m <= o * m + n * d,
                    o * m + n * d <= hi * m,
            ;
            if !self.on_face(r, t, a) {
                assert((lo - o) * m < n * d && n * d < (hi - o) * m) by (nonlinear_arith)
                    requires
                        lo * m <= o * m + n * d,
                        o * m + n * d <= hi * m,
                        o * m + n * d != lo * m,
                        o * m + n * d != hi * m,
                ;
                assert(lo < hi) by (nonlinear_arith)
                    requires
                        m > 0,
                        lo * m < o * m + n * d,
                        o * m + n * d < hi * m,
                ;
                assert((lo - o) * d < (hi - o) * d) by (nonlinear_arith)
                    requires
                        lo < hi,
                        d > 0,
                ;
            } else {
                assert((lo - o) * d < (hi - o) * d) by (nonlinear_arith)
                    requires
                        lo < hi,
                        d > 0,
                ;
            }
        } else {
            assert((o - hi) * m <= n * (-d) && n * (-d) <= (o - lo) * m) by (nonlinear_arith)
                requires
                    lo * m <= o * m + n * d,
                    o * m + n * d <= hi * m,
            ;
            if !self.on_face(r, t, a) {
                assert((o - hi) * m < n * (-d) && n * (-d) < (o - lo) * m) by (nonlinear_arith)
                    requires
                        lo * m <= o * m + n * d,
                        o * m + n * d <= hi * m,
                        o * m + n * d != lo * m,
                        o * m + n * d != hi * m,
                ;
                assert(lo < hi) by (nonlinear_arith)
                    requires
                        m > 0,
                        lo * m < o * m + n * d,
                        o * m + n * d < hi * m,
                ;
            }
            assert((o - hi) * (-d) < (o - lo) * (-d)) by (nonlinear_arith)
                requires
                    lo < hi,
                    d < 0,
            ;
        }
    }

    /// A point of the ray touching the box, at a parameter strictly inside
    /// `(t_min, t_max)`, makes the slab test succeed.
    pub proof fn lemma_touch_point_hits(self, r: Ray, t: Param, t_min: Param, t_max: Param)
        requires
            t.wf(),
            t_min.wf(),
            t_max.wf(),
            t_min.lt(t),
            t.lt(t_max),
            self.touches_at(r, t),
        ensures
            self.slab_hit(r, t_min, t_max),
    {
        assert(forall|a: Axis| self.on_face(r, t, a) ==> self.min.at(a) < self.max.at(a)) by {
            assert forall|a: Axis| self.on_face(r, t, a) implies self.min.at(a) < self.max.at(a) by {
                match a {
                    Axis::X => {},
                    Axis::Y => {},
                    Axis::Z => {},
                }
            }
        }
        assert(forall|a: Axis| #[trigger] self.closed_on(r, t, a)) by {
            assert forall|a: Axis| #[trigger] self.closed_on(r, t, a) by {
                match a {
                    Axis::X => {},
                    Axis::Y => {},
                    Axis::Z => {},
                }
            }
        }
        crate::ray::lemma_lt_trans(t_min, t, t_max);
        assert forall|a: Axis| #[trigger] self.parallel_inside(r, a) by {
            self.lemma_closed_slab(r, t, a);
        }
        assert forall|a: Axis| #[trigger] self.within_interval(r, a, t_min, t_max) by {
            self.lemma_closed_slab(r, t, a);
            if r.direction.at(a) != 0 {
                lemma_le_lt_trans(self.slab_entry(r, a), t, t_max);
                lemma_le_lt_trans(t_min, t, self.slab_exit(r, a));
            }
        }
        assert forall|a: Axis, b: Axis| #[trigger] self.slabs_cross(r, a, b) by {
            self.lemma_closed_slab(r, t, a);
            self.lemma_closed_slab(r, t, b);
            if r.direction.at(a) != 0 && r.direction.at(b) != 0 && a != b {
                assert(!self.on_face(r, t, a) || !self.on_face(r, t, b)) by {
                    match a {
                        Axis::X => match b {
                            Axis::X => {},
                            Axis::Y => {},
                            Axis::Z => {},
                        },
                        Axis::Y => match b {
                            Axis::X => {},
                            Axis::Y => {},
                            Axis::Z => {},
                        },
                        Axis::Z => match b {
                            Axis::X => {},
                            Axis::Y => {},
                            Axis::Z => {},
                        },
                    }
                }
                lemma_le_lt_trans(self.slab_entry(r, a), t, self.slab_exit(r, b));
            }
        }
    }

    /// A point of the ray strictly inside the box, at a parameter in the closed
    /// interval `[t_min, t_max]` with `t_min < t_max`, makes the slab test succeed.
    pub proof fn lemma_inside_point_hits(self, r: Ray, t: Param, t_min: Param, t_max: Param)
        requires
            t.wf(),
            t_min.wf(),
            t_max.wf(),
            !t.lt(t_min),
            !t_max.lt(t),
            t_min.lt(t_max),
            self.inside_at(r, t),
        ensures
            self.slab_hit(r, t_min, t_max),
    {
        assert(forall|a: Axis| #[trigger] self.closed_on(r, t, a) && !self.on_face(r, t, a)) by {
            assert forall|a: Axis| #[trigger] self.closed_on(r, t, a) && !self.on_face(r, t, a) by {
                match a {
                    Axis::X => {},
                    Axis::Y => {},
                    Axis::Z => {},
                }
            }
        }
        assert forall|a: Axis| #[trigger] self.parallel_inside(r, a) by {
            self.lemma_closed_slab(r, t, a);
        }
        assert forall|a: Axis| #[trigger] self.within_interval(r, a, t_min, t_max) by {
            self.lemma_closed_slab(r, t, a);
            if r.direction.at(a) != 0 {
                crate::ray::lemma_le_lt_trans(self.slab_entry(r, a), t, t_max);
                crate::ray::lemma_le_lt_trans(t_min, t, self.slab_exit(r, a));
            }
        }
        assert forall|a: Axis, b: Axis| #[trigger] self.slabs_cross(r, a, b) by {
            self.lemma_closed_slab(r, t, a);
            self.lemma_closed_slab(r, t, b);
            if r.direction.at(a) != 0 && r.direction.at(b) != 0 {
                crate::ray::lemma_lt_trans(self.slab_entry(r, a), t, self.slab_exit(r, b));
            }
        }
    }

    /// A point strictly inside a box is strictly inside every box enclosing it.
    pub proof fn lemma_inside_enclosed(self, inner: AABB, r: Ray, t: Param)
        requires
            t.wf(),
            self.encloses(inner),
            inner.inside_at(r, t),
        ensures
            self.inside_at(r, t),
    {
        let m = t.den as int;
        assert forall|a: Axis| #[trigger] self.encloses_on(inner, a) && inner.inside_on(r, t, a)
            implies self.inside_on(r, t, a) by {
            let (lo, ilo, ihi, hi, p) = (self.min.at(a), inner.min.at(a), inner.max.at(a),
            self.max.at(a), r.at_num(t, a));
            assert(lo * m < p && p < hi * m) by (nonlinear_arith)
                requires
                    m > 0,
                    lo <= ilo,
                    ihi <= hi,
                    ilo * m < p,
                    p < ihi * m,
            {
                assert(lo * m <= ilo * m);
                assert(ihi * m <= hi * m);
            }
        }
        assert(self.encloses_on(inner, Axis::X) && inner.inside_on(r, t, Axis::X));
        assert(self.encloses_on(inner, Axis::Y) && inner.inside_on(r, t, Axis::Y));
        assert(self.encloses_on(inner, Axis::Z) && inner.inside_on(r, t, Axis::Z));
    }

    /// A point touching a box touches every box enclosing it.
    pub proof fn lemma_touch_enclosed(self, inner: AABB, r: Ray, t: Param)
        requires
            t.wf(),
            self.encloses(inner),
            inner.touches_at(r, t),
        ensures
            self.touches_at(r, t),
    {
        let m = t.den as int;
        assert forall|a: Axis| #[trigger] self.encloses_on(inner, a) && inner.closed_on(r, t, a)
            implies self.closed_on(r, t, a) && (self.on_face(r, t, a) ==> inner.on_face(r, t, a)
            && self.min.at(a) <= inner.min.at(a) && inner.max.at(a) <= self.max.at(a)) by {
            let (lo, ilo, ihi, hi, p) = (self.min.at(a), inner.min.at(a), inner.max.at(a),
            self.max.at(a), r.at_num(t, a));
            assert(lo * m <= p && p <= hi * m && (p == lo * m ==> p == ilo * m) && (p == hi * m
                ==> p == ihi * m)) by (nonlinear_arith)
                requires
                    m > 0,
                    lo <= ilo,
                    ihi <= hi,
                    ilo * m <= p,
                    p <= ihi * m,
            {
                assert(lo * m <= ilo * m);
                assert(ihi * m <= hi * m);
            }
        }
        assert(self.encloses_on(inner, Axis::X) && inner.closed_on(r, t, Axis::X));
        assert(self.encloses_on(inner, Axis::Y) && inner.closed_on(r, t, Axis::Y));
        assert(self.encloses_on(inner, Axis::Z) && inner.closed_on(r, t, Axis::Z));
    }

    pub fn merge(self, other: AABB) -> (r: AABB)
        ensures
            r == self.merged(other),
    {
        AABB {
            min: Vec3(
                if self.min.0 <= other.min.0 { self.min.0 } else { other.min.0 },
                if self.min.1 <= other.min.1 { self.min.1 } else { other.min.1 },
                if self.min.2 <= other.min.2 { self.min.2 } else { other.min.2 },
            ),
            max: Vec3(
                if self.max.0 >= other.max.0 { self.max.0 } else { other.max.0 },
                if self.max.1 >= other.max.1 { self.max.1 } else { other.max.1 },
                if self.max.2 >= other.max.2 { self.max.2 } else { other.max.2 },
            ),
        }
    }
}

/// Merging is commutative.
pub proof fn lemma_merge_commutative(a: AABB, b: AABB)
    ensures
        a.merged(b) == b.merged(a),
{
}

/// Merging is associative.
pub proof fn lemma_merge_associative(a: AABB, b: AABB, c: AABB)
    ensures
        a.merged(b).merged(c) == a.merged(b.merged(c)),
{
}

/// Merging a box with itself gives the box back.
pub proof fn lemma_merge_idempotent(a: AABB)
    ensures
        a.merged(a) == a,
{
}

/// The merge of two well-formed boxes is well formed and encloses both.
pub proof fn lemma_merge_encloses(a: AABB, b: AABB)
    requires
        a.wf(),
        b.wf(),
    ensures
        a.merged(b).wf(),
        a.merged(b).encloses(a),
        a.merged(b).encloses(b),
{
}

} // verus!
