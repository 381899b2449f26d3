use vstd::prelude::*;
use crate::aabb::AABB;
use crate::bvh::BVH;
use crate::cuboid::Cuboid;
use crate::hittable::{
    closest_bound, found_nearest, hits_enclosed, is_nearest, lemma_found_extend,
    lemma_nearest_extend, params_wf, HitRecord,
};
use crate::ray::{Param, Ray};
use crate::rect::{XYRect, XZRect, YZRect};
use crate::moving_sphere::MovingSphere;
use crate::sphere::Sphere;
use crate::vec::Axis;

verus! {

/// A surface a ray can meet: a sphere, a moving sphere, one of the rectangles, a
/// cuboid, or a whole hierarchy of surfaces nested as one.
#[derive(Debug)]
pub enum Surface {
    Bvh(Box<BVH>),
    Sphere(Sphere),
    MovingSphere(MovingSphere),
    XY(XYRect),
    XZ(XZRect),
    YZ(YZRect),
    Cuboid(Cuboid),
}

impl Surface {
    pub open spec fn wf(self) -> bool
        decreases self,
    {
        match self {
            Surface::Bvh(b) => b.wf(),
            Surface::Sphere(s) => s.wf(),
            Surface::MovingSphere(s) => s.wf(),
            Surface::XY(s) => s.0.wf() && s.0.axis == Axis::Z,
            Surface::XZ(s) => s.0.wf() && s.0.axis == Axis::Y,
            Surface::YZ(s) => s.0.wf() && s.0.axis == Axis::X,
            Surface::Cuboid(c) => c.wf(),
        }
    }

    /// The surface lies on the grid at `time` (only a moving sphere can leave it),
    /// and a nested hierarchy covers `time`.
    pub open spec fn fits_at(self, time: int) -> bool {
        match self {
            Surface::MovingSphere(s) => s.fits_at(time),
            Surface::Bvh(b) => b.time0 <= time <= b.time1,
            _ => true,
        }
    }

    /// Well formed, and on the grid at both `t0` and `t1`.
    pub open spec fn ready(self, t0: int, t1: int) -> bool {
        self.wf() && self.fits_at(t0) && self.fits_at(t1)
    }

    /// On the grid at both ends of an interval, a surface is on it throughout.
    pub proof fn lemma_fits_between(self, t0: int, time: int, t1: int)
        requires
            self.wf(),
            t0 <= time <= t1,
            self.fits_at(t0),
            self.fits_at(t1),
        ensures
            self.fits_at(time),
    {
        if let Surface::MovingSphere(s) = self {
            s.lemma_fits_between(t0, time, t1);
        }
    }

    /// All meetings of the ray with the surface, over every parameter.
    pub open spec fn hits(self, r: Ray) -> Seq<HitRecord>
        decreases self,
    {
        match self {
            Surface::Bvh(b) => b.tree_hits(r),
            Surface::Sphere(s) => s.hits(r),
            Surface::MovingSphere(s) => s.hits(r),
            Surface::XY(s) => s.0.hits(r),
            Surface::XZ(s) => s.0.hits(r),
            Surface::YZ(s) => s.0.hits(r),
            Surface::Cuboid(c) => c.hits(r),
        }
    }

    /// A box holding every point of the surface over the times `[t0, t1]`.
    pub open spec fn bounds(self, t0: int, t1: int) -> AABB {
        match self {
            Surface::Bvh(b) => b.bounding_box,
            Surface::Sphere(s) => s.bounds(),
            Surface::MovingSphere(s) => s.bounds(t0, t1),
            Surface::XY(s) => s.0.bounds(),
            Surface::XZ(s) => s.0.bounds(),
            Surface::YZ(s) => s.0.bounds(),
            Surface::Cuboid(c) => c.bounds(),
        }
    }

    /// A nested hierarchy.
    pub open spec fn nested(self) -> bool {
        self is Bvh
    }

    /// The nearest meeting with the ray taken over `t_min, t_max` (see `accepts`);
    /// only a nested hierarchy may find nothing on an interval of a single point.
    pub fn hit(&self, r: &Ray, t_min: Param, t_max: Param) -> (res: Option<HitRecord>)
        requires
            self.wf(),
            self.fits_at(r.time as int),
            r.bounded(),
            t_min.wf(),
            t_max.wf(),
        ensures
            found_nearest(self.hits(*r), t_min, t_max, res),
            !self.nested() ==> is_nearest(self.hits(*r), t_min, t_max, res),
        decreases self,
    {
        match self {
            Surface::Bvh(b) => b.hit(r, t_min, t_max),
            Surface::Sphere(s) => s.hit(r, t_min, t_max),
            Surface::MovingSphere(s) => s.hit(r, t_min, t_max),
            Surface::XY(s) => s.0.hit(r, t_min, t_max),
            Surface::XZ(s) => s.0.hit(r, t_min, t_max),
            Surface::YZ(s) => s.0.hit(r, t_min, t_max),
            Surface::Cuboid(c) => c.hit(r, t_min, t_max),
        }
    }

    /// The box over the times `[t0, t1]`.
    pub fn bounding_box(&self, t0: i32, t1: i32) -> (b: AABB)
        requires
            self.ready(t0 as int, t1 as int),
        ensures
            b == self.bounds(t0 as int, t1 as int),
            b.wf(),
    {
        match self {
            Surface::Bvh(b) => {
                proof {
                    b.lemma_box_wf();
                }
                b.bounding_box
            },
            Surface::Sphere(s) => s.bounding_box(),
            Surface::MovingSphere(s) => s.bounding_box(t0, t1),
            Surface::XY(s) => s.0.bounding_box(),
            Surface::XZ(s) => s.0.bounding_box(),
            Surface::YZ(s) => s.0.bounding_box(),
            Surface::Cuboid(c) => c.bounding_box(),
        }
    }

    /// The surface's box is well formed.
    pub proof fn lemma_bounds_wf(self, t0: int, t1: int)
        requires
            self.ready(t0, t1),
        ensures
            self.bounds(t0, t1).wf(),
        decreases self,
    {
        match self {
            Surface::MovingSphere(s) => {
                s.lemma_sphere_at_wf(t0);
                s.lemma_sphere_at_wf(t1);
                crate::aabb::lemma_merge_encloses(s.sphere_at(t0).bounds(), s.sphere_at(t1).bounds());
            },
            Surface::XY(s) => s.0.lemma_bounds_wf(),
            Surface::XZ(s) => s.0.lemma_bounds_wf(),
            Surface::YZ(s) => s.0.lemma_bounds_wf(),
            Surface::Bvh(b) => b.lemma_wf_facts(
                Ray { origin: crate::vec::Vec3(0, 0, 0), direction: crate::vec::Vec3(0, 0, 0), time: b.time0 },
            ),
            _ => {},
        }
    }

    /// For a ray whose time lies in `[t0, t1]`, every meeting touches the surface's
    /// box over `[t0, t1]` (see `AABB::touches_at`).
    pub proof fn lemma_hits_enclosed(self, r: Ray, t0: int, t1: int)
        requires
            self.wf(),
            r.bounded(),
            t0 <= r.time <= t1,
            self.fits_at(t0),
            self.fits_at(t1),
        ensures
            hits_enclosed(self.bounds(t0, t1), self.hits(r), r),
            params_wf(self.hits(r)),
        decreases self,
    {
        match self {
            Surface::Bvh(b) => b.lemma_wf_facts(r),
            Surface::Sphere(s) => s.lemma_hits_enclosed(r),
            Surface::MovingSphere(s) => s.lemma_hits_enclosed(r, t0, t1),
            Surface::XY(s) => s.0.lemma_hits_enclosed(r),
            Surface::XZ(s) => s.0.lemma_hits_enclosed(r),
            Surface::YZ(s) => s.0.lemma_hits_enclosed(r),
            Surface::Cuboid(c) => c.lemma_hits_enclosed(r),
        }
    }
}

/// The meetings of the ray with each surface, in order.
pub open spec fn scene_hits(surfaces: Seq<Surface>, r: Ray) -> Seq<HitRecord>
    decreases surfaces.len(),
{
    if surfaces.len() == 0 {
        seq![]
    } else {
        scene_hits(surfaces.drop_last(), r) + surfaces.last().hits(r)
    }
}

/// Every surface is well formed.
pub open spec fn all_wf(surfaces: Seq<Surface>) -> bool {
    forall|i: int| #![trigger surfaces[i]] 0 <= i < surfaces.len() ==> surfaces[i].wf()
}

/// No surface is a nested hierarchy.
pub open spec fn no_nested(surfaces: Seq<Surface>) -> bool {
    forall|i: int| #![trigger surfaces[i]] 0 <= i < surfaces.len() ==> !surfaces[i].nested()
}

/// Every surface is ready over `[t0, t1]`.
pub open spec fn all_ready(surfaces: Seq<Surface>, t0: int, t1: int) -> bool {
    forall|i: int| #![trigger surfaces[i]] 0 <= i < surfaces.len() ==> surfaces[i].ready(t0, t1)
}

/// The boxes over `[t0, t1]` of the surfaces, merged from first to last.
pub open spec fn merged_bounds(surfaces: Seq<Surface>, t0: int, t1: int) -> AABB
    decreases surfaces.len(),
{
    if surfaces.len() <= 1 {
        surfaces[0].bounds(t0, t1)
    } else {
        merged_bounds(surfaces.drop_last(), t0, t1).merged(surfaces.last().bounds(t0, t1))
    }
}

/// The meetings with a scene all have well-formed parameters.
pub proof fn lemma_scene_params_wf(surfaces: Seq<Surface>, r: Ray)
    requires
        all_ready(surfaces, r.time as int, r.time as int),
        r.bounded(),
    ensures
        params_wf(scene_hits(surfaces, r)),
    decreases surfaces.len(),
{
    if surfaces.len() > 0 {
        let init = surfaces.drop_last();
        assert forall|i: int| #![trigger init[i]] 0 <= i < init.len() implies init[i].ready(
            r.time as int,
            r.time as int,
        ) by {
            assert(init[i] == surfaces[i]);
        }
        lemma_scene_params_wf(init, r);
        surfaces.last().lemma_hits_enclosed(r, r.time as int, r.time as int);
        let (x, y) = (scene_hits(init, r), surfaces.last().hits(r));
        assert forall|i: int| #![trigger (x + y)[i]] 0 <= i < (x + y).len() implies (x + y)[i].t.wf() by {
            if i < x.len() {
                assert((x + y)[i] == x[i]);
            } else {
                assert((x + y)[i] == y[i - x.len()]);
            }
        }
    }
}

/// A list of surfaces searched one after another.
#[derive(Debug)]
pub struct HittableList {
    pub list: Vec<Surface>,
}

impl HittableList {
    pub open spec fn wf(self) -> bool {
        all_wf(self.list@)
    }

    pub fn new() -> (l: HittableList)
        ensures
            l.list@ == Seq::<Surface>::empty(),
    {
        HittableList { list: Vec::new() }
    }

    pub fn push(&mut self, item: Surface)
        ensures
            final(self).list@ == old(self).list@.push(item),
    {
        self.list.push(item);
    }

    /// The nearest meeting with any surface, taken over `t_min, t_max` (see
    /// `accepts`), each surface searched only up to the nearest meeting found so far.
    /// Without nested hierarchies no search comes back empty wrongly.
    pub fn hit(&self, r: &Ray, t_min: Param, t_max: Param) -> (res: Option<HitRecord>)
        requires
            self.wf(),
            all_ready(self.list@, r.time as int, r.time as int),
            r.bounded(),
            t_min.wf(),
            t_max.wf(),
        ensures
            found_nearest(scene_hits(self.list@, *r), t_min, t_max, res),
            no_nested(self.list@) ==> is_nearest(scene_hits(self.list@, *r), t_min, t_max, res),
    {
        let mut res: Option<HitRecord> = None;
        let mut closest = t_max;
        let mut i: usize = 0;
        assert(scene_hits(self.list@.take(0), *r) =~= seq![]);
        while i < self.list.len()
            invariant
                self.wf(),
                all_ready(self.list@, r.time as int, r.time as int),
                r.bounded(),
                t_min.wf(),
                t_max.wf(),
                i <= self.list@.len(),
                closest == closest_bound(res, t_max),
                found_nearest(scene_hits(self.list@.take(i as int), *r), t_min, t_max, res),
                no_nested(self.list@) ==> is_nearest(
                    scene_hits(self.list@.take(i as int), *r),
                    t_min,
                    t_max,
                    res,
                ),
                params_wf(scene_hits(self.list@.take(i as int), *r)),
            decreases self.list@.len() - i,
        {
            let s = &self.list[i];
            let found = s.hit(r, t_min, closest);
            proof {
                let pre = self.list@.take(i as int);
                let next = self.list@.take(i as int + 1);
                assert(next.drop_last() =~= pre);
                assert(next.last() == self.list@[i as int]);
                assert(self.list@[i as int].ready(r.time as int, r.time as int));
                s.lemma_hits_enclosed(*r, r.time as int, r.time as int);
                lemma_found_extend(scene_hits(pre, *r), s.hits(*r), t_min, t_max, res, found);
                if no_nested(self.list@) {
                    assert(!self.list@[i as int].nested());
                    lemma_nearest_extend(scene_hits(pre, *r), s.hits(*r), t_min, t_max, res, found);
                }
                assert(all_ready(next, r.time as int, r.time as int)) by {
                    assert forall|j: int| #![trigger next[j]] 0 <= j < next.len() implies next[j].ready(
                        r.time as int,
                        r.time as int,
                    ) by {
                        assert(next[j] == self.list@[j]);
                    }
                }
                lemma_scene_params_wf(next, *r);
            }
            if let Some(h) = found {
                closest = h.t;
                res = Some(h);
            }
            i += 1;
        }
        assert(self.list@.take(i as int) =~= self.list@);
        res
    }

    /// The merge of the surfaces' boxes over `[t0, t1]`, or `None` for an empty list.
    pub fn bounding_box(&self, t0: i32, t1: i32) -> (b: Option<AABB>)
        requires
            all_ready(self.list@, t0 as int, t1 as int),
        ensures
            b == (if self.list@.len() == 0 {
                None
            } else {
                Some(merged_bounds(self.list@, t0 as int, t1 as int))
            }),
    {
        if self.list.len() == 0 {
            return None;
        }
        let mut acc = self.list[0].bounding_box(t0, t1);
        let mut i: usize = 1;
        assert(self.list@.take(1).drop_last() =~= Seq::<Surface>::empty());
        while i < self.list.len()
            invariant
                all_ready(self.list@, t0 as int, t1 as int),
                1 <= i <= self.list@.len(),
                acc == merged_bounds(self.list@.take(i as int), t0 as int, t1 as int),
            decreases self.list@.len() - i,
        {
            let b = self.list[i].bounding_box(t0, t1);
            proof {
                let next = self.list@.take(i as int + 1);
                assert(next.drop_last() =~= self.list@.take(i as int));
                assert(next.last() == self.list@[i as int]);
            }
            acc = acc.merge(b);
            i += 1;
        }
        assert(self.list@.take(i as int) =~= self.list@);
        Some(acc)
    }
}

} // verus!
