use vstd::prelude::*;
use crate::aabb::AABB;
use crate::hittable::{
    closest_bound, hits_enclosed, is_nearest, lemma_hits_enclosed_concat,
    lemma_hits_enclosed_widen, lemma_nearest_extend, params_wf, HitRecord,
};
use crate::ray::{Param, Ray};
use crate::rect::{padded, AxisRect};
use crate::vec::{Axis, Vec3};

verus! {

/// The meetings of the ray with each rectangle, in order.
pub open spec fn sides_hits(sides: Seq<AxisRect>, r: Ray) -> Seq<HitRecord>
    decreases sides.len(),
{
    if sides.len() == 0 {
        seq![]
    } else {
        sides_hits(sides.drop_last(), r) + sides.last().hits(r)
    }
}

/// The six faces of the box `[p0, p1]`: front and back, bottom and top, left and right.
pub open spec fn faces(p0: Vec3, p1: Vec3, material: usize) -> Seq<AxisRect> {
    seq![
        AxisRect { axis: Axis::Z, a0: p0.0, a1: p1.0, b0: p0.1, b1: p1.1, k: p1.2, material },
        AxisRect { axis: Axis::Z, a0: p0.0, a1: p1.0, b0: p0.1, b1: p1.1, k: p0.2, material },
        AxisRect { axis: Axis::Y, a0: p0.0, a1: p1.0, b0: p0.2, b1: p1.2, k: p1.1, material },
        AxisRect { axis: Axis::Y, a0: p0.0, a1: p1.0, b0: p0.2, b1: p1.2, k: p0.1, material },
        AxisRect { axis: Axis::X, a0: p0.1, a1: p1.1, b0: p0.2, b1: p1.2, k: p1.0, material },
        AxisRect { axis: Axis::X, a0: p0.1, a1: p1.1, b0: p0.2, b1: p1.2, k: p0.0, material },
    ]
}

/// The corners `p0 <= p1` of a box whose faces leave room for a unit margin.
pub open spec fn corners_ok(p0: Vec3, p1: Vec3) -> bool {
    &&& p0.0 <= p1.0 && p0.1 <= p1.1 && p0.2 <= p1.2
    &&& padded(p0.0 as int) && padded(p0.1 as int) && padded(p0.2 as int)
    &&& padded(p1.0 as int) && padded(p1.1 as int) && padded(p1.2 as int)
}

/// A solid box `[box_min, box_max]` of one material, made of six rectangles.
#[derive(Clone, Debug)]
pub struct Cuboid {
    pub box_min: Vec3,
    pub box_max: Vec3,
    pub material: usize,
    pub sides: Vec<AxisRect>,
}

impl Cuboid {
    pub open spec fn wf(self) -> bool {
        &&& corners_ok(self.box_min, self.box_max)
        &&& self.sides@ == faces(self.box_min, self.box_max, self.material)
        &&& forall|i: int| #![trigger self.sides@[i]] 0 <= i < self.sides@.len() ==> {
            &&& self.sides@[i].wf()
            &&& self.bounds().encloses(self.sides@[i].bounds())
        }
    }

    /// The box widened by one unit on every side.
    pub open spec fn bounds(self) -> AABB {
        AABB {
            min: Vec3(
                (self.box_min.0 - 1) as i32,
                (self.box_min.1 - 1) as i32,
                (self.box_min.2 - 1) as i32,
            ),
            max: Vec3(
                (self.box_max.0 + 1) as i32,
                (self.box_max.1 + 1) as i32,
                (self.box_max.2 + 1) as i32,
            ),
        }
    }

    /// All meetings of the ray with the faces.
    pub open spec fn hits(self, r: Ray) -> Seq<HitRecord> {
        sides_hits(self.sides@, r)
    }

    /// The box with corners `p0 <= p1`, every face of one material.
    pub fn new(p0: Vec3, p1: Vec3, material: usize) -> (c: Cuboid)
        requires
            corners_ok(p0, p1),
        ensures
            c.box_min == p0,
            c.box_max == p1,
            c.material == material,
            c.sides@ == faces(p0, p1, material),
            c.wf(),
    {
        let mut sides: Vec<AxisRect> = Vec::new();
        sides.push(AxisRect::new(Axis::Z, p0.0, p1.0, p0.1, p1.1, p1.2, material));
        sides.push(AxisRect::new(Axis::Z, p0.0, p1.0, p0.1, p1.1, p0.2, material));
        sides.push(AxisRect::new(Axis::Y, p0.0, p1.0, p0.2, p1.2, p1.1, material));
        sides.push(AxisRect::new(Axis::Y, p0.0, p1.0, p0.2, p1.2, p0.1, material));
        sides.push(AxisRect::new(Axis::X, p0.1, p1.1, p0.2, p1.2, p1.0, material));
        sides.push(AxisRect::new(Axis::X, p0.1, p1.1, p0.2, p1.2, p0.0, material));
        let c = Cuboid { box_min: p0, box_max: p1, material, sides };
        assert(c.sides@ =~= faces(p0, p1, material));
        c
    }

    /// The nearest meeting with a face in `(t_min, t_max)`.
    pub fn hit(&self, r: &Ray, t_min: Param, t_max: Param) -> (res: Option<HitRecord>)
        requires
            self.wf(),
            t_min.wf(),
            t_max.wf(),
        ensures
            is_nearest(self.hits(*r), t_min, t_max, res),
    {
        let mut res: Option<HitRecord> = None;
        let mut closest = t_max;
        let mut i: usize = 0;
        assert(sides_hits(self.sides@.take(0), *r) =~= seq![]);
        while i < self.sides.len()
            invariant
                self.wf(),
                t_min.wf(),
                t_max.wf(),
                i <= self.sides@.len(),
                closest == closest_bound(res, t_max),
                is_nearest(sides_hits(self.sides@.take(i as int), *r), t_min, t_max, res),
                params_wf(sides_hits(self.sides@.take(i as int), *r)),
            decreases self.sides@.len() - i,
        {
            let side = &self.sides[i];
            let found = side.hit(r, t_min, closest);
            proof {
                let pre = self.sides@.take(i as int);
                let next = self.sides@.take(i as int + 1);
                assert(next.drop_last() =~= pre);
                assert(next.last() == self.sides@[i as int]);
                side.lemma_hits_enclosed(*r);
                lemma_nearest_extend(sides_hits(pre, *r), side.hits(*r), t_min, t_max, res, found);
                lemma_params_wf_concat(sides_hits(pre, *r), side.hits(*r));
            }
            if let Some(h) = found {
                closest = h.t;
                res = Some(h);
            }
            i += 1;
        }
        assert(self.sides@.take(i as int) =~= self.sides@);
        res
    }

    pub fn bounding_box(&self) -> (b: AABB)
        requires
            self.wf(),
        ensures
            b == self.bounds(),
            b.wf(),
    {
        AABB {
            min: Vec3(self.box_min.0 - 1, self.box_min.1 - 1, self.box_min.2 - 1),
            max: Vec3(self.box_max.0 + 1, self.box_max.1 + 1, self.box_max.2 + 1),
        }
    }

    /// Every meeting touches the widened box (see `AABB::touches_at`).
    pub proof fn lemma_hits_enclosed(self, r: Ray)
        requires
            self.wf(),
        ensures
            hits_enclosed(self.bounds(), self.hits(r), r),
            params_wf(self.hits(r)),
    {
        lemma_sides_enclosed(self.bounds(), self.sides@, r);
    }
}

proof fn lemma_params_wf_concat(x: Seq<HitRecord>, y: Seq<HitRecord>)
    requires
        params_wf(x),
        params_wf(y),
    ensures
        params_wf(x + y),
{
    assert forall|i: int| #![trigger (x + y)[i]] 0 <= i < (x + y).len() implies (x + y)[i].t.wf() by {
        if i < x.len() {
            assert((x + y)[i] == x[i]);
        } else {
            assert((x + y)[i] == y[i - x.len()]);
        }
    }
}

proof fn lemma_sides_enclosed(b: AABB, sides: Seq<AxisRect>, r: Ray)
    requires
        forall|i: int| #![trigger sides[i]] 0 <= i < sides.len() ==> {
            &&& sides[i].wf()
            &&& b.encloses(sides[i].bounds())
        },
    ensures
        hits_enclosed(b, sides_hits(sides, r), r),
        params_wf(sides_hits(sides, r)),
    decreases sides.len(),
{
    if sides.len() > 0 {
        let init = sides.drop_last();
        assert forall|i: int| #![trigger init[i]] 0 <= i < init.len() implies {
            &&& init[i].wf()
            &&& b.encloses(init[i].bounds())
        } by {
            assert(init[i] == sides[i]);
        }
        lemma_sides_enclosed(b, init, r);
        let last = sides[sides.len() - 1];
        last.lemma_hits_enclosed(r);
        lemma_hits_enclosed_widen(b, last.bounds(), last.hits(r), r);
        lemma_hits_enclosed_concat(b, sides_hits(init, r), last.hits(r), r);
    }
}

} // verus!
