use vstd::prelude::*;
use crate::aabb::AABB;
use crate::ray::{lemma_le_lt_trans, lemma_le_trans, lemma_lt_total, Param, Point, Ratio, Ray};

verus! {

/// One meeting of a ray and a surface: the parameter `t`, the point `p`, the
/// normal (a rational vector) facing against the ray, whether the ray came from the
/// surface's outside, the index of the surface's material, the surface coordinates
/// `(u, v)` in `[0, 1] x [0, 1]` where the surface has exact ones, and whether the
/// meeting counts at the ends of a search interval too (`closed`: rectangles and
/// cuboids take the closed interval, spheres the open one).
#[derive(Copy, Clone, Debug)]
pub struct HitRecord {
    pub t: Param,
    pub p: Point,
    pub normal: Point,
    pub front_face: bool,
    pub material: usize,
    pub uv: Option<(Ratio, Ratio)>,
    pub closed: bool,
}

impl HitRecord {
    pub fn new(
        t: Param,
        p: Point,
        normal: Point,
        front_face: bool,
        material: usize,
        uv: Option<(Ratio, Ratio)>,
        closed: bool,
    ) -> (h: HitRecord)
        ensures
            h == (HitRecord { t, p, normal, front_face, material, uv, closed }),
    {
        HitRecord { t, p, normal, front_face, material, uv, closed }
    }
}

/// `t` lies strictly between `t_min` and `t_max`.
pub open spec fn in_open(t: Param, t_min: Param, t_max: Param) -> bool {
    t_min.lt(t) && t.lt(t_max)
}

/// A search over `[t_min, t_max]` takes the record: a closed record when
/// `t_min <= t <= t_max`, an open one when `t_min < t < t_max`.
pub open spec fn accepts(h: HitRecord, t_min: Param, t_max: Param) -> bool {
    if h.closed {
        !h.t.lt(t_min) && !t_max.lt(h.t)
    } else {
        in_open(h.t, t_min, t_max)
    }
}

/// `res` is a nearest record of `recs` that the search over `t_min, t_max` takes,
/// or `None` when it takes none.
pub open spec fn is_nearest(
    recs: Seq<HitRecord>,
    t_min: Param,
    t_max: Param,
    res: Option<HitRecord>,
) -> bool {
    match res {
        None => forall|i: int| 0 <= i < recs.len() ==> !accepts(#[trigger] recs[i], t_min, t_max),
        Some(h) => {
            &&& recs.contains(h)
            &&& accepts(h, t_min, t_max)
            &&& forall|i: int|
                0 <= i < recs.len() && accepts(#[trigger] recs[i], t_min, t_max) ==> !recs[i].t.lt(
                    h.t,
                )
        },
    }
}

/// `res` is nearest as in `is_nearest`, except that a search whose interval holds a
/// single point or none (`t_min < t_max` fails) may come back empty.
pub open spec fn found_nearest(
    recs: Seq<HitRecord>,
    t_min: Param,
    t_max: Param,
    res: Option<HitRecord>,
) -> bool {
    is_nearest(recs, t_min, t_max, res) || (!t_min.lt(t_max) && res is None)
}

/// Every record has a well-formed parameter.
pub open spec fn params_wf(recs: Seq<HitRecord>) -> bool {
    forall|i: int| #![trigger recs[i]] 0 <= i < recs.len() ==> recs[i].t.wf()
}

/// Every record has a well-formed parameter at which the ray's point touches `b`,
/// and lies strictly inside it when the record is closed.
pub open spec fn hits_enclosed(b: AABB, recs: Seq<HitRecord>, r: Ray) -> bool {
    forall|i: int| #![trigger recs[i]] 0 <= i < recs.len() ==> {
        &&& recs[i].t.wf()
        &&& b.touches_at(r, recs[i].t)
        &&& recs[i].closed ==> b.inside_at(r, recs[i].t)
    }
}

/// The bound below which a search for a nearer hit continues.
pub open spec fn closest_bound(res: Option<HitRecord>, t_max: Param) -> Param {
    match res {
        Some(h) => h.t,
        None => t_max,
    }
}

/// A taken record lies between the ends: `t_min <= t <= t_max`.
pub proof fn lemma_accepted_between(h: HitRecord, t_min: Param, t_max: Param)
    requires
        h.t.wf(),
        t_min.wf(),
        t_max.wf(),
        accepts(h, t_min, t_max),
    ensures
        !h.t.lt(t_min),
        !t_max.lt(h.t),
{
    lemma_lt_total(h.t, t_min);
    lemma_lt_total(h.t, t_max);
}

/// A record taken over `[t_min, t_max]` lying below `bound` is taken over
/// `[t_min, bound]`; one taken over `[t_min, bound]` with `bound <= t_max` is taken
/// over `[t_min, t_max]`.
proof fn lemma_accepted_narrow(h: HitRecord, t_min: Param, bound: Param, t_max: Param)
    requires
        h.t.wf(),
        t_min.wf(),
        bound.wf(),
        t_max.wf(),
        !t_max.lt(bound),
    ensures
        accepts(h, t_min, t_max) && h.t.lt(bound) ==> accepts(h, t_min, bound),
        accepts(h, t_min, bound) ==> accepts(h, t_min, t_max),
{
    lemma_lt_total(h.t, bound);
    if accepts(h, t_min, bound) {
        if h.closed {
            lemma_le_trans(h.t, bound, t_max);
        } else {
            lemma_le_lt_trans(h.t, bound, t_max);
        }
    }
}

/// Search over `a ++ b`: the nearest of `a` in the interval, then the nearest of
/// `b` up to it, gives the nearest of the whole, the second winning when it exists.
pub proof fn lemma_nearest_extend(
    a: Seq<HitRecord>,
    b: Seq<HitRecord>,
    t_min: Param,
    t_max: Param,
    res_a: Option<HitRecord>,
    res_b: Option<HitRecord>,
)
    requires
        t_min.wf(),
        t_max.wf(),
        params_wf(a),
        params_wf(b),
        is_nearest(a, t_min, t_max, res_a),
        is_nearest(b, t_min, closest_bound(res_a, t_max), res_b),
    ensures
        is_nearest(a + b, t_min, t_max, if res_b.is_some() { res_b } else { res_a }),
{
    let ab = a + b;
    let bound = closest_bound(res_a, t_max);
    if let Some(h) = res_a {
        let k = choose|k: int| 0 <= k < a.len() && a[k] == h;
        assert(a[k].t.wf());
        lemma_accepted_between(h, t_min, t_max);
    }
    assert(bound.wf());
    assert(!t_max.lt(bound));
    match res_b {
        Some(hb) => {
            let k = choose|k: int| 0 <= k < b.len() && b[k] == hb;
            assert(ab[a.len() + k] == hb);
            assert(hb.t.wf());
            lemma_accepted_narrow(hb, t_min, bound, t_max);
            lemma_accepted_between(hb, t_min, bound);
            assert forall|i: int| 0 <= i < ab.len() && accepts(#[trigger] ab[i], t_min, t_max)
                implies !ab[i].t.lt(hb.t) by {
                if i < a.len() {
                    assert(ab[i] == a[i]);
                    assert(a[i].t.wf());
                    if let Some(ha) = res_a {
                        assert(!a[i].t.lt(ha.t));
                        if ab[i].t.lt(hb.t) {
                            lemma_le_lt_trans(ha.t, a[i].t, hb.t);
                            lemma_lt_total(ha.t, hb.t);
                        }
                    }
                } else {
                    let y = b[i - a.len()];
                    assert(ab[i] == y);
                    assert(y.t.wf());
                    if y.t.lt(hb.t) {
                        lemma_le_lt_trans(y.t, hb.t, bound);
                        lemma_accepted_narrow(y, t_min, bound, t_max);
                    }
                }
            }
        },
        None => {
            match res_a {
                Some(ha) => {
                    let k = choose|k: int| 0 <= k < a.len() && a[k] == ha;
                    assert(ab[k] == ha);
                    assert forall|i: int|
                        0 <= i < ab.len() && accepts(#[trigger] ab[i], t_min, t_max) implies !ab[i].t.lt(
                        ha.t,
                    ) by {
                        if i < a.len() {
                            assert(ab[i] == a[i]);
                        } else {
                            let y = b[i - a.len()];
                            assert(ab[i] == y);
                            assert(y.t.wf());
                            lemma_accepted_narrow(y, t_min, bound, t_max);
                            assert(!accepts(y, t_min, bound));
                        }
                    }
                },
                None => {
                    assert forall|i: int| 0 <= i < ab.len() implies !accepts(
                        #[trigger] ab[i],
                        t_min,
                        t_max,
                    ) by {
                        if i < a.len() {
                            assert(ab[i] == a[i]);
                        } else {
                            assert(ab[i] == b[i - a.len()]);
                        }
                    }
                },
            }
        },
    }
}

/// Every record taken over an interval whose start is at or past `g` lies at or
/// past `g`.
proof fn lemma_taken_not_below(recs: Seq<HitRecord>, t_min: Param, t_max: Param, g: Param)
    requires
        params_wf(recs),
        t_min.wf(),
        t_max.wf(),
        g.wf(),
        !t_min.lt(g),
    ensures
        forall|i: int| 0 <= i < recs.len() && accepts(#[trigger] recs[i], t_min, t_max) ==> !recs[i].t.lt(g),
{
    assert forall|i: int| 0 <= i < recs.len() && accepts(#[trigger] recs[i], t_min, t_max) implies !recs[i].t.lt(g) by {
        assert(recs[i].t.wf());
        lemma_accepted_between(recs[i], t_min, t_max);
        lemma_le_trans(g, t_min, recs[i].t);
    }
}

/// The combination of `lemma_nearest_extend` for searches that may come back empty
/// on an interval of a single point.
pub proof fn lemma_found_extend(
    a: Seq<HitRecord>,
    b: Seq<HitRecord>,
    t_min: Param,
    t_max: Param,
    res_a: Option<HitRecord>,
    res_b: Option<HitRecord>,
)
    requires
        t_min.wf(),
        t_max.wf(),
        params_wf(a),
        params_wf(b),
        found_nearest(a, t_min, t_max, res_a),
        found_nearest(b, t_min, closest_bound(res_a, t_max), res_b),
    ensures
        found_nearest(a + b, t_min, t_max, if res_b.is_some() { res_b } else { res_a }),
{
    let ab = a + b;
    let bound = closest_bound(res_a, t_max);
    if let Some(h) = res_a {
        let k = choose|k: int| 0 <= k < a.len() && a[k] == h;
        assert(a[k].t.wf());
    }
    assert(bound.wf());
    if is_nearest(a, t_min, t_max, res_a) && is_nearest(b, t_min, bound, res_b) {
        lemma_nearest_extend(a, b, t_min, t_max, res_a, res_b);
    } else if !is_nearest(a, t_min, t_max, res_a) {
        // The interval holds at most a point, and `a` found nothing.
        assert(bound == t_max);
        if let Some(hb) = res_b {
            assert(is_nearest(b, t_min, bound, res_b));
            let k = choose|k: int| 0 <= k < b.len() && b[k] == hb;
            assert(ab[a.len() + k] == hb);
            assert(hb.t.wf());
            lemma_accepted_between(hb, t_min, t_max);
            lemma_le_trans(hb.t, t_max, t_min);
            lemma_taken_not_below(ab, t_min, t_max, hb.t);
        }
    } else {
        // `b` was searched over at most a point and found nothing.
        assert(res_b is None && !t_min.lt(bound));
        if let Some(ha) = res_a {
            let k = choose|k: int| 0 <= k < a.len() && a[k] == ha;
            assert(ab[k] == ha);
            lemma_taken_not_below(ab, t_min, t_max, ha.t);
        }
    }
}

/// Records enclosed in `inner` are enclosed in every box enclosing `inner`.
pub proof fn lemma_hits_enclosed_widen(outer: AABB, inner: AABB, recs: Seq<HitRecord>, r: Ray)
    requires
        outer.encloses(inner),
        hits_enclosed(inner, recs, r),
    ensures
        hits_enclosed(outer, recs, r),
{
    assert forall|i: int| #![trigger recs[i]] 0 <= i < recs.len() implies {
        &&& recs[i].t.wf()
        &&& outer.touches_at(r, recs[i].t)
        &&& recs[i].closed ==> outer.inside_at(r, recs[i].t)
    } by {
        outer.lemma_touch_enclosed(inner, r, recs[i].t);
        if recs[i].closed {
            outer.lemma_inside_enclosed(inner, r, recs[i].t);
        }
    }
}

/// Enclosure is kept by concatenation.
pub proof fn lemma_hits_enclosed_concat(b: AABB, x: Seq<HitRecord>, y: Seq<HitRecord>, r: Ray)
    requires
        hits_enclosed(b, x, r),
        hits_enclosed(b, y, r),
    ensures
        hits_enclosed(b, x + y, r),
        params_wf(x + y),
{
    assert forall|i: int| #![trigger (x + y)[i]] 0 <= i < (x + y).len() implies {
        &&& (x + y)[i].t.wf()
        &&& b.touches_at(r, (x + y)[i].t)
        &&& (x + y)[i].closed ==> b.inside_at(r, (x + y)[i].t)
    } by {
        if i < x.len() {
            assert((x + y)[i] == x[i]);
        } else {
            assert((x + y)[i] == y[i - x.len()]);
        }
    }
}

/// When the slab test of an enclosing box fails, no enclosed record lies in the
/// interval.
pub proof fn lemma_box_miss_no_hit(b: AABB, recs: Seq<HitRecord>, r: Ray, t_min: Param, t_max: Param)
    requires
        t_min.wf(),
        t_max.wf(),
        t_min.lt(t_max),
        hits_enclosed(b, recs, r),
        !b.slab_hit(r, t_min, t_max),
    ensures
        is_nearest(recs, t_min, t_max, None),
{
    assert forall|i: int| 0 <= i < recs.len() implies !accepts(#[trigger] recs[i], t_min, t_max) by {
        let h = recs[i];
        assert(h.t.wf() && b.touches_at(r, h.t));
        if accepts(h, t_min, t_max) {
            if h.closed {
                b.lemma_inside_point_hits(r, h.t, t_min, t_max);
            } else {
                b.lemma_touch_point_hits(r, h.t, t_min, t_max);
            }
        }
    }
}

} // verus!
