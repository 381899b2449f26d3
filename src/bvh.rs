use vstd::multiset::Multiset;
use vstd::prelude::*;
use crate::aabb::{lemma_merge_encloses, max_i, min_i, AABB};
use crate::hittable::{
    accepts, found_nearest, hits_enclosed, is_nearest, lemma_accepted_between,
    lemma_box_miss_no_hit, lemma_found_extend, lemma_hits_enclosed_concat,
    lemma_hits_enclosed_widen, params_wf, HitRecord,
};
use crate::ray::{lemma_lt_total, Param, Ray};
use crate::surface::{all_ready, all_wf, merged_bounds, scene_hits, Surface};
use crate::vec::Axis;

verus! {

broadcast use vstd::seq_lib::group_to_multiset_ensures, vstd::seq_lib::lemma_multiset_commutative;

/// The least coordinate along `a` of the surfaces' boxes over `[t0, t1]`.
pub open spec fn low_end(surfaces: Seq<Surface>, a: Axis, t0: i32, t1: i32) -> int
    decreases surfaces.len(),
{
    if surfaces.len() <= 1 {
        surfaces[0].bounds(t0 as int, t1 as int).min.at(a)
    } else {
        min_i(low_end(surfaces.drop_last(), a, t0, t1), surfaces.last().bounds(t0 as int, t1 as int).min.at(a))
    }
}

/// The greatest coordinate along `a` of the surfaces' boxes over `[t0, t1]`.
pub open spec fn high_end(surfaces: Seq<Surface>, a: Axis, t0: i32, t1: i32) -> int
    decreases surfaces.len(),
{
    if surfaces.len() <= 1 {
        surfaces[0].bounds(t0 as int, t1 as int).max.at(a)
    } else {
        max_i(high_end(surfaces.drop_last(), a, t0, t1), surfaces.last().bounds(t0 as int, t1 as int).max.at(a))
    }
}

/// How far the surfaces' boxes over `[t0, t1]` reach along `a`.
pub open spec fn extent(surfaces: Seq<Surface>, a: Axis, t0: i32, t1: i32) -> int {
    high_end(surfaces, a, t0, t1) - low_end(surfaces, a, t0, t1)
}

/// Twice the midpoint along `a` of the surface's box over `[t0, t1]`: the key
/// surfaces are sorted by.
pub open spec fn midpoint_key(s: Surface, a: Axis, t0: i32, t1: i32) -> int {
    s.bounds(t0 as int, t1 as int).min.at(a) + s.bounds(t0 as int, t1 as int).max.at(a)
}

/// The surfaces are in ascending order of their midpoints along `a`.
pub open spec fn sorted_by_midpoint(surfaces: Seq<Surface>, a: Axis, t0: i32, t1: i32) -> bool {
    forall|i: int, j: int|
        0 <= i < j < surfaces.len() ==> midpoint_key(#[trigger] surfaces[i], a, t0, t1) <= midpoint_key(
            #[trigger] surfaces[j],
            a,
            t0,
            t1,
        )
}

/// `a` is an axis of greatest extent of the surfaces.
pub open spec fn longest(surfaces: Seq<Surface>, a: Axis, t0: i32, t1: i32) -> bool {
    forall|b: Axis| extent(surfaces, a, t0, t1) >= #[trigger] extent(surfaces, b, t0, t1)
}

/// Every surface of `left` has its midpoint along `a` at or below that of every
/// surface of `right`.
pub open spec fn split_by(left: Seq<Surface>, right: Seq<Surface>, a: Axis, t0: i32, t1: i32) -> bool {
    forall|x: Surface, y: Surface|
        #[trigger] left.contains(x) && #[trigger] right.contains(y) ==> midpoint_key(x, a, t0, t1)
            <= midpoint_key(y, a, t0, t1)
}

/// `low_end` is the least minimum and `high_end` the greatest maximum, each reached.
proof fn lemma_ends(s: Seq<Surface>, a: Axis, t0: i32, t1: i32)
    requires
        s.len() > 0,
    ensures
        forall|i: int| 0 <= i < s.len() ==> low_end(s, a, t0, t1) <= (#[trigger] s[i]).bounds(t0 as int, t1 as int).min.at(a)
            && s[i].bounds(t0 as int, t1 as int).max.at(a) <= high_end(s, a, t0, t1),
        exists|i: int| 0 <= i < s.len() && low_end(s, a, t0, t1) == (#[trigger] s[i]).bounds(t0 as int, t1 as int).min.at(a),
        exists|i: int| 0 <= i < s.len() && high_end(s, a, t0, t1) == (#[trigger] s[i]).bounds(t0 as int, t1 as int).max.at(a),
    decreases s.len(),
{
    if s.len() > 1 {
        let init = s.drop_last();
        lemma_ends(init, a, t0, t1);
        assert forall|i: int| 0 <= i < s.len() implies low_end(s, a, t0, t1) <= (#[trigger] s[i]).bounds(t0 as int, t1 as int).min.at(a)
            && s[i].bounds(t0 as int, t1 as int).max.at(a) <= high_end(s, a, t0, t1) by {
            if i < s.len() - 1 {
                assert(s[i] == init[i]);
            }
        }
        let i = choose|i: int| 0 <= i < init.len() && low_end(init, a, t0, t1) == (#[trigger] init[i]).bounds(t0 as int, t1 as int).min.at(a);
        let j = choose|j: int| 0 <= j < init.len() && high_end(init, a, t0, t1) == (#[trigger] init[j]).bounds(t0 as int, t1 as int).max.at(a);
        assert(init[i] == s[i] && init[j] == s[j]);
        let last = s.len() - 1;
        if low_end(s, a, t0, t1) == s[last].bounds(t0 as int, t1 as int).min.at(a) {
            assert(low_end(s, a, t0, t1) == s[last].bounds(t0 as int, t1 as int).min.at(a));
        } else {
            assert(low_end(s, a, t0, t1) == s[i].bounds(t0 as int, t1 as int).min.at(a));
        }
        if high_end(s, a, t0, t1) == s[last].bounds(t0 as int, t1 as int).max.at(a) {
            assert(high_end(s, a, t0, t1) == s[last].bounds(t0 as int, t1 as int).max.at(a));
        } else {
            assert(high_end(s, a, t0, t1) == s[j].bounds(t0 as int, t1 as int).max.at(a));
        }
    } else {
        assert(low_end(s, a, t0, t1) == s[0].bounds(t0 as int, t1 as int).min.at(a));
        assert(high_end(s, a, t0, t1) == s[0].bounds(t0 as int, t1 as int).max.at(a));
    }
}

/// The extent depends on which surfaces there are, not on their order.
proof fn lemma_extent_permuted(s: Seq<Surface>, u: Seq<Surface>, a: Axis, t0: i32, t1: i32)
    requires
        s.len() > 0,
        s.to_multiset() == u.to_multiset(),
    ensures
        extent(s, a, t0, t1) == extent(u, a, t0, t1),
        low_end(s, a, t0, t1) == low_end(u, a, t0, t1),
        high_end(s, a, t0, t1) == high_end(u, a, t0, t1),
{
    assert(u.len() == s.len()) by {
        vstd::seq_lib::to_multiset_len(s);
        vstd::seq_lib::to_multiset_len(u);
    }
    lemma_ends(s, a, t0, t1);
    lemma_ends(u, a, t0, t1);
    lemma_same_members(s, u);
    let i = choose|i: int| 0 <= i < s.len() && low_end(s, a, t0, t1) == (#[trigger] s[i]).bounds(t0 as int, t1 as int).min.at(a);
    let j = choose|j: int| 0 <= j < u.len() && low_end(u, a, t0, t1) == (#[trigger] u[j]).bounds(t0 as int, t1 as int).min.at(a);
    let k = choose|k: int| 0 <= k < s.len() && high_end(s, a, t0, t1) == (#[trigger] s[k]).bounds(t0 as int, t1 as int).max.at(a);
    let l = choose|l: int| 0 <= l < u.len() && high_end(u, a, t0, t1) == (#[trigger] u[l]).bounds(t0 as int, t1 as int).max.at(a);
    assert(s.contains(s[i]) && s.contains(s[k]) && u.contains(u[j]) && u.contains(u[l]));
    let i2 = choose|i2: int| 0 <= i2 < u.len() && u[i2] == s[i];
    let k2 = choose|k2: int| 0 <= k2 < u.len() && u[k2] == s[k];
    let j2 = choose|j2: int| 0 <= j2 < s.len() && s[j2] == u[j];
    let l2 = choose|l2: int| 0 <= l2 < s.len() && s[l2] == u[l];
    assert(low_end(u, a, t0, t1) <= u[i2].bounds(t0 as int, t1 as int).min.at(a));
    assert(low_end(s, a, t0, t1) <= s[j2].bounds(t0 as int, t1 as int).min.at(a));
    assert(u[k2].bounds(t0 as int, t1 as int).max.at(a) <= high_end(u, a, t0, t1));
    assert(s[l2].bounds(t0 as int, t1 as int).max.at(a) <= high_end(s, a, t0, t1));
}

/// The merged box of the surfaces spans, along each axis, from their least to
/// their greatest coordinate.
proof fn lemma_merged_is_ends(s: Seq<Surface>, a: Axis, t0: i32, t1: i32)
    requires
        s.len() > 0,
        forall|i: int| #![trigger s[i]] 0 <= i < s.len() ==> s[i].bounds(t0 as int, t1 as int).wf(),
    ensures
        merged_bounds(s, t0 as int, t1 as int).min.at(a) == low_end(s, a, t0, t1),
        merged_bounds(s, t0 as int, t1 as int).max.at(a) == high_end(s, a, t0, t1),
    decreases s.len(),
{
    if s.len() > 1 {
        let init = s.drop_last();
        assert forall|i: int| #![trigger init[i]] 0 <= i < init.len() implies init[i].bounds(
            t0 as int,
            t1 as int,
        ).wf() by {
            assert(init[i] == s[i]);
        }
        lemma_merged_is_ends(init, a, t0, t1);
        match a {
            Axis::X => {},
            Axis::Y => {},
            Axis::Z => {},
        }
    } else {
        match a {
            Axis::X => {},
            Axis::Y => {},
            Axis::Z => {},
        }
    }
}

/// The least coordinate of a concatenation is the lesser of the parts' least, and
/// likewise for the greatest.
proof fn lemma_ends_concat(x: Seq<Surface>, y: Seq<Surface>, a: Axis, t0: i32, t1: i32)
    requires
        x.len() > 0,
        y.len() > 0,
    ensures
        low_end(x + y, a, t0, t1) == min_i(low_end(x, a, t0, t1), low_end(y, a, t0, t1)),
        high_end(x + y, a, t0, t1) == max_i(high_end(x, a, t0, t1), high_end(y, a, t0, t1)),
{
    let xy = x + y;
    lemma_ends(x, a, t0, t1);
    lemma_ends(y, a, t0, t1);
    lemma_ends(xy, a, t0, t1);
    let i = choose|i: int| 0 <= i < x.len() && low_end(x, a, t0, t1) == (#[trigger] x[i]).bounds(t0 as int, t1 as int).min.at(a);
    let j = choose|j: int| 0 <= j < y.len() && low_end(y, a, t0, t1) == (#[trigger] y[j]).bounds(t0 as int, t1 as int).min.at(a);
    let k = choose|k: int| 0 <= k < xy.len() && low_end(xy, a, t0, t1) == (#[trigger] xy[k]).bounds(t0 as int, t1 as int).min.at(a);
    assert(xy[i] == x[i] && xy[x.len() + j] == y[j]);
    if k < x.len() {
        assert(xy[k] == x[k]);
    } else {
        assert(xy[k] == y[k - x.len()]);
    }
    let i2 = choose|i: int| 0 <= i < x.len() && high_end(x, a, t0, t1) == (#[trigger] x[i]).bounds(t0 as int, t1 as int).max.at(a);
    let j2 = choose|j: int| 0 <= j < y.len() && high_end(y, a, t0, t1) == (#[trigger] y[j]).bounds(t0 as int, t1 as int).max.at(a);
    let k2 = choose|k: int| 0 <= k < xy.len() && high_end(xy, a, t0, t1) == (#[trigger] xy[k]).bounds(t0 as int, t1 as int).max.at(a);
    assert(xy[i2] == x[i2] && xy[x.len() + j2] == y[j2]);
    if k2 < x.len() {
        assert(xy[k2] == x[k2]);
    } else {
        assert(xy[k2] == y[k2 - x.len()]);
    }
}

/// A well-formed tree over a permutation of `input` has the merge of the boxes of
/// `input` as its box.
proof fn lemma_root_box(b: BVH, input: Seq<Surface>)
    requires
        b.wf(),
        input.len() > 0,
        all_ready(input, b.time0 as int, b.time1 as int),
        b.leaves().to_multiset() == input.to_multiset(),
    ensures
        b.bounding_box == merged_bounds(input, b.time0 as int, b.time1 as int),
{
    let (t0, t1) = (b.time0, b.time1);
    assert forall|i: int| #![trigger input[i]] 0 <= i < input.len() implies input[i].bounds(
        t0 as int,
        t1 as int,
    ).wf() by {
        input[i].lemma_bounds_wf(t0 as int, t1 as int);
    }
    let m = merged_bounds(input, t0 as int, t1 as int);
    assert forall|a: Axis| #[trigger] b.bounding_box.min.at(a) == m.min.at(a) && b.bounding_box.max.at(a) == m.max.at(a) by {
        b.lemma_box_is_ends(a);
        lemma_merged_is_ends(input, a, t0, t1);
        lemma_extent_permuted(input, b.leaves(), a, t0, t1);
    }
    assert(b.bounding_box.min.at(Axis::X) == m.min.at(Axis::X) && b.bounding_box.max.at(Axis::X) == m.max.at(Axis::X));
    assert(b.bounding_box.min.at(Axis::Y) == m.min.at(Axis::Y) && b.bounding_box.max.at(Axis::Y) == m.max.at(Axis::Y));
    assert(b.bounding_box.min.at(Axis::Z) == m.min.at(Axis::Z) && b.bounding_box.max.at(Axis::Z) == m.max.at(Axis::Z));
}

/// Sequences with the same multiset have the same members.
proof fn lemma_same_members(s: Seq<Surface>, u: Seq<Surface>)
    requires
        s.to_multiset() == u.to_multiset(),
    ensures
        forall|x: Surface| s.contains(x) <==> u.contains(x),
{
    assert forall|x: Surface| s.contains(x) <==> u.contains(x) by {
        vstd::seq_lib::to_multiset_contains(s, x);
        vstd::seq_lib::to_multiset_contains(u, x);
    }
}

fn axis_extent(objs: &Vec<Surface>, a: Axis, t0: i32, t1: i32) -> (e: i64)
    requires
        objs@.len() > 0,
        all_ready(objs@, t0 as int, t1 as int),
    ensures
        e == extent(objs@, a, t0, t1),
{
    let first = objs[0].bounding_box(t0, t1);
    let mut lo = first.min.index(a);
    let mut hi = first.max.index(a);
    let mut i: usize = 1;
    assert(objs@.take(1).drop_last() =~= Seq::<Surface>::empty());
    while i < objs.len()
        invariant
            all_ready(objs@, t0 as int, t1 as int),
            1 <= i <= objs@.len(),
            lo == low_end(objs@.take(i as int), a, t0, t1),
            hi == high_end(objs@.take(i as int), a, t0, t1),
        decreases objs@.len() - i,
    {
        let b = objs[i].bounding_box(t0, t1);
        proof {
            let next = objs@.take(i as int + 1);
            assert(next.drop_last() =~= objs@.take(i as int));
            assert(next.last() == objs@[i as int]);
        }
        let (blo, bhi) = (b.min.index(a), b.max.index(a));
        if blo < lo {
            lo = blo;
        }
        if bhi > hi {
            hi = bhi;
        }
        i += 1;
    }
    assert(objs@.take(i as int) =~= objs@);
    hi as i64 - lo as i64
}

/// The axis along which the surfaces reach farthest (the first such of X, Y, Z).
pub fn longest_axis(objs: &Vec<Surface>, t0: i32, t1: i32) -> (a: Axis)
    requires
        objs@.len() > 0,
        all_ready(objs@, t0 as int, t1 as int),
    ensures
        forall|b: Axis| extent(objs@, a, t0, t1) >= #[trigger] extent(objs@, b, t0, t1),
{
    let ex = axis_extent(objs, Axis::X, t0, t1);
    let ey = axis_extent(objs, Axis::Y, t0, t1);
    let ez = axis_extent(objs, Axis::Z, t0, t1);
    let a = if ex >= ey && ex >= ez {
        Axis::X
    } else if ey >= ez {
        Axis::Y
    } else {
        Axis::Z
    };
    assert forall|b: Axis| extent(objs@, a, t0, t1) >= #[trigger] extent(objs@, b, t0, t1) by {
        match b {
            Axis::X => {},
            Axis::Y => {},
            Axis::Z => {},
        }
    }
    a
}

fn key_of(s: &Surface, a: Axis, t0: i32, t1: i32) -> (k: i64)
    requires
        s.ready(t0 as int, t1 as int),
    ensures
        k == midpoint_key(*s, a, t0, t1),
{
    let b = s.bounding_box(t0, t1);
    b.min.index(a) as i64 + b.max.index(a) as i64
}

/// The surfaces in ascending order of their midpoints along `a`.
pub fn sort_by_midpoint(objs: Vec<Surface>, a: Axis, t0: i32, t1: i32) -> (out: Vec<Surface>)
    requires
        all_ready(objs@, t0 as int, t1 as int),
    ensures
        out@.to_multiset() == objs@.to_multiset(),
        out@.len() == objs@.len(),
        all_ready(out@, t0 as int, t1 as int),
        sorted_by_midpoint(out@, a, t0, t1),
{
    let ghost orig = objs@;
    let mut rest = objs;
    let mut out: Vec<Surface> = Vec::new();
    while rest.len() > 0
        invariant
            all_ready(orig, t0 as int, t1 as int),
            rest@ == orig.take(rest@.len() as int),
            rest@.len() <= orig.len(),
            rest@.to_multiset().add(out@.to_multiset()) == orig.to_multiset(),
            rest@.len() + out@.len() == orig.len(),
            all_ready(out@, t0 as int, t1 as int),
            sorted_by_midpoint(out@, a, t0, t1),
        decreases rest@.len(),
    {
        let ghost before = rest@;
        let x = rest.pop().unwrap();
        proof {
            assert(before =~= rest@.push(x));
            assert(x == orig[rest@.len() as int]);
            assert(rest@ =~= orig.take(rest@.len() as int));
        }
        let kx = key_of(&x, a, t0, t1);
        let mut pos: usize = 0;
        while pos < out.len() && key_of(&out[pos], a, t0, t1) <= kx
            invariant
                all_ready(out@, t0 as int, t1 as int),
                x.ready(t0 as int, t1 as int),
                kx == midpoint_key(x, a, t0, t1),
                pos <= out@.len(),
                forall|j: int| 0 <= j < pos ==> midpoint_key(#[trigger] out@[j], a, t0, t1) <= kx,
            decreases out@.len() - pos,
        {
            pos += 1;
        }
        let ghost old_out = out@;
        out.insert(pos, x);
        proof {
            assert(out@ == old_out.insert(pos as int, x));
            assert forall|i: int, j: int| 0 <= i < j < out@.len() implies midpoint_key(
                #[trigger] out@[i],
                a,
                t0,
                t1,
            ) <= midpoint_key(#[trigger] out@[j], a, t0, t1) by {
                if j < pos {
                    assert(out@[i] == old_out[i] && out@[j] == old_out[j]);
                } else if j == pos {
                    assert(out@[i] == old_out[i]);
                } else if i < pos {
                    assert(out@[i] == old_out[i] && out@[j] == old_out[j - 1]);
                    if (pos as int) < old_out.len() {
                        assert(midpoint_key(old_out[pos as int], a, t0, t1) > kx);
                        assert(midpoint_key(old_out[pos as int], a, t0, t1) <= midpoint_key(old_out[j - 1], a, t0, t1));
                    }
                } else if i == pos {
                    assert(out@[j] == old_out[j - 1]);
                    assert(midpoint_key(old_out[pos as int], a, t0, t1) > kx);
                    if j - 1 > pos {
                        assert(midpoint_key(old_out[pos as int], a, t0, t1) <= midpoint_key(old_out[j - 1], a, t0, t1));
                    }
                } else {
                    assert(out@[i] == old_out[i - 1] && out@[j] == old_out[j - 1]);
                }
            }
            assert forall|i: int| #![trigger out@[i]] 0 <= i < out@.len() implies out@[i].ready(t0 as int, t1 as int) by {
                if i < pos {
                    assert(out@[i] == old_out[i]);
                } else if i > pos {
                    assert(out@[i] == old_out[i - 1]);
                }
            }
        }
    }
    proof {
        assert(rest@.to_multiset() =~= Multiset::empty());
        assert(out@.to_multiset() =~= orig.to_multiset());
    }
    out
}

/// A node of a bounding-volume hierarchy: a box holding its whole subtree over the
/// times `[time0, time1]`, the number of surfaces below it, and either one surface
/// or two subtrees.
#[derive(Debug)]
pub struct BVH {
    pub bounding_box: AABB,
    pub size: usize,
    pub time0: i32,
    pub time1: i32,
    pub contents: BVHContents,
}

#[derive(Debug)]
pub enum BVHContents {
    Node { left: Box<BVH>, right: Box<BVH> },
    Leaf(Box<Surface>),
}

impl BVH {
    /// Each leaf holds a well-formed surface and its box over the node's times; each
    /// branch holds the merge of its children's boxes and the sum of their sizes,
    /// and shares its times with them.
    pub open spec fn wf(self) -> bool
        decreases self,
    {
        &&& self.time0 <= self.time1
        &&& match self.contents {
            BVHContents::Leaf(s) => {
                &&& s.wf()
                &&& s.fits_at(self.time0 as int)
                &&& s.fits_at(self.time1 as int)
                &&& self.bounding_box == s.bounds(self.time0 as int, self.time1 as int)
                &&& self.size == 1
            },
            BVHContents::Node { left, right } => {
                &&& left.wf()
                &&& right.wf()
                &&& left.time0 == self.time0 && left.time1 == self.time1
                &&& right.time0 == self.time0 && right.time1 == self.time1
                &&& self.bounding_box == right.bounding_box.merged(left.bounding_box)
                &&& self.size == left.size + right.size
            },
        }
    }

    /// The surfaces at the leaves, left to right.
    pub open spec fn leaves(self) -> Seq<Surface>
        decreases self,
    {
        match self.contents {
            BVHContents::Leaf(s) => seq![*s],
            BVHContents::Node { left, right } => left.leaves() + right.leaves(),
        }
    }

    /// At every branch, the left subtree holds the lower half of the surfaces (by
    /// number) and, along an axis of greatest extent of the branch's surfaces, no
    /// midpoint on the left lies above a midpoint on the right.
    pub open spec fn well_split(self) -> bool
        decreases self,
    {
        match self.contents {
            BVHContents::Leaf(_) => true,
            BVHContents::Node { left, right } => {
                &&& left.leaves().len() == self.leaves().len() / 2
                &&& exists|a: Axis| #[trigger] longest(self.leaves(), a, self.time0, self.time1)
                    && split_by(left.leaves(), right.leaves(), a, self.time0, self.time1)
                &&& left.well_split()
                &&& right.well_split()
            },
        }
    }

    /// The number of branch nodes.
    pub open spec fn branches(self) -> nat
        decreases self,
    {
        match self.contents {
            BVHContents::Leaf(_) => 0,
            BVHContents::Node { left, right } => left.branches() + right.branches() + 1,
        }
    }

    /// All meetings of the ray with the surfaces at the leaves, left to right.
    pub open spec fn tree_hits(self, r: Ray) -> Seq<HitRecord>
        decreases self,
    {
        match self.contents {
            BVHContents::Leaf(s) => s.hits(r),
            BVHContents::Node { left, right } => left.tree_hits(r) + right.tree_hits(r),
        }
    }

    /// The box of a well-formed tree spans, along each axis, from the least to the
    /// greatest coordinate of its surfaces' boxes.
    proof fn lemma_box_is_ends(self, a: Axis)
        requires
            self.wf(),
        ensures
            self.bounding_box.min.at(a) == low_end(self.leaves(), a, self.time0, self.time1),
            self.bounding_box.max.at(a) == high_end(self.leaves(), a, self.time0, self.time1),
        decreases self,
    {
        match self.contents {
            BVHContents::Leaf(s) => {
                assert(self.leaves().len() == 1);
                assert(self.leaves()[0] == *s);
            },
            BVHContents::Node { left, right } => {
                left.lemma_box_is_ends(a);
                right.lemma_box_is_ends(a);
                left.lemma_box_wf();
                right.lemma_box_wf();
                left.lemma_wf_facts(
                    Ray { origin: crate::vec::Vec3(0, 0, 0), direction: crate::vec::Vec3(0, 0, 0), time: self.time0 },
                );
                right.lemma_wf_facts(
                    Ray { origin: crate::vec::Vec3(0, 0, 0), direction: crate::vec::Vec3(0, 0, 0), time: self.time0 },
                );
                lemma_ends_concat(left.leaves(), right.leaves(), a, self.time0, self.time1);
                match a {
                    Axis::X => {},
                    Axis::Y => {},
                    Axis::Z => {},
                }
            },
        }
    }

    /// The box of a well-formed tree is well formed.
    pub proof fn lemma_box_wf(self)
        requires
            self.wf(),
        ensures
            self.bounding_box.wf(),
    {
        self.lemma_wf_facts(
            Ray { origin: crate::vec::Vec3(0, 0, 0), direction: crate::vec::Vec3(0, 0, 0), time: self.time0 },
        );
    }

    /// The box of a well-formed tree is well formed and holds every meeting of the
    /// ray with its surfaces (each touches it); there is one leaf per unit of size, and
    /// one branch fewer than leaves.
    pub proof fn lemma_wf_facts(self, r: Ray)
        requires
            self.wf(),
            r.bounded(),
            self.time0 <= r.time <= self.time1,
        ensures
            self.bounding_box.wf(),
            hits_enclosed(self.bounding_box, self.tree_hits(r), r),
            params_wf(self.tree_hits(r)),
            self.leaves().len() == self.size,
            self.size >= 1,
            self.branches() + 1 == self.size,
        decreases self,
    {
        match self.contents {
            BVHContents::Leaf(s) => {
                s.lemma_hits_enclosed(r, self.time0 as int, self.time1 as int);
                s.lemma_bounds_wf(self.time0 as int, self.time1 as int);
            },
            BVHContents::Node { left, right } => {
                left.lemma_wf_facts(r);
                right.lemma_wf_facts(r);
                lemma_merge_encloses(right.bounding_box, left.bounding_box);
                lemma_hits_enclosed_widen(self.bounding_box, left.bounding_box, left.tree_hits(r), r);
                lemma_hits_enclosed_widen(
                    self.bounding_box,
                    right.bounding_box,
                    right.tree_hits(r),
                    r,
                );
                lemma_hits_enclosed_concat(
                    self.bounding_box,
                    left.tree_hits(r),
                    right.tree_hits(r),
                    r,
                );
            },
        }
    }

    /// Builds the hierarchy over a non-empty list of surfaces, with their boxes over
    /// the times `[t0, t1]`: split along the axis of greatest extent, in order of the
    /// surfaces' midpoints, at the middle.
    pub fn new(objs: Vec<Surface>, t0: i32, t1: i32) -> (b: BVH)
        requires
            objs@.len() > 0,
            all_ready(objs@, t0 as int, t1 as int),
            t0 <= t1,
        ensures
            b.wf(),
            b.time0 == t0,
            b.time1 == t1,
            b.bounding_box == merged_bounds(objs@, t0 as int, t1 as int),
            b.well_split(),
            b.leaves().to_multiset() == objs@.to_multiset(),
            b.size == objs@.len(),
            b.leaves().len() == objs@.len(),
            b.branches() == objs@.len() - 1,
        decreases objs@.len(),
    {
        let ghost input = objs@;
        let axis = longest_axis(&objs, t0, t1);
        let mut objs = sort_by_midpoint(objs, axis, t0, t1);
        if objs.len() == 1 {
            let ghost all = objs@;
            let s = objs.pop().unwrap();
            proof {
                assert(all =~= seq![s]);
                assert(all[0] == s);
            }
            let bounding_box = s.bounding_box(t0, t1);
            let b = BVH {
                bounding_box,
                size: 1,
                time0: t0,
                time1: t1,
                contents: BVHContents::Leaf(Box::new(s)),
            };
            proof {
                assert(b.leaves() =~= all);
                b.lemma_wf_facts(
                    Ray { origin: crate::vec::Vec3(0, 0, 0), direction: crate::vec::Vec3(0, 0, 0), time: t0 },
                );
                lemma_root_box(b, input);
            }
            b
        } else {
            let ghost all = objs@;
            let half = objs.len() / 2;
            let right_objs = objs.split_off(half);
            proof {
                assert(all =~= objs@ + right_objs@);
                assert forall|i: int| #![trigger objs@[i]] 0 <= i < objs@.len() implies objs@[i].ready(t0 as int, t1 as int) by {
                    assert(objs@[i] == all[i]);
                }
                assert forall|i: int| #![trigger right_objs@[i]] 0 <= i < right_objs@.len() implies right_objs@[i].ready(t0 as int, t1 as int) by {
                    assert(right_objs@[i] == all[i + half]);
                }
            }
            let ghost (objs_left, objs_right) = (objs@, right_objs@);
            let right = Box::new(BVH::new(right_objs, t0, t1));
            let left = Box::new(BVH::new(objs, t0, t1));
            let bounding_box = right.bounding_box.merge(left.bounding_box);
            let size = left.size + right.size;
            let b = BVH {
                bounding_box,
                size,
                time0: t0,
                time1: t1,
                contents: BVHContents::Node { left, right },
            };
            proof {
                let (ll, rl) = (left.leaves(), right.leaves());
                assert(b.leaves() == ll + rl);
                assert((ll + rl).to_multiset() == all.to_multiset());
                lemma_extent_permuted(input, b.leaves(), axis, t0, t1);
                assert forall|c: Axis| extent(b.leaves(), axis, t0, t1) >= #[trigger] extent(b.leaves(), c, t0, t1) by {
                    lemma_extent_permuted(input, b.leaves(), c, t0, t1);
                    assert(extent(input, axis, t0, t1) >= extent(input, c, t0, t1));
                }
                assert(longest(b.leaves(), axis, t0, t1));
                lemma_same_members(ll, objs_left);
                lemma_same_members(rl, objs_right);
                assert forall|x: Surface, y: Surface| #[trigger] ll.contains(x) && #[trigger] rl.contains(y)
                    implies midpoint_key(x, axis, t0, t1) <= midpoint_key(y, axis, t0, t1) by {
                    assert(objs_left.contains(x) && objs_right.contains(y));
                    let i = choose|i: int| 0 <= i < objs_left.len() && objs_left[i] == x;
                    let j = choose|j: int| 0 <= j < objs_right.len() && objs_right[j] == y;
                    assert(all[i] == x && all[j + half] == y);
                }
                assert(split_by(ll, rl, axis, t0, t1));
                lemma_root_box(b, input);
            }
            b
        }
    }

    /// The nearest meeting, taken over `t_min, t_max` (see `accepts`), of a ray
    /// whose time lies in the hierarchy's with the surfaces at the leaves. Subtrees
    /// whose box the ray misses are skipped, and the right subtree is searched only
    /// up to the left subtree's hit. As the box test is strict, an interval of a
    /// single point finds nothing.
    pub fn hit(&self, r: &Ray, t_min: Param, t_max: Param) -> (res: Option<HitRecord>)
        requires
            self.wf(),
            r.bounded(),
            self.time0 <= r.time <= self.time1,
            t_min.wf(),
            t_max.wf(),
        ensures
            found_nearest(self.tree_hits(*r), t_min, t_max, res),
            !t_min.lt(t_max) ==> res is None,
        decreases self,
    {
        proof {
            self.lemma_wf_facts(*r);
        }
        if !self.bounding_box.hit(r, t_min, t_max) {
            proof {
                if t_min.lt(t_max) {
                    lemma_box_miss_no_hit(self.bounding_box, self.tree_hits(*r), *r, t_min, t_max);
                }
            }
            return None;
        }
        match &self.contents {
            BVHContents::Leaf(s) => {
                proof {
                    s.lemma_fits_between(self.time0 as int, r.time as int, self.time1 as int);
                }
                s.hit(r, t_min, t_max)
            },
            BVHContents::Node { left, right } => {
                let hit_left = left.hit(r, t_min, t_max);
                let bound = match &hit_left {
                    Some(h) => h.t,
                    None => t_max,
                };
                proof {
                    left.lemma_wf_facts(*r);
                    right.lemma_wf_facts(*r);
                    if let Some(h) = hit_left {
                        let k = choose|k: int| 0 <= k < left.tree_hits(*r).len() && left.tree_hits(*r)[k] == h;
                        assert(left.tree_hits(*r)[k].t.wf());
                    }
                }
                let hit_right = right.hit(r, t_min, bound);
                proof {
                    lemma_found_extend(
                        left.tree_hits(*r),
                        right.tree_hits(*r),
                        t_min,
                        t_max,
                        hit_left,
                        hit_right,
                    );
                }
                match (hit_left, hit_right) {
                    (h, None) => h,
                    (None, h) => h,
                    (Some(hl), Some(hr)) => {
                        proof {
                            let k = choose|k: int| 0 <= k < right.tree_hits(*r).len() && right.tree_hits(*r)[k] == hr;
                            assert(right.tree_hits(*r)[k].t.wf());
                            lemma_accepted_between(hr, t_min, bound);
                            lemma_lt_total(hl.t, hr.t);
                        }
                        if hl.t.less(&hr.t) {
                            Some(hl)
                        } else {
                            Some(hr)
                        }
                    },
                }
            },
        }
    }

    pub fn bounding_box(&self) -> (b: Option<AABB>)
        ensures
            b == Some(self.bounding_box),
    {
        Some(self.bounding_box)
    }
}

/// `h` is a meeting of the ray with one of the surfaces.
pub open spec fn in_scene(surfaces: Seq<Surface>, r: Ray, h: HitRecord) -> bool {
    exists|i: int| 0 <= i < surfaces.len() && #[trigger] surfaces[i].hits(r).contains(h)
}

proof fn lemma_concat_contains(x: Seq<HitRecord>, y: Seq<HitRecord>, h: HitRecord)
    ensures
        (x + y).contains(h) <==> x.contains(h) || y.contains(h),
{
    if (x + y).contains(h) {
        let k = choose|k: int| 0 <= k < (x + y).len() && (x + y)[k] == h;
        if k < x.len() {
            assert(x[k] == h);
        } else {
            assert(y[k - x.len()] == h);
        }
    }
    if x.contains(h) {
        let k = choose|k: int| 0 <= k < x.len() && x[k] == h;
        assert((x + y)[k] == h);
    }
    if y.contains(h) {
        let k = choose|k: int| 0 <= k < y.len() && y[k] == h;
        assert((x + y)[k + x.len()] == h);
    }
}

proof fn lemma_scene_members(surfaces: Seq<Surface>, r: Ray, h: HitRecord)
    ensures
        scene_hits(surfaces, r).contains(h) <==> in_scene(surfaces, r, h),
    decreases surfaces.len(),
{
    if surfaces.len() > 0 {
        let init = surfaces.drop_last();
        let n = surfaces.len() - 1;
        lemma_scene_members(init, r, h);
        lemma_concat_contains(scene_hits(init, r), surfaces.last().hits(r), h);
        if in_scene(surfaces, r, h) {
            let i = choose|i: int| 0 <= i < surfaces.len() && #[trigger] surfaces[i].hits(r).contains(h);
            if i < n {
                assert(init[i] == surfaces[i]);
            }
        }
        if in_scene(init, r, h) {
            let i = choose|i: int| 0 <= i < init.len() && #[trigger] init[i].hits(r).contains(h);
            assert(init[i] == surfaces[i]);
        }
        if surfaces.last().hits(r).contains(h) {
            assert(surfaces[n].hits(r).contains(h));
        }
    }
}

proof fn lemma_tree_members(t: BVH, r: Ray, h: HitRecord)
    ensures
        t.tree_hits(r).contains(h) <==> in_scene(t.leaves(), r, h),
    decreases t,
{
    match t.contents {
        BVHContents::Leaf(s) => {
            if in_scene(t.leaves(), r, h) {
                let i = choose|i: int| 0 <= i < t.leaves().len() && #[trigger] t.leaves()[i].hits(r).contains(h);
                assert(i == 0);
            }
            assert(t.tree_hits(r) == s.hits(r));
            if t.tree_hits(r).contains(h) {
                assert(t.leaves()[0] == *s);
                assert(t.leaves()[0].hits(r).contains(h));
            }
        },
        BVHContents::Node { left, right } => {
            lemma_tree_members(*left, r, h);
            lemma_tree_members(*right, r, h);
            lemma_concat_contains(left.tree_hits(r), right.tree_hits(r), h);
            let (ls, rs) = (left.leaves(), right.leaves());
            let all = ls + rs;
            assert(t.leaves() == all);
            if in_scene(all, r, h) {
                let i = choose|i: int| 0 <= i < all.len() && #[trigger] all[i].hits(r).contains(h);
                if i < ls.len() {
                    assert(all[i] == ls[i]);
                } else {
                    assert(all[i] == rs[i - ls.len()]);
                }
            }
            if in_scene(ls, r, h) {
                let i = choose|i: int| 0 <= i < ls.len() && #[trigger] ls[i].hits(r).contains(h);
                assert(all[i] == ls[i]);
            }
            if in_scene(rs, r, h) {
                let i = choose|i: int| 0 <= i < rs.len() && #[trigger] rs[i].hits(r).contains(h);
                assert(all[i + ls.len()] == rs[i]);
            }
        },
    }
}

proof fn lemma_permuted_members(a: Seq<Surface>, b: Seq<Surface>, r: Ray, h: HitRecord)
    requires
        a.to_multiset() == b.to_multiset(),
    ensures
        in_scene(a, r, h) <==> in_scene(b, r, h),
{
    if in_scene(a, r, h) {
        let i = choose|i: int| 0 <= i < a.len() && #[trigger] a[i].hits(r).contains(h);
        assert(a.contains(a[i]));
        assert(a.to_multiset().count(a[i]) > 0);
        assert(b.contains(a[i]));
        let j = choose|j: int| 0 <= j < b.len() && b[j] == a[i];
        assert(b[j].hits(r).contains(h));
    }
    if in_scene(b, r, h) {
        let i = choose|i: int| 0 <= i < b.len() && #[trigger] b[i].hits(r).contains(h);
        assert(b.contains(b[i]));
        assert(b.to_multiset().count(b[i]) > 0);
        assert(a.contains(b[i]));
        let j = choose|j: int| 0 <= j < a.len() && a[j] == b[i];
        assert(a[j].hits(r).contains(h));
    }
}

/// Two nearest-hit results over record sequences with the same members agree: both
/// are absent, or both lie at the same parameter.
proof fn lemma_nearest_same_members(
    x: Seq<HitRecord>,
    y: Seq<HitRecord>,
    t_min: Param,
    t_max: Param,
    rx: Option<HitRecord>,
    ry: Option<HitRecord>,
)
    requires
        forall|h: HitRecord| x.contains(h) <==> y.contains(h),
        params_wf(x),
        is_nearest(x, t_min, t_max, rx),
        is_nearest(y, t_min, t_max, ry),
    ensures
        rx.is_some() == ry.is_some(),
        rx.is_some() ==> rx.unwrap().t.eqv(ry.unwrap().t),
{
    if let Some(hx) = rx {
        assert(y.contains(hx));
        let j = choose|j: int| 0 <= j < y.len() && y[j] == hx;
        assert(accepts(y[j], t_min, t_max));
        if let Some(hy) = ry {
            assert(x.contains(hy));
            let i = choose|i: int| 0 <= i < x.len() && x[i] == hy;
            assert(accepts(x[i], t_min, t_max));
            let k = choose|k: int| 0 <= k < x.len() && x[k] == hx;
            assert(x[k].t.wf() && x[i].t.wf());
            assert(!hx.t.lt(hy.t));
            assert(!hy.t.lt(hx.t));
            lemma_lt_total(hx.t, hy.t);
        }
    }
    if let Some(hy) = ry {
        assert(x.contains(hy));
        let i = choose|i: int| 0 <= i < x.len() && x[i] == hy;
        assert(accepts(x[i], t_min, t_max));
    }
}

/// A hierarchy built over a scene and a linear scan of the scene agree on every ray
/// and every interval with `t_min < t_max`: both find a meeting or neither does; the meetings found lie at the
/// same parameter, and each is a meeting of the ray with a surface of the scene.
pub proof fn lemma_bvh_matches_scan(
    bvh: BVH,
    surfaces: Seq<Surface>,
    r: Ray,
    t_min: Param,
    t_max: Param,
    from_tree: Option<HitRecord>,
    from_scan: Option<HitRecord>,
)
    requires
        all_wf(surfaces),
        r.bounded(),
        bvh.wf(),
        bvh.time0 <= r.time <= bvh.time1,
        bvh.leaves().to_multiset() == surfaces.to_multiset(),
        t_min.wf(),
        t_max.wf(),
        t_min.lt(t_max),
        found_nearest(bvh.tree_hits(r), t_min, t_max, from_tree),
        found_nearest(scene_hits(surfaces, r), t_min, t_max, from_scan),
    ensures
        from_tree.is_some() == from_scan.is_some(),
        from_tree.is_some() ==> {
            &&& from_tree.unwrap().t.eqv(from_scan.unwrap().t)
            &&& in_scene(surfaces, r, from_tree.unwrap())
            &&& in_scene(surfaces, r, from_scan.unwrap())
        },
{
    let x = bvh.tree_hits(r);
    let y = scene_hits(surfaces, r);
    bvh.lemma_wf_facts(r);
    assert forall|h: HitRecord| x.contains(h) <==> y.contains(h) by {
        lemma_tree_members(bvh, r, h);
        lemma_permuted_members(bvh.leaves(), surfaces, r, h);
        lemma_scene_members(surfaces, r, h);
    }
    lemma_nearest_same_members(x, y, t_min, t_max, from_tree, from_scan);
    if let Some(h) = from_scan {
        lemma_scene_members(surfaces, r, h);
    }
    if let Some(h) = from_tree {
        lemma_scene_members(surfaces, r, h);
    }
}

/// When the nearest meeting in the interval is attained by one record only, the
/// hierarchy and the linear scan return that same record, and so the same material.
pub proof fn lemma_bvh_matches_scan_unique(
    bvh: BVH,
    surfaces: Seq<Surface>,
    r: Ray,
    t_min: Param,
    t_max: Param,
    from_tree: Option<HitRecord>,
    from_scan: Option<HitRecord>,
)
    requires
        all_wf(surfaces),
        r.bounded(),
        bvh.wf(),
        bvh.time0 <= r.time <= bvh.time1,
        bvh.leaves().to_multiset() == surfaces.to_multiset(),
        t_min.wf(),
        t_max.wf(),
        t_min.lt(t_max),
        found_nearest(bvh.tree_hits(r), t_min, t_max, from_tree),
        found_nearest(scene_hits(surfaces, r), t_min, t_max, from_scan),
        forall|x: HitRecord, y: HitRecord|
            #[trigger] in_scene(surfaces, r, x) && #[trigger] in_scene(surfaces, r, y) && accepts(
                x,
                t_min,
                t_max,
            ) && accepts(y, t_min, t_max) && x.t.eqv(y.t) ==> x == y,
    ensures
        from_tree == from_scan,
{
    lemma_bvh_matches_scan(bvh, surfaces, r, t_min, t_max, from_tree, from_scan);
    if let Some(h) = from_tree {
        let g = from_scan.unwrap();
        assert(in_scene(surfaces, r, h) && in_scene(surfaces, r, g));
        assert(h == g);
    }
}

} // verus!
