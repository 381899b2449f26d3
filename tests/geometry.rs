use raytracer::aabb::AABB;
use raytracer::cuboid::Cuboid;
use raytracer::hittable::HitRecord;
use raytracer::material::reflect;
use raytracer::moving_sphere::MovingSphere;
use raytracer::sphere::Sphere;
use raytracer::ray::{Param, Ray};
use raytracer::rect::{XYRect, XZRect, YZRect};
use raytracer::surface::{HittableList, Surface};
use raytracer::vec::{Axis, Channel, Vec3};

fn bx(min: (i32, i32, i32), max: (i32, i32, i32)) -> AABB {
    AABB { min: Vec3(min.0, min.1, min.2), max: Vec3(max.0, max.1, max.2) }
}

fn ray(o: (i32, i32, i32), d: (i32, i32, i32)) -> Ray {
    Ray::new(Vec3(o.0, o.1, o.2), Vec3(d.0, d.1, d.2), 0)
}

fn same_box(a: AABB, b: AABB) -> bool {
    a.min == b.min && a.max == b.max
}

/// The hit's normal with its denominator divided out, for integer normals.
fn normal(h: &HitRecord) -> (i128, i128, i128) {
    assert!(h.normal.x % h.normal.den == 0 && h.normal.y % h.normal.den == 0 && h.normal.z % h.normal.den == 0);
    (h.normal.x / h.normal.den, h.normal.y / h.normal.den, h.normal.z / h.normal.den)
}

fn far() -> Param {
    Param::new(i64::MAX, 1)
}

fn zero() -> Param {
    Param::new(0, 1)
}

fn eqv(a: Param, b: Param) -> bool {
    (a.num as i128) * (b.den as i128) == (b.num as i128) * (a.den as i128)
}

#[test]
fn vec_indexing_and_products() {
    let v = Vec3(1, 2, 3);
    assert_eq!(v.index(Axis::X), 1);
    assert_eq!(v.index(Axis::Y), 2);
    assert_eq!(v.index(Axis::Z), 3);
    assert_eq!(v.index_channel(Channel::R), 1);
    assert_eq!(v.index_channel(Channel::G), 2);
    assert_eq!(v.index_channel(Channel::B), 3);
    assert_eq!(v.dot(Vec3(4, -5, 6)), 4 - 10 + 18);
    assert_eq!(Vec3(i32::MIN, i32::MIN, i32::MIN).mag_sqr(), 3 * (1i128 << 62));
}

#[test]
fn merge_is_commutative_associative_idempotent() {
    let a = bx((0, -3, 2), (4, 1, 9));
    let b = bx((-2, 0, 5), (3, 7, 6));
    let c = bx((1, -8, -1), (10, 0, 3));
    assert!(same_box(a.merge(b), b.merge(a)));
    assert!(same_box(a.merge(b).merge(c), a.merge(b.merge(c))));
    assert!(same_box(a.merge(a), a));
    let m = a.merge(b);
    assert_eq!(m.min, Vec3(-2, -3, 2));
    assert_eq!(m.max, Vec3(4, 7, 9));
}

/// Lower bounds of the parameter as fractions with positive denominators, checked
/// pairwise against the upper bounds.
fn brute_force_hit(b: &AABB, r: &Ray, t_min: Param, t_max: Param) -> bool {
    let mut lows: Vec<(i128, i128)> = vec![(t_min.num as i128, t_min.den as i128)];
    let mut highs: Vec<(i128, i128)> = vec![(t_max.num as i128, t_max.den as i128)];
    for a in [Axis::X, Axis::Y, Axis::Z] {
        let (o, d) = (r.origin.index(a) as i128, r.direction.index(a) as i128);
        let (lo, hi) = (b.min.index(a) as i128, b.max.index(a) as i128);
        if d == 0 {
            if o < lo || o > hi {
                return false;
            }
        } else if d > 0 {
            lows.push((lo - o, d));
            highs.push((hi - o, d));
        } else {
            lows.push((o - hi, -d));
            highs.push((o - lo, -d));
        }
    }
    lows.iter().all(|l| highs.iter().all(|h| l.0 * h.1 < h.0 * l.1))
}

#[test]
fn slab_test_matches_brute_force() {
    let boxes = [bx((0, 0, 0), (10, 10, 10)), bx((-5, 2, 3), (-1, 9, 4)), bx((3, 3, 3), (3, 8, 9))];
    let mut checked = 0;
    let mut hits = 0;
    for b in boxes.iter() {
        for ox in [-20, -5, 0, 3, 5, 10, 15] {
            for oy in [-7, 0, 5, 12] {
                for oz in [-9, 3, 4, 20] {
                    for d in [(1, 0, 0), (0, -1, 0), (2, 3, -1), (-4, 1, 5), (0, 0, 7), (1, 1, 1), (-3, -2, 0)] {
                        for (lo, hi) in [(zero(), far()), (Param::new(1, 2), Param::new(3, 1)), (Param::new(-5, 1), Param::new(0, 1))] {
                            let r = ray((ox, oy, oz), d);
                            let expected = brute_force_hit(b, &r, lo, hi);
                            assert_eq!(b.hit(&r, lo, hi), expected);
                            checked += 1;
                            if expected {
                                hits += 1;
                            }
                        }
                    }
                }
            }
        }
    }
    assert!(hits > 100 && checked - hits > 100);
}

#[test]
fn slab_test_parallel_rays() {
    let b = bx((0, 0, 0), (10, 10, 10));
    // Parallel to the x slab and inside it, including on its faces.
    assert!(b.hit(&ray((5, -5, 5), (0, 1, 0)), zero(), far()));
    assert!(b.hit(&ray((0, -5, 5), (0, 1, 0)), zero(), far()));
    assert!(b.hit(&ray((10, -5, 10), (0, 1, 0)), zero(), far()));
    // Parallel and outside.
    assert!(!b.hit(&ray((11, -5, 5), (0, 1, 0)), zero(), far()));
    assert!(!b.hit(&ray((5, -5, -1), (0, 1, 0)), zero(), far()));
    // Pointing away.
    assert!(!b.hit(&ray((5, -5, 5), (0, -1, 0)), zero(), far()));
    // Interval ends before the box.
    assert!(!b.hit(&ray((5, -5, 5), (0, 1, 0)), zero(), Param::new(5, 1)));
    assert!(b.hit(&ray((5, -5, 5), (0, 1, 0)), zero(), Param::new(6, 1)));
    // Empty interval.
    assert!(!b.hit(&ray((5, 5, 5), (0, 1, 0)), Param::new(3, 1), Param::new(3, 1)));
}

#[test]
fn rect_hit_exact() {
    let rect = XYRect::new(-1, 1, -1, 1, 5, 7).0;
    let r = ray((0, 0, -10), (0, 0, 2));
    let h = rect.hit(&r, zero(), far()).unwrap();
    assert!(eqv(h.t, Param::new(15, 2)));
    assert_eq!(h.p.den, h.t.den as i128);
    assert_eq!((h.p.x, h.p.y), (0, 0));
    assert_eq!(h.p.z, 5 * h.p.den);
    assert_eq!(normal(&h), (0, 0, -1));
    assert!(!h.front_face);
    assert_eq!(h.material, 7);

    let back = rect.hit(&ray((0, 0, 20), (0, 0, -3)), zero(), far()).unwrap();
    assert!(eqv(back.t, Param::new(5, 1)));
    assert_eq!(normal(&back), (0, 0, 1));
    assert!(back.front_face);

    // The edge counts; beyond it does not.
    assert!(rect.hit(&ray((1, 1, 0), (0, 0, 1)), zero(), far()).is_some());
    assert!(rect.hit(&ray((2, 0, 0), (0, 0, 1)), zero(), far()).is_none());
    // Parallel to the plane.
    assert!(rect.hit(&ray((0, 0, 5), (1, 0, 0)), zero(), far()).is_none());
    // The interval is closed at both ends for rectangles.
    assert!(eqv(rect.hit(&r, zero(), Param::new(15, 2)).unwrap().t, Param::new(15, 2)));
    assert!(eqv(rect.hit(&r, Param::new(15, 2), far()).unwrap().t, Param::new(15, 2)));
    assert!(rect.hit(&r, Param::new(15, 2), Param::new(15, 2)).is_some());
    assert!(rect.hit(&r, zero(), Param::new(14, 2)).is_none());
    assert!(rect.hit(&r, Param::new(16, 2), far()).is_none());
    // Surface coordinates across the rectangle.
    let (u, v) = rect.hit(&ray((0, -1, 0), (0, 0, 1)), zero(), far()).unwrap().uv.unwrap();
    assert_eq!(u.num * 2, u.den);
    assert_eq!(v.num, 0);
}

#[test]
fn other_rect_orientations() {
    let xz = XZRect::new(0, 4, 0, 4, 3, 1).0;
    let h = xz.hit(&ray((1, 0, 1), (0, 1, 0)), zero(), far()).unwrap();
    assert!(eqv(h.t, Param::new(3, 1)));
    assert_eq!(normal(&h), (0, -1, 0));
    let yz = YZRect::new(0, 4, 0, 4, -2, 1).0;
    let h = yz.hit(&ray((6, 1, 1), (-2, 0, 0)), zero(), far()).unwrap();
    assert!(eqv(h.t, Param::new(4, 1)));
    assert_eq!(normal(&h), (1, 0, 0));
    assert!(h.front_face);
    let b = yz.bounding_box();
    assert_eq!(b.min, Vec3(-3, -1, -1));
    assert_eq!(b.max, Vec3(-1, 5, 5));
}

#[test]
fn cuboid_entry_and_exit() {
    let c = Cuboid::new(Vec3(0, 0, 0), Vec3(4, 4, 4), 2);
    assert_eq!(c.sides.len(), 6);
    let r = ray((-10, 1, 1), (1, 0, 0));
    let entry = c.hit(&r, zero(), far()).unwrap();
    assert!(eqv(entry.t, Param::new(10, 1)));
    assert_eq!(normal(&entry), (-1, 0, 0));
    let exit = c.hit(&r, Param::new(11, 1), far()).unwrap();
    assert!(eqv(exit.t, Param::new(14, 1)));
    assert!(c.hit(&r, Param::new(15, 1), far()).is_none());
    assert!(c.hit(&ray((-10, 5, 1), (1, 0, 0)), zero(), far()).is_none());
    let b = c.bounding_box();
    assert_eq!(b.min, Vec3(-1, -1, -1));
    assert_eq!(b.max, Vec3(5, 5, 5));
}

#[test]
fn list_finds_nearest_and_first_on_ties() {
    let mut list = HittableList::new();
    assert!(list.bounding_box(0, 0).is_none());
    assert!(list.hit(&ray((0, 0, 0), (0, 0, 1)), zero(), far()).is_none());
    list.push(Surface::XY(XYRect::new(-5, 5, -5, 5, 20, 1)));
    list.push(Surface::XY(XYRect::new(-5, 5, -5, 5, 10, 2)));
    list.push(Surface::XY(XYRect::new(-1, 1, -1, 1, 10, 3)));
    list.push(Surface::XY(XYRect::new(-5, 5, -5, 5, 30, 4)));
    // Two rectangles meet the ray at 10; each search goes up to the nearest so far
    // and takes its end, so the later one is reported.
    let h = list.hit(&ray((0, 0, 0), (0, 0, 1)), zero(), far()).unwrap();
    assert!(eqv(h.t, Param::new(10, 1)));
    assert_eq!(h.material, 3);
    let h = list.hit(&ray((0, 0, 0), (0, 0, 1)), Param::new(10, 1), far()).unwrap();
    assert_eq!(h.material, 3);
    let h = list.hit(&ray((0, 0, 0), (0, 0, 1)), Param::new(21, 2), far()).unwrap();
    assert_eq!(h.material, 1);
    let b = list.bounding_box(0, 0).unwrap();
    assert_eq!(b.min, Vec3(-6, -6, 9));
    assert_eq!(b.max, Vec3(6, 6, 31));
}

#[test]
fn sphere_hit_from_outside_along_minus_z() {
    let s = Sphere::new(Vec3(0, 0, 0), 1, 5);
    let r = ray((0, 0, 5), (0, 0, -1));
    let h = s.hit(&r, Param::new(1, 1000), far()).unwrap();
    // Roots 4 and 6: the smaller one in range is reported.
    assert!(eqv(h.t, Param::new(4, 1)));
    assert_eq!((h.p.x, h.p.y, h.p.z), (0, 0, h.p.den));
    assert!(h.front_face);
    let n = normal(&h);
    assert_eq!(n, (0, 0, 1));
    assert_eq!(n.0 * n.0 + n.1 * n.1 + n.2 * n.2, 1);
    assert_eq!(h.material, 5);
    // Starting past the near root: the far root, reached from inside.
    let h = s.hit(&r, Param::new(5, 1), far()).unwrap();
    assert!(eqv(h.t, Param::new(6, 1)));
    assert!(!h.front_face);
    assert_eq!(normal(&h), (0, 0, 1));
    // Both roots out of range.
    assert!(s.hit(&r, Param::new(7, 1), far()).is_none());
    assert!(s.hit(&r, zero(), Param::new(4, 1)).is_none());
    // A tangent ray and a missing ray.
    assert!(s.hit(&ray((1, 0, 5), (0, 0, -1)), zero(), far()).is_none());
    assert!(s.hit(&ray((3, 0, 5), (0, 0, -1)), zero(), far()).is_none());
    let b = s.bounding_box();
    assert_eq!((b.min, b.max), (Vec3(-1, -1, -1), Vec3(1, 1, 1)));
}

#[test]
fn sphere_roots_lie_between_the_exact_roots() {
    let s = Sphere::new(Vec3(3, -2, 7), 10, 0);
    let r = ray((-40, 5, 1), (7, -1, 2));
    let h = s.hit(&r, zero(), far()).unwrap();
    let (ox, oy, oz) = (-43.0f64, 7.0f64, -6.0f64);
    let (dx, dy, dz) = (7.0f64, -1.0f64, 2.0f64);
    let a = dx * dx + dy * dy + dz * dz;
    let hh = ox * dx + oy * dy + oz * dz;
    let c = ox * ox + oy * oy + oz * oz - 100.0;
    let exact_near = (-hh - (hh * hh - a * c).sqrt()) / a;
    let t = h.t.num as f64 / h.t.den as f64;
    assert!(t >= exact_near - 1e-9 && t - exact_near < 1e-3);
    assert!(h.front_face);
}

#[test]
fn reflect_mirrors_about_axis_normals() {
    let d = Vec3(3, -4, 5);
    for n in [Vec3(0, 1, 0), Vec3(0, -1, 0), Vec3(1, 0, 0), Vec3(0, 0, -1)] {
        let r = reflect(d, n);
        assert_eq!(r.dot(n), -d.dot(n));
        assert_eq!(r.mag_sqr(), d.mag_sqr());
    }
    assert_eq!(reflect(d, Vec3(0, 1, 0)), Vec3(3, 4, 5));
    assert_eq!(reflect(d, Vec3(0, 0, -1)), Vec3(3, -4, -5));
}

#[test]
fn parameters_compare_exactly_at_the_extremes() {
    assert!(!Param::new(i64::MAX, 1).less(&Param::new(i64::MAX, 1)));
    assert!(Param::new(i64::MIN, 1).less(&Param::new(i64::MAX, i64::MAX)));
    assert!(Param::new(i64::MAX - 1, i64::MAX).less(&Param::new(1, 1)));
    assert!(!Param::new(2, 4).less(&Param::new(1, 2)));
    assert!(!Param::new(1, 2).less(&Param::new(2, 4)));
}

#[test]
fn slab_test_on_the_largest_boxes() {
    let b = bx((i32::MIN, i32::MIN, i32::MIN), (i32::MAX, i32::MAX, i32::MAX));
    let r = ray((i32::MAX, i32::MIN, 0), (i32::MIN, i32::MAX, 1));
    assert_eq!(b.hit(&r, zero(), far()), brute_force_hit(&b, &r, zero(), far()));
    assert!(b.hit(&r, zero(), far()));
    let small = bx((i32::MAX - 1, i32::MAX - 1, i32::MAX - 1), (i32::MAX, i32::MAX, i32::MAX));
    let r = ray((i32::MIN, i32::MIN, i32::MIN), (i32::MAX, i32::MAX, i32::MAX));
    assert_eq!(small.hit(&r, zero(), far()), brute_force_hit(&small, &r, zero(), far()));
    assert!(small.hit(&r, zero(), far()));
}

#[test]
fn sphere_at_the_edge_of_the_grid() {
    let s = Sphere::new(Vec3(i32::MAX - 200, 0, 0), 100, 1);
    let max = raytracer::ray::MAX_DIRECTION;
    let r = ray((i32::MAX - 1000, 0, 0), (max, 0, 0));
    let h = s.hit(&r, zero(), far()).unwrap();
    assert!(eqv(h.t, Param::new(700, max as i64)));
    let h = s.hit(&r, Param::new(701, max as i64), far()).unwrap();
    assert!(eqv(h.t, Param::new(900, max as i64)));
    let wide = XYRect::new(i32::MIN + 1, i32::MAX - 1, i32::MIN + 1, i32::MAX - 1, i32::MAX - 1, 0).0;
    let r = ray((i32::MAX, i32::MIN, i32::MIN), (-1, 1, 1));
    let h = wide.hit(&r, zero(), far()).unwrap();
    assert!(eqv(h.t, Param::new(i32::MAX as i64 - 1 - i32::MIN as i64, 1)));
}

#[test]
fn moving_sphere_follows_its_path() {
    let m = MovingSphere::new(Vec3(0, 0, 0), Vec3(100, -50, 0), 0, 10, 5, 3);
    assert_eq!(m.center(0), Vec3(0, 0, 0));
    assert_eq!(m.center(10), Vec3(100, -50, 0));
    assert_eq!(m.center(3), Vec3(30, -15, 0));
    assert_eq!(m.center(7), Vec3(70, -35, 0));
    // Outside the interval it keeps moving along the line.
    assert_eq!(m.center(-4), Vec3(-40, 20, 0));
    assert_eq!(m.center(25), Vec3(250, -125, 0));
    // Rounded towards the start point.
    let n = MovingSphere::new(Vec3(0, 0, 0), Vec3(10, -10, 1), 0, 3, 1, 0);
    assert_eq!(n.center(1), Vec3(3, -3, 0));
    assert_eq!(n.center(2), Vec3(6, -6, 0));

    let b = m.bounding_box(0, 10);
    assert_eq!((b.min, b.max), (Vec3(-5, -55, -5), Vec3(105, 5, 5)));
    let b = m.bounding_box(3, 7);
    assert_eq!((b.min, b.max), (Vec3(25, -40, -5), Vec3(75, -10, 5)));

    // A ray along z through the path hits the ball only while it passes.
    let through = |time: i32| Ray::new(Vec3(30, -15, -100), Vec3(0, 0, 1), time);
    let h = m.hit(&through(3), zero(), far()).unwrap();
    assert!(eqv(h.t, Param::new(95, 1)));
    assert_eq!(h.material, 3);
    assert!(m.hit(&through(0), zero(), far()).is_none());
    assert!(m.hit(&through(10), zero(), far()).is_none());
}

#[test]
fn sphere_crossing_is_resolved_to_a_fine_step() {
    // Radius 2 at the origin, a ray from (1, 0, 5) along -z: the exact crossings are
    // at 5 -/+ sqrt 3.
    let s = Sphere::new(Vec3(0, 0, 0), 2, 0);
    let r = ray((1, 0, 5), (0, 0, -1));
    let h = s.hit(&r, zero(), far()).unwrap();
    let t = h.t.num as f64 / h.t.den as f64;
    let exact = 5.0 - 3.0f64.sqrt();
    assert!(t >= exact && t - exact <= 1.0 / 1024.0);
    let n = (h.normal.x as f64, h.normal.y as f64, h.normal.z as f64);
    let len = (n.0 * n.0 + n.1 * n.1 + n.2 * n.2).sqrt() / h.normal.den as f64;
    assert!(len <= 1.0 && len > 1.0 - 1.0 / 1024.0);
    assert!(h.front_face);
    let far_hit = s.hit(&r, Param::new(4, 1), far()).unwrap();
    let t = far_hit.t.num as f64 / far_hit.t.den as f64;
    let exact = 5.0 + 3.0f64.sqrt();
    assert!(t <= exact && exact - t <= 1.0 / 1024.0);
    assert!(!far_hit.front_face);
}

#[test]
fn moving_sphere_extrapolates_beyond_its_interval() {
    let m = MovingSphere::new(Vec3(0, 0, 0), Vec3(10, 0, 0), 0, 1, 1, 2);
    assert_eq!(m.center(2), Vec3(20, 0, 0));
    let r = Ray::new(Vec3(20, 0, -10), Vec3(0, 0, 1), 2);
    let h = m.hit(&r, zero(), far()).unwrap();
    assert!(eqv(h.t, Param::new(9, 1)));
    // The same path given with the times the other way round.
    let back = MovingSphere::new(Vec3(10, 0, 0), Vec3(0, 0, 0), 1, 0, 1, 2);
    assert_eq!(back.center(2), Vec3(20, 0, 0));
    assert_eq!(back.center(0), Vec3(0, 0, 0));
    let b = back.bounding_box(0, 2);
    assert_eq!((b.min, b.max), (Vec3(-1, -1, -1), Vec3(21, 1, 1)));
}

#[test]
fn rectangles_take_both_ends_of_the_interval() {
    let rects = [
        (XYRect::new(0, 4, 0, 4, 6, 1).0, ray((1, 1, 0), (0, 0, 2))),
        (XZRect::new(0, 4, 0, 4, 6, 2).0, ray((1, 0, 1), (0, 2, 0))),
        (YZRect::new(0, 4, 0, 4, 6, 3).0, ray((0, 1, 1), (2, 0, 0))),
    ];
    for (rect, r) in rects.iter() {
        // The crossing is at t = 3.
        let at_min = rect.hit(r, Param::new(3, 1), far()).unwrap();
        assert!(eqv(at_min.t, Param::new(3, 1)));
        let at_max = rect.hit(r, zero(), Param::new(6, 2)).unwrap();
        assert!(eqv(at_max.t, Param::new(3, 1)));
        assert!(rect.hit(r, Param::new(7, 2), far()).is_none());
        assert!(rect.hit(r, zero(), Param::new(5, 2)).is_none());
        let (u, v) = at_min.uv.unwrap();
        assert_eq!((u.num * 4, v.num * 4), (u.den, v.den));
    }
}
