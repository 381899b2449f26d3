use raytracer::bvh::{longest_axis, sort_by_midpoint, BVHContents, BVH};
use raytracer::cuboid::Cuboid;
use raytracer::perlin::{perlin_generate_perm, permute, permute_with};
use raytracer::radiance::{next_step, Outcome, Step};
use raytracer::ray::{Param, Ray};
use raytracer::rect::{XYRect, XZRect, YZRect};
use raytracer::moving_sphere::MovingSphere;
use raytracer::sphere::Sphere;
use raytracer::scenes::{cornell_box, GREEN, LIGHT, RED, WHITE};
use raytracer::surface::{HittableList, Surface};
use raytracer::vec::{Axis, Vec3};

fn far() -> Param {
    Param::new(i64::MAX, 1)
}

fn counts(b: &BVH) -> (usize, usize) {
    match &b.contents {
        BVHContents::Leaf(_) => (1, 0),
        BVHContents::Node { left, right } => {
            let (ll, lb) = counts(left);
            let (rl, rb) = counts(right);
            (ll + rl, lb + rb + 1)
        }
    }
}

/// A deterministic mix of rectangles and boxes, overlapping and apart.
fn scene(n: usize) -> Vec<Surface> {
    let mut out = Vec::new();
    let mut seed: u64 = 12345;
    let mut next = |m: i64| -> i32 {
        seed = seed.wrapping_mul(6364136223846793005).wrapping_add(1442695040888963407);
        ((seed >> 33) as i64 % m) as i32
    };
    for i in 0..n {
        let (x, y, z) = (next(200) - 100, next(200) - 100, next(200) - 100);
        let (w, h) = (next(30) + 1, next(30) + 1);
        let m = i;
        out.push(match i % 6 {
            5 => Surface::MovingSphere(MovingSphere::new(Vec3(x, y, z), Vec3(x + h, y - w, z), 0, 10, w, m)),
            4 => Surface::Sphere(Sphere::new(Vec3(x, y, z), w, m)),
            0 => Surface::XY(XYRect::new(x, x + w, y, y + h, z, m)),
            1 => Surface::XZ(XZRect::new(x, x + w, z, z + h, y, m)),
            2 => Surface::YZ(YZRect::new(y, y + w, z, z + h, x, m)),
            _ => Surface::Cuboid(Cuboid::new(Vec3(x, y, z), Vec3(x + w, y + h, z + w), m)),
        });
    }
    out
}

fn rays() -> Vec<Ray> {
    let mut out = Vec::new();
    for ox in [-150, -20, 0, 37, 150] {
        for oy in [-150, 0, 64] {
            for oz in [-150, 5, 150] {
                for d in [(1, 0, 0), (0, 1, 0), (0, 0, -1), (3, -2, 5), (-7, 4, 1), (2, 9, -4), (-1, -1, -1)] {
                    for time in [0, 4, 10] {
                        out.push(Ray::new(Vec3(ox, oy, oz), Vec3(d.0, d.1, d.2), time));
                    }
                }
            }
        }
    }
    out
}

fn eqv(a: Param, b: Param) -> bool {
    (a.num as i128) * (b.den as i128) == (b.num as i128) * (a.den as i128)
}

fn check_against_scan(n: usize) -> usize {
    let list = HittableList { list: scene(n) };
    let bvh = BVH::new(scene(n), 0, 10);
    assert_eq!(bvh.size, n);
    assert_eq!(counts(&bvh), (n, n - 1));
    let mut found = 0;
    for r in rays() {
        for (lo, hi) in [(Param::new(1, 1000), far()), (Param::new(1, 2), Param::new(40, 1))] {
            let a = bvh.hit(&r, lo, hi);
            let b = list.hit(&r, lo, hi);
            assert_eq!(a.is_some(), b.is_some());
            if let (Some(a), Some(b)) = (a, b) {
                assert!(eqv(a.t, b.t));
                found += 1;
            }
        }
    }
    found
}

#[test]
fn bvh_single_surface() {
    check_against_scan(1);
    let one = vec![Surface::Sphere(Sphere::new(Vec3(0, 0, 0), 10, 7))];
    let bvh = BVH::new(one, 0, 0);
    assert!(matches!(bvh.contents, BVHContents::Leaf(_)));
    assert_eq!(counts(&bvh), (1, 0));
    let h = bvh.hit(&Ray::new(Vec3(0, 0, -50), Vec3(0, 0, 1), 0), Param::new(0, 1), far()).unwrap();
    assert!(eqv(h.t, Param::new(40, 1)));
    assert_eq!(h.material, 7);
    assert!(bvh.hit(&Ray::new(Vec3(0, 20, -50), Vec3(0, 0, 1), 0), Param::new(0, 1), far()).is_none());
}

#[test]
fn bvh_two_surfaces() {
    check_against_scan(2);
}

#[test]
fn bvh_many_surfaces_match_linear_scan() {
    assert!(check_against_scan(150) > 50);
}

#[test]
fn bvh_box_is_merge_of_children() {
    let bvh = BVH::new(scene(9), 0, 10);
    if let BVHContents::Node { left, right } = &bvh.contents {
        let m = left.bounding_box.merge(right.bounding_box);
        assert_eq!(bvh.bounding_box.min, m.min);
        assert_eq!(bvh.bounding_box.max, m.max);
        assert_eq!(bvh.bounding_box().unwrap().max, m.max);
    } else {
        panic!("nine surfaces make a branch");
    }
}

#[test]
fn bvh_picks_longest_axis_and_sorts() {
    let v = vec![
        Surface::XY(XYRect::new(0, 1, 0, 1, 0, 0)),
        Surface::XY(XYRect::new(40, 41, 0, 1, 0, 1)),
        Surface::XY(XYRect::new(-30, -29, 2, 3, 0, 2)),
    ];
    assert_eq!(longest_axis(&v, 0, 0), Axis::X);
    let sorted = sort_by_midpoint(v, Axis::X, 0, 0);
    let order: Vec<usize> = sorted
        .iter()
        .map(|s| match s {
            Surface::XY(r) => r.0.material,
            _ => usize::MAX,
        })
        .collect();
    assert_eq!(order, vec![2, 0, 1]);
}

#[test]
fn perlin_perm_is_a_permutation() {
    let p = perlin_generate_perm();
    assert_eq!(p.len(), 256);
    let mut seen = vec![false; 256];
    for &x in &p {
        assert!(x < 256 && !seen[x]);
        seen[x] = true;
    }
    let mut exact: Vec<usize> = vec![0, 1, 2, 3];
    permute_with(&mut exact, 4, &vec![0, 0, 1, 2]);
    assert_eq!(exact, vec![3, 0, 1, 2]);
    let mut q: Vec<usize> = (0..10).collect();
    permute(&mut q, 4);
    assert_eq!(&q[4..], &[4, 5, 6, 7, 8, 9]);
    let mut head = q[..4].to_vec();
    head.sort();
    assert_eq!(head, vec![0, 1, 2, 3]);
}

#[test]
fn estimator_steps() {
    assert_eq!(next_step(None, 5), Step::Background);
    assert_eq!(next_step(None, 0), Step::Background);
    assert_eq!(next_step(Some(Outcome::Emitted), 0), Step::Emit);
    assert_eq!(next_step(Some(Outcome::Absorbed), 3), Step::Black);
    assert_eq!(next_step(Some(Outcome::Scattered), 0), Step::Black);
    assert_eq!(next_step(Some(Outcome::Scattered), 50), Step::Bounce { depth: 49 });
    // A path between two mirrors stops after the allowed number of bounces.
    let mut depth = 50;
    let mut bounces = 0;
    loop {
        match next_step(Some(Outcome::Scattered), depth) {
            Step::Bounce { depth: d } => {
                depth = d;
                bounces += 1;
            }
            s => {
                assert_eq!(s, Step::Black);
                break;
            }
        }
    }
    assert_eq!(bounces, 50);
}

#[test]
fn cornell_box_geometry() {
    let world = cornell_box(2);
    assert_eq!(world.list.len(), 8);
    let b = world.bounding_box(0, 0).unwrap();
    assert_eq!(b.min, Vec3(-1, -1, -1));
    assert_eq!(b.max, Vec3(1111, 1111, 1111));
    // Straight up from the floor's centre: the light.
    let up = Ray::new(Vec3(556, 10, 556), Vec3(0, 1, 0), 0);
    let h = world.hit(&up, Param::new(1, 1000), far()).unwrap();
    assert_eq!(h.material, LIGHT);
    assert!(eqv(h.t, Param::new(1098, 1)));
    // Towards the left and right walls.
    let h = world.hit(&Ray::new(Vec3(555, 1000, 1000), Vec3(-1, 0, 0), 0), Param::new(0, 1), far()).unwrap();
    assert_eq!(h.material, RED);
    let h = world.hit(&Ray::new(Vec3(555, 1000, 1000), Vec3(1, 0, 0), 0), Param::new(0, 1), far()).unwrap();
    assert_eq!(h.material, GREEN);
    // Into the taller block from the camera side.
    let h = world.hit(&Ray::new(Vec3(700, 200, -1600), Vec3(0, 0, 1), 0), Param::new(0, 1), far()).unwrap();
    assert_eq!(h.material, WHITE);
    assert!(eqv(h.t, Param::new(1600 + 590, 1)));
    let bvh = BVH::new(cornell_box(2).list, 0, 0);
    let h2 = bvh.hit(&Ray::new(Vec3(700, 200, -1600), Vec3(0, 0, 1), 0), Param::new(0, 1), far()).unwrap();
    assert!(eqv(h.t, h2.t));
}

#[test]
fn nested_hierarchy_acts_as_one_surface() {
    let inner = BVH::new(scene(30), 0, 10);
    let mut outer = vec![Surface::Bvh(Box::new(inner))];
    outer.push(Surface::Sphere(Sphere::new(Vec3(0, 0, 0), 40, 99)));
    let nested = BVH::new(outer, 0, 10);
    let mut flat = scene(30);
    flat.push(Surface::Sphere(Sphere::new(Vec3(0, 0, 0), 40, 99)));
    let list = HittableList { list: flat };
    let mut found = 0;
    for r in rays() {
        let a = nested.hit(&r, Param::new(1, 1000), far());
        let b = list.hit(&r, Param::new(1, 1000), far());
        assert_eq!(a.is_some(), b.is_some());
        if let (Some(a), Some(b)) = (a, b) {
            assert!(eqv(a.t, b.t));
            found += 1;
        }
    }
    assert!(found > 50);
    assert_eq!(nested.size, 2);
}

#[test]
fn hierarchy_takes_rectangle_ends_and_not_single_points() {
    let walls = vec![
        Surface::XY(XYRect::new(-5, 5, -5, 5, 10, 1)),
        Surface::XY(XYRect::new(-5, 5, -5, 5, 20, 2)),
        Surface::Sphere(Sphere::new(Vec3(0, 0, 40), 3, 3)),
    ];
    let bvh = BVH::new(walls, 0, 0);
    let r = Ray::new(Vec3(0, 0, 0), Vec3(0, 0, 1), 0);
    let h = bvh.hit(&r, Param::new(10, 1), far()).unwrap();
    assert_eq!(h.material, 1);
    let h = bvh.hit(&r, Param::new(11, 1), Param::new(20, 1)).unwrap();
    assert_eq!(h.material, 2);
    // The sphere's interval stays open: a search ending at its crossing misses it.
    assert!(bvh.hit(&r, Param::new(21, 1), Param::new(37, 1)).is_none());
    assert_eq!(bvh.hit(&r, Param::new(21, 1), Param::new(38, 1)).unwrap().material, 3);
    // A single-point interval finds nothing in the hierarchy.
    assert!(bvh.hit(&r, Param::new(10, 1), Param::new(10, 1)).is_none());
    assert_eq!(bvh.bounding_box.min, Vec3(-6, -6, 9));
    assert_eq!(bvh.bounding_box.max, Vec3(6, 6, 43));
}
