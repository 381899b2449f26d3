use vstd::prelude::*;
use crate::cuboid::{faces, Cuboid};
use crate::rect::{AxisRect, XYRect, XZRect, YZRect};
use crate::surface::{HittableList, Surface};
use crate::vec::{Axis, Vec3};

verus! {

/// Material slot of the ceiling light in `cornell_box`.
pub const LIGHT: usize = 0;

/// Material slot of the red wall in `cornell_box`.
pub const RED: usize = 1;

/// Material slot of the white walls and blocks in `cornell_box`.
pub const WHITE: usize = 2;

/// Material slot of the green wall in `cornell_box`.
pub const GREEN: usize = 3;

pub open spec fn rect(axis: Axis, a0: int, a1: int, b0: int, b1: int, k: int, material: usize) -> AxisRect {
    AxisRect { axis, a0: a0 as i32, a1: a1 as i32, b0: b0 as i32, b1: b1 as i32, k: k as i32, material }
}

pub open spec fn scaled(x: int, y: int, z: int, s: int) -> Vec3 {
    Vec3((x * s) as i32, (y * s) as i32, (z * s) as i32)
}

/// The Cornell box, each coordinate multiplied by `s`: a light in the ceiling, a
/// red and a green side wall, white floor, ceiling and back wall, and two white
/// blocks.
pub open spec fn cornell_surfaces(s: int) -> Seq<Surface> {
    seq![
        Surface::XZ(XZRect(rect(Axis::Y, 213 * s, 343 * s, 227 * s, 332 * s, 554 * s, LIGHT))),
        Surface::YZ(YZRect(rect(Axis::X, 0, 555 * s, 0, 555 * s, 0, RED))),
        Surface::YZ(YZRect(rect(Axis::X, 0, 555 * s, 0, 555 * s, 555 * s, GREEN))),
        Surface::XZ(XZRect(rect(Axis::Y, 0, 555 * s, 0, 555 * s, 0, WHITE))),
        Surface::XZ(XZRect(rect(Axis::Y, 0, 555 * s, 0, 555 * s, 555 * s, WHITE))),
        Surface::XY(XYRect(rect(Axis::Z, 0, 555 * s, 0, 555 * s, 555 * s, WHITE))),
    ]
}

/// The two blocks of the Cornell box, scaled by `s`.
pub open spec fn cornell_blocks(s: int) -> (Vec3, Vec3, Vec3, Vec3) {
    (scaled(130, 0, 65, s), scaled(296, 165, 230, s), scaled(265, 0, 295, s), scaled(430, 330, 460, s))
}

/// The surfaces of the Cornell box at `scale` grid units per unit of the scene.
pub fn cornell_box(scale: i32) -> (world: HittableList)
    requires
        1 <= scale,
        555 * scale < i32::MAX,
    ensures
        world.wf(),
        world.list@.len() == 8,
        world.list@.subrange(0, 6) == cornell_surfaces(scale as int),
        ({
            let (p0, p1, q0, q1) = cornell_blocks(scale as int);
            &&& world.list@[6] matches Surface::Cuboid(c) && c.box_min == p0 && c.box_max == p1
                && c.sides@ == faces(p0, p1, WHITE)
            &&& world.list@[7] matches Surface::Cuboid(c) && c.box_min == q0 && c.box_max == q1
                && c.sides@ == faces(q0, q1, WHITE)
        }),
{
    let s = scale;
    let mut world = HittableList::new();
    world.push(Surface::XZ(XZRect::new(213 * s, 343 * s, 227 * s, 332 * s, 554 * s, LIGHT)));
    world.push(Surface::YZ(YZRect::new(0, 555 * s, 0, 555 * s, 0, RED)));
    world.push(Surface::YZ(YZRect::new(0, 555 * s, 0, 555 * s, 555 * s, GREEN)));
    world.push(Surface::XZ(XZRect::new(0, 555 * s, 0, 555 * s, 0, WHITE)));
    world.push(Surface::XZ(XZRect::new(0, 555 * s, 0, 555 * s, 555 * s, WHITE)));
    world.push(Surface::XY(XYRect::new(0, 555 * s, 0, 555 * s, 555 * s, WHITE)));
    world.push(Surface::Cuboid(Cuboid::new(Vec3(130 * s, 0, 65 * s), Vec3(296 * s, 165 * s, 230 * s), WHITE)));
    world.push(Surface::Cuboid(Cuboid::new(Vec3(265 * s, 0, 295 * s), Vec3(430 * s, 330 * s, 460 * s), WHITE)));
    assert(world.list@.subrange(0, 6) =~= cornell_surfaces(scale as int));
    assert forall|i: int| #![trigger world.list@[i]] 0 <= i < world.list@.len() implies world.list@[i].wf() by {
    }
    world
}

} // verus!
