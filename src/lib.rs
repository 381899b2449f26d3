//! The intersection and light-transport core of a ray tracer, on exact arithmetic.
//!
//! Geometry lives on an integer grid and ray parameters are rationals, so every
//! comparison the engine makes is exact: axis-aligned boxes and their slab test,
//! spheres, axis-aligned rectangles, cuboids, surface lists, and a bounding-volume
//! hierarchy whose search gives the same nearest hit as a scan of the list. Beside
//! them stand the mirror reflection about an axis normal, the decision step of the
//! radiance estimator, and the random permutations of Perlin noise.

pub mod vec;
pub mod ray;
pub mod aabb;
pub mod hittable;
pub mod sphere;
pub mod moving_sphere;
pub mod rect;
pub mod cuboid;
pub mod surface;
pub mod bvh;
pub mod material;
pub mod radiance;
pub mod perlin;
pub mod scenes;
