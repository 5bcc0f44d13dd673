//! The core of a Monte Carlo ray tracer over decimal fixed-point numbers:
//! vectors and rays, spheres and scenes, materials, a thin-lens camera and
//! the recursion that follows a ray through its bounces.

pub mod camera;
pub mod fixed;
pub mod hittable;
pub mod hittable_list;
pub mod material;
pub mod ray;
pub mod render;
pub mod sphere;
pub mod tracer;
pub mod trig;
pub mod utils;
pub mod vec3;

pub use crate::fixed::Fixed;
pub use crate::ray::Ray;
pub use crate::vec3::{Color, Point3, Vec3};
