//! Vectors and rays.

pub mod ray;
pub mod vec3;

pub use ray::Ray;
pub use vec3::Vec3;
