//! What a scene is made of: surfaces, materials and the camera.

pub mod camera;
pub mod geometry;
pub mod material;

pub use camera::Camera;
pub use geometry::{HitRecord, Object, Plane, Sphere, Surface};
pub use material::{Emissive, Lambertian, Material, MaterialKind};
