//! A Monte Carlo path tracer over fixed-point arithmetic.
//!
//! Given a scene of surfaces with their materials and a camera, the tracer
//! estimates the light that reaches each pixel by following random paths of
//! light backwards from the camera.
//!
//! Every number is a [`scalar::Scalar`], a fixed-point number whose
//! arithmetic rounds down and saturates, so that what each function returns
//! is an exact function of what it is given: of its arguments and, where it
//! draws at random, of what was drawn.
//!
//! - [`scalar`] and [`trig`]: the numbers, their arithmetic, sine and cosine;
//! - [`math`]: vectors and rays;
//! - [`scene`]: surfaces, materials and the camera;
//! - [`tracer`]: the scene and the paths through it;
//! - [`render`]: from paths to pixels and images;
//! - [`random`]: the source of what is drawn.

pub mod math;
pub mod random;
pub mod render;
pub mod scalar;
pub mod scene;
pub mod tracer;
pub mod trig;
