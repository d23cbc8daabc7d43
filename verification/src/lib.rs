//! An offline path-tracing renderer over fixed-point arithmetic: axis-aligned
//! bounding boxes, a bounding-volume hierarchy over spheres, material
//! scattering, and the recursive radiance estimator that ties them together.
pub mod aabb;
pub mod bvh;
pub mod color;
pub mod fixed;
pub mod helpers;
pub mod hittable;
pub mod material;
pub mod maths;
pub mod scene;

