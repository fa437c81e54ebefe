//! Discrete core of a stochastic path tracer: bounding boxes over
//! order-preserving coordinate keys, a bounding-volume hierarchy with a
//! nearest-hit query, the bounce loop of the radiance estimator and the
//! layout of the finished pixel buffer.
//!
//! Floating-point geometry (slab tests, sphere roots, scattering) is supplied
//! by the caller through closures; everything decided from their results is
//! verified here.

pub mod aabb;
pub mod bvh;
pub mod hit;
pub mod pixel;
pub mod trace;
pub mod world;
