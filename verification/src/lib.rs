//! A path tracer's kernel over exact fixed-point arithmetic, with its
//! contracts proved.
//!
//! # Numbers
//!
//! Every length, coordinate, colour channel and ray parameter is an `i64`
//! count of grid steps, [`scalar::UNIT`] steps to one. `i64::MAX` and
//! `i64::MIN` stand for +∞ and −∞ wherever a bound may be infinite. Sums
//! saturate; products of two vectors are exact, in squared steps; a
//! quotient is rounded down to the grid where it is taken. Angles, sines,
//! cosines, logarithms and the coordinates on a sphere's surface are
//! rounded to the nearest step; sines and cosines are exact at the
//! multiples of a right angle, angles on the axes, and the logarithm at
//! one. Points of a scene lie within [`scalar::COORD_MAX`] of the origin on
//! every axis, so that the exact products fit the machine's integers.
//!
//! # Scenes
//!
//! A scene is a [`hitable::World`]: three arenas, of shapes, of materials
//! and of textures. What is made of parts names its parts by handle, the
//! position in the arena, and stands after them. Every shape implements
//! [`hitable::Hittable`], every material [`material::MaterialTrait`], every
//! texture [`texture::TextureTrait`]; the contracts of those traits are
//! what all variants have in common.
//!
//! # Chance
//!
//! Nothing here decides by chance. Whatever is random comes in on a tape
//! of draws, a [`hitable::Sampler`], so that following a ray is a function
//! of the scene, the ray and the tape. [`utils`] holds the draws that fill
//! such a tape.
//!
//! # Rendering
//!
//! [`camera`] cuts an image into tiles that cover it exactly, keeps the
//! book of the tiles that are being rendered, and renders a tile into a
//! buffer of its own; [`color`] copies a finished buffer into the image.

pub mod scalar;
pub mod utils;
pub mod interval;
pub mod vec3;
pub mod ray;
pub mod aabb;
pub mod hitable;
pub mod sphere;
pub mod quad;
pub mod bvh;
pub mod texture;
pub mod material;
pub mod perlin;
pub mod camera;
pub mod color;
pub mod rasterizer2;
