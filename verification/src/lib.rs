//! Colour samples held by their single-precision encodings, images made of
//! them, and the plain-text PPM form of such an image.

pub mod image;
pub mod text;
pub mod vec3;
