//! Convex-shape collision and containment tests by the separating axis
//! theorem, over exact integer geometry, together with a small
//! length-prefixed binary field codec.

pub mod collide;
pub mod decode;
pub mod encode;
pub mod math;
pub mod numbers;
