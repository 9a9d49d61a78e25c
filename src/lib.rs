//! Sphere tracing of a signed-distance scene, on fixed-point coordinates.
//!
//! Every length is an `i64` count of millionths of a scene unit (see
//! `arith::UNIT`), so the whole pipeline is exact integer arithmetic and
//! every step of it is stated and proved.

pub mod arith;
pub mod linear;
pub mod primitives;
pub mod scene;
pub mod canvas;
