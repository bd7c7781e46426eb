//! A software rendering core on exact integer arithmetic: segment and polygon
//! clipping against a viewport, line and polygon rasterization into a pixel
//! buffer, and triangle meshes.
use vstd::prelude::*;

pub mod buffer;
pub mod camera;
pub mod exact;
pub mod plane;
pub mod volume;

verus! {

/// A value of one of two types.
#[derive(Copy, Clone, Debug, PartialEq, Eq)]
pub enum Either<A, B> {
    A(A),
    B(B),
}

} // verus!
