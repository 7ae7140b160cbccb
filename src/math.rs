use vstd::prelude::*;

verus! {

/// Marker for vectors and points expressed in world space.
#[derive(Debug, Copy, Clone, PartialEq, Eq, Structural)]
pub struct World;

/// Marker for vectors and points expressed in an object's local space.
#[derive(Debug, Copy, Clone, PartialEq, Eq, Structural)]
pub struct Local;

/// Marker for clip-space coordinates produced by the camera projection.
#[derive(Debug, Copy, Clone, PartialEq, Eq, Structural)]
pub struct Clip;

/// Marker for the shading frame of a surface hit: the normal is +z.
#[derive(Debug, Copy, Clone, PartialEq, Eq, Structural)]
pub struct Shading;

} // verus!
