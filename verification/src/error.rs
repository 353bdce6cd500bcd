use vstd::prelude::*;

verus! {

/// The ways in which a computation of this crate can fail.
#[derive(Clone, Copy, Debug, PartialEq, Eq, Structural)]
pub enum GeometryError {
    /// A triangulation was asked of no points at all.
    EmptyInput,
    /// Three collinear points were given as the vertices of a triangle.
    DegenerateTriangle,
    /// An edge is shared by more than two triangles.
    NonManifold,
}

} // verus!
