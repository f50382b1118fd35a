//! Dense row-major matrices over a scalar type, with construction, access,
//! transpose, addition, multiplication, Gauss-Jordan solving of linear systems
//! and aligned text rendering.
use vstd::prelude::*;

pub mod laws;
pub mod mat;
pub mod render;
pub mod ring;
pub mod sum;

pub use mat::{Matrix, SolveError};
pub use ring::{Gf2, Ring};

verus! {

} // verus!
