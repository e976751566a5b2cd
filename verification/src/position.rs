use vstd::prelude::*;

verus! {

/// A screen position in pixels: `Pos(x, y)`.
#[derive(Debug, Clone, Copy, PartialEq, Eq, Structural, Hash)]
pub struct Pos(pub i32, pub i32);

} // verus!
