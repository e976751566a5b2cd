//! The classic game: bottles of named colours, with mystery layers but without
//! hidden bottles, laid out by fixed bottle positions, and solved by a depth
//! first search.
pub mod bottle;
pub mod layout;
pub mod solver;
pub mod discovery;
pub mod overlay;
pub mod pixels;
pub mod validation;
pub mod reach;
