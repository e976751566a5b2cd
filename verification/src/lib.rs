//! Game logic of an automatic water-sort puzzle player: bottles and their
//! pouring rules, the move search, the discovery of hidden and mystery
//! colours, bottle layouts and the plain-value parts of capture handling.
use vstd::prelude::*;

pub mod position;
pub mod color;
pub mod text;
pub mod bottle;
pub mod rules;
pub mod solver;
pub mod reach;
pub mod estimate;
pub mod discovery;
pub mod layout;
pub mod notation;
pub mod capture;
pub mod frame_stability;
pub mod classic;
pub mod device;
pub mod player;
pub mod autoplay;
pub mod detection;
pub mod rows;
pub mod preview;
pub mod replay;

verus! {

} // verus!
