use vstd::prelude::*;

pub mod count;
pub mod generate;
pub mod geom;
pub mod image;
pub mod maze;
pub mod reach;
pub mod rng;
pub mod text;

verus! {

} // verus!
