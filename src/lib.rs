//! Reading and writing of a line-oriented geometry format and its companion
//! material format.
use vstd::prelude::*;

pub mod mtl;
pub mod number;
pub mod obj;
pub mod round_trip;
pub mod text;
pub mod write;

verus! {

} // verus!
