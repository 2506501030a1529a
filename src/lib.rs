use vstd::prelude::*;

pub mod broadcast;
pub mod neighborhood;

verus! {

} // verus!
