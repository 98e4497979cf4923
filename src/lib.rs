use vstd::prelude::*;

pub mod accelerated;
pub mod compile;
pub mod eq;
pub mod net;
pub mod stratified;
pub mod term;

verus! {

} // verus!
