use vstd::prelude::*;

pub mod bfir;
pub mod semantics;

verus! {

} // verus!
