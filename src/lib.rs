use vstd::prelude::*;

pub mod diff;
pub mod types;
pub mod util;

verus! {

} // verus!
