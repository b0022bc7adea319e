use vstd::prelude::*;

pub mod chain;
pub mod context;
pub mod log;
pub mod record;
pub mod restore;
pub mod selective;
pub mod store;

verus! {

} // verus!
