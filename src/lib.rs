use vstd::prelude::*;

pub mod chunk;
pub mod config;
pub mod confine;
pub mod dispatch;
pub mod event;
pub mod paths;
pub mod strip;
pub mod state;
pub mod text;

verus! {

} // verus!
