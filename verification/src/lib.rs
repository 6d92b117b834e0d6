//! The configuration, project memory and hook logic of the yunzhi assistant.
use vstd::prelude::*;

pub mod text;
pub mod memory;
pub mod memory_laws;
pub mod config;
pub mod hooks;

verus! {

} // verus!
