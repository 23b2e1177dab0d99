use vstd::prelude::*;

pub mod text;
pub mod package;
pub mod error;
pub mod resolver;
pub mod backend;
pub mod config;
pub mod cli;

verus! {
} // verus!
