use vstd::prelude::*;

pub mod text;
pub mod order;
pub mod cli;
pub mod output;
pub mod arxiv;
pub mod streaming;
pub mod extraction;
pub mod commands;
pub mod index;
pub mod input;

verus! {

} // verus!
