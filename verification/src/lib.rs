//! Verified decision logic for two-player Brazilian Truco bots.
#![allow(unused_imports)]

pub mod engine;
pub mod rng;
pub mod bot;
pub mod heuristic;
pub mod random;
pub mod simple;
pub mod llm;
pub mod provider;
pub mod abstraction;
pub mod seed;
pub mod policy;
pub mod text;
pub mod json;

use vstd::prelude::*;

verus! {

} // verus!
