//! Verified core of a checker for compiled Lean environments.
use vstd::prelude::*;

pub mod bignat;
pub mod builder;
pub mod check;
pub mod closure;
pub mod dag;
pub mod declare;
pub mod decode;
pub mod emit;
pub mod env;
pub mod graph;
pub mod hash;
pub mod heap;
pub mod key;
pub mod layout;
pub mod node;
pub mod order;
pub mod parts;
pub mod records;
pub mod report;
pub mod shape;
pub mod snapshot;
pub mod success;
pub mod table;
pub mod tree;
pub mod units;
pub mod walk;

verus! {

} // verus!
