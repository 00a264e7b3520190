//! Core of a small method-JIT Java virtual machine: a registry-backed heap
//! with a precise stop-the-world mark-and-sweep collector, and the catalog of
//! native trampolines that generated code may call.

pub mod gc;
pub mod heap;
pub mod native_functions;

use vstd::prelude::*;

verus! {

/// A slot word: a pointer-sized integer. Zero denotes the null reference.
pub type Word = u64;

} // verus!
