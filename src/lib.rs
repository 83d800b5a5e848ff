//! Physical memory management for a bare-metal kernel: a bump allocator for
//! bootstrap-phase dynamic memory and a page-granular frame allocator with a
//! self-hosted metadata table.
use vstd::prelude::*;

pub mod linear_allocator;
pub mod paging;

verus! {

} // verus!
