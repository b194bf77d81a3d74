//! A buddy-system memory allocator over a fixed power-of-two arena.
//!
//! The allocator manages a contiguous byte region by splitting it into
//! power-of-two blocks, serving each request from a minimal fitting block,
//! and eagerly merging a freed block with its address-aligned partner
//! ("buddy") whenever that partner is free as well.

pub mod allocator;
pub mod arena;
pub mod size_class;

