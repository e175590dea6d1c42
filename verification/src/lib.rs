//! A freestanding first-fit heap allocator for an early-boot environment.
//!
//! The allocator hands out arbitrary-size, arbitrary-alignment regions carved
//! from a small number of large contiguous memory ranges reported by the
//! firmware.  Every region, free or allocated, is described by a fixed-size
//! [`chunk::Header`] record; the headers form an address-ordered chain that
//! partitions the backing ranges with no gaps and no overlaps.  Allocation
//! walks the chain and splits the first free chunk that can host the request;
//! deallocation frees a chunk and eagerly coalesces it with address-adjacent
//! free neighbours so that no two adjacent chunks are ever left free.

pub mod arena;
pub mod chunk;
pub mod err;
pub mod pow2;

pub use err::AllocError;
pub use pow2::round_up_to_nearest_pow2;
