//! A two-tier memory allocator for environments without an operating-system
//! heap, modelled over caller-supplied address ranges.
//!
//! The crate provides three pieces:
//!
//! * [`freelist_alloc::FreelistAlloc`], a fixed-slot allocator that serves
//!   small requests in constant time;
//! * [`buddy_alloc::BuddyAlloc`], a power-of-two buddy allocator for
//!   general-purpose requests;
//! * [`non_threadsafe_alloc::NonThreadsafeAlloc`], a facade that owns one
//!   region of each kind and routes every request to the appropriate tier.
//!
//! Each region is described by a numeric base address and a length and keeps
//! its own backing bytes, so all bookkeeping is ordinary data that the
//! verifier can reason about: free lists are vectors of block indices, the
//! buddy bitmaps are vectors of bits, and every public operation carries a
//! contract that pins down how the region state changes.

pub mod buddy_alloc;
pub mod freelist_alloc;
pub mod non_threadsafe_alloc;

pub use crate::buddy_alloc::{BuddyAlloc, BuddyAllocParam};
pub use crate::freelist_alloc::{FreelistAlloc, FreelistAllocParam};
pub use crate::non_threadsafe_alloc::NonThreadsafeAlloc;
