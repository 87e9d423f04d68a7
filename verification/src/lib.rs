//! A memory allocator over virtual memory that the environment reserves and
//! commits: size-classed blocks in segments of an arena, and large blocks in
//! mappings of their own.
//!
//! The library works on addresses.  It decides what is reserved, committed,
//! handed out and given back, and keeps what the headers of the arena, of
//! its segments and of the large blocks hold; the memory itself is touched
//! by the environment and by the callers alone.

pub mod allocator;
pub mod error;
pub mod internal;
pub mod sys;
pub mod util;
