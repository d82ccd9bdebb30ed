//! rusty_alloc: the verified core of a mimalloc-architecture allocator.
//!
//! The size-class geometry, the fixed-region extent backend and its sizing
//! rules, the segment and slice bookkeeping, the ChaCha8 stream, and the
//! option table, each with a contract proved by Verus.

pub mod types;
pub mod bins;
pub mod prim;
pub mod os;
pub mod slice_pool;
pub mod bitword;
pub mod segment_map;
pub mod random;
pub mod options;
pub mod page;
pub mod arena;
pub mod segment;
pub mod heap;

use vstd::prelude::*;

verus! {


/// The mimalloc version this allocator is API- and ABI-compatible with, in
/// mimalloc's encoding (major * 10^4 + minor * 10^2 + patch): v2.4.5.
pub const MI_COMPAT_VERSION: i32 = 20405;

/// The mimalloc-encoded compatibility version.
pub fn version() -> (v: i32)
    ensures
        v == MI_COMPAT_VERSION,
        v == 2 * 10000 + 4 * 100 + 5,
{
    MI_COMPAT_VERSION
}

} // verus!
