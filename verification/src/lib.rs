//! A segmented exponential array with stable element addresses.
//!
//! `xar` stores elements in chunks mapped by power-of-two index ranges: the first
//! two chunks have `1 << BASE_SHIFT` slots each, then each later chunk doubles.
//! Chunks are allocated independently and are never reallocated, so the address of
//! an initialized element does not change when later elements are pushed.
//!
//! This is not a drop-in replacement for [`Vec`]. It is intentionally not
//! contiguous. Use `chunks` or `chunks_mut` when an API needs contiguous slices.
//!
//! An array is modelled by the sequence of its elements, written `array@`, and by
//! the addresses of its chunks, `array.buffers()`. Its invariant is `array.wf()`.

pub mod access;
pub mod array;
pub mod bulk;
pub mod chunk;
pub mod chunks;
pub mod chunks_mut;
pub mod compare;
pub mod contents;
pub mod convert;
pub(crate) mod cursor;
pub mod debug;
pub mod equality;
pub mod error;
pub mod geometry;
pub(crate) mod growth;
pub mod hash;
pub mod into_iter;
pub mod iter;
pub mod iter_mut;
pub mod laws;
pub(crate) mod layout;
pub mod meanings;
pub mod operations;
pub mod order;
pub mod source;
pub(crate) mod tail;
pub mod text;

pub use access::ElementAddress;
pub use array::ExponentialArray;
pub use bulk::{RangeBound, RangeError};
pub use chunks::Chunks;
pub use chunks_mut::ChunksMut;
pub use error::{TryPushError, TryReserveError, TryReserveErrorKind};
pub use into_iter::IntoIter;
pub use iter::Iter;
pub use iter_mut::IterMut;
use vstd::prelude::*;

verus! {

/// The default base-2 exponent for the first chunk.
///
/// With the default value, the first two chunks hold 16 elements each, the third
/// holds 32, the fourth holds 64, and so on.
pub const DEFAULT_BASE_SHIFT: usize = 4;

/// The default largest number of chunks.
///
/// This is 12 where an address has 16 bits, 28 where it has 32 bits, 32 where it has 64
/// bits, and 16 where it has 128 bits.
pub const DEFAULT_CHUNKS: usize = 12 + usize::BITS as usize / 32 * 16 - usize::BITS as usize / 64
    * 12 - usize::BITS as usize / 128 * 36;

/// A default exponential array.
///
/// This alias uses [`DEFAULT_BASE_SHIFT`] and [`DEFAULT_CHUNKS`]. Use
/// [`ExponentialArray`] directly when a different first chunk size or maximum number
/// of chunks is required.
pub type Xar<T> = ExponentialArray<T, DEFAULT_BASE_SHIFT, DEFAULT_CHUNKS>;

} // verus!
