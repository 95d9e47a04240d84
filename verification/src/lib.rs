//! Iteration and in-place buffer tools that work without allocating:
//! a UTF-8 decoder over bytes, streaming iterators whose items borrow from
//! the iterator, and operations that shrink or split a buffer where it lies.
//!
//! - [`iter`]: the decoder [`iter::Utf8Iter`], the streaming iterators
//!   [`iter::Groups`] and [`iter::RefIter`], [`iter::DedupIter`], and the
//!   adapters of [`IterTools`] that build them.
//! - [`slice`]: [`VecTools::in_place`], [`SliceTools::promote`],
//!   [`SliceTools::swap_remove`] and the streaming iterator
//!   [`slice::RemoveIter`].
//! - [`str`]: [`StringTools::in_place`].
//! - [`utf8`] and [`runs`]: what the contracts of the iterators speak of, and
//!   what holds of it.

pub mod iter;
pub mod runs;
pub mod slice;
pub mod str;
pub mod utf8;

pub use iter::{IterTools, StreamingIterator};
pub use slice::{SliceTools, VecTools};
pub use str::StringTools;
