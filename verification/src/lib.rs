//! Lazy interleaving of several producers of values.
//!
//! A [`producer::Producer`] yields a finite sequence of values one pull at a
//! time. [`altern::BiAltern`] alternates between exactly two producers and is
//! itself a producer, so it nests; [`altern::VecAltern`] alternates between
//! any number of producers held in a growable list.

pub mod altern;
pub mod alternate_iterator;
pub mod producer;
pub mod slice_producer;

pub use altern::AlternWith;
pub use altern::BiAltern;
pub use producer::Producer;
pub use slice_producer::SliceProducer;
