//! Combinators that alternate between producers.
//!
//! - [`BiAltern`] alternates between exactly two producers, with nothing
//!   boxed. Nesting it alternates between more of them, pairwise, so the
//!   order of the leaves needs care (see [`bi_altern`]). It also counts what
//!   remains and pulls from the tail when both of its producers can.
//! - [`VecAltern`] alternates between any number of producers of one type, in
//!   the order in which they were added, and takes more of them at any time.
//!   With boxed producers their types may differ.

pub mod bi_altern;
pub mod vec_altern;

pub use bi_altern::AlternWith;
pub use bi_altern::BiAltern;
pub use vec_altern::VecAltern;
