//! Squashed zipping of two length-known sequences.
//!
//! A plain zip stops at the end of the shorter input and leaves the tail of
//! the longer one unpaired. The squashed zip pairs every item of the shorter
//! input with an item of the longer one, walking the longer input in strides
//! so that it is used up when the shorter one is.

pub mod adaptor;
pub mod pace;
pub mod pairing;
pub mod source;

pub use adaptor::{pair_up, pull_stride, zip_squash, ZipSquash};
pub use pace::{Pace, Pacer};
pub use pairing::Pairing;
pub use source::{RangeSource, SizedSource, VecSource};
