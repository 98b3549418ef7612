//! Finds long repeated runs in text and replaces them by emojis.
use vstd::prelude::*;

pub mod brackets;
pub mod compress;
pub mod distil;
pub mod emoji;
pub mod grow;
pub mod outside;
pub mod text;

verus! {

} // verus!
