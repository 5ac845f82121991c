//! Dynamic time warping over token traces.
//!
//! The engine aligns two sequences of token identifiers under a
//! substitution/gap cost oracle and returns the minimum warping cost
//! together with an optional warping path.  Four variants cooperate:
//! an exact full-matrix algorithm, a linear-memory variant without a
//! path, a banded variant driven by a [`dtw::DynamicWindow`], and the
//! multi-resolution approximation `FastDTW`.  A companion codec maps
//! textual tokens to dense integer identifiers and to the versioned
//! trace binary exchanged with the tokeniser.

pub mod dtw;
pub mod fast;
pub mod parsing;
pub mod path;
pub mod window;
pub mod windowed;
