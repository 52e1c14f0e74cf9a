//! Turns a raw word-frequency corpus into the bounded, log-scaled frequency
//! table that a downstream binary-dictionary compiler consumes.
//!
//! - [`parse`] splits the corpus into lines, drops lines whose word is empty
//!   or outside an optional reference set, and reads each kept count.
//! - [`scale`] maps a count onto the score range by a base-`total` logarithm,
//!   stated exactly over integer powers.
//! - [`bignum`] supplies the exact arithmetic on a few hundred limbs that the
//!   scaler's power comparisons need.
//! - [`render`] serializes the scored entries into the intermediate text
//!   format, behind an optional header line.
//! - [`readback`] states the round-trip law: a reader of that format recovers
//!   every pair.
//! - [`pipeline`] chains parsing, scaling and serialization into one run.
//!
//! Reading the input files, writing the intermediate file and invoking the
//! external dictionary compiler stay with the caller.

pub mod bignum;
pub mod parse;
pub mod pipeline;
pub mod readback;
pub mod render;
pub mod scale;
