//! A verified trash engine: naming, metadata, and archive bookkeeping for a
//! command-line trash utility.

use vstd::prelude::*;

pub mod strutil;
pub mod meta;
pub mod records;
pub mod name;
pub mod store;
pub mod codec;
pub mod engine;

verus! {

/// Kinds of failure the trash engine reports to its caller.
#[derive(Clone, Copy, PartialEq, Eq, Structural, Debug)]
pub enum TrashError {
    /// The source path or trash entry does not exist (or its on-disk type
    /// does not match what the operation needs).
    NotFound,
    /// A filesystem or compression step failed.
    IoError,
}

} // verus!
