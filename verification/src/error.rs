//! The errors of the library.

use vstd::prelude::*;

verus! {

/// What can go wrong while building or drawing a plot.
#[derive(Debug)]
pub enum Error {
    /// The GPU layer reported a failure, described by the message.
    Wgpu(String),
    /// A curve was given no samples.
    EmptyData,
    /// A state that the library never reaches was reached.
    Internal(&'static str),
}

} // verus!
