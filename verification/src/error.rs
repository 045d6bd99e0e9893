//! What can end an export.

use vstd::prelude::*;

verus! {

/// Why an export was given up. Whatever the reason, no output is handed back.
#[derive(Debug, PartialEq, Eq)]
pub enum ExportError {
    /// The strategy names a master channel, and no channel of the lap has that name.
    /// `lap` is the lap's own number, counted from zero.
    MasterChannelMissing { lap: usize },
    /// Sample `sample` of the channel called `channel` has an instant that is no
    /// number, is infinite, or lies beyond what a count of microseconds can hold.
    InvalidTimestamp { channel: String, sample: usize },
    /// The catalog could not supply the samples of the channel called `channel` for
    /// the lap numbered `lap`, counted from zero.
    LoadFailure { lap: usize, channel: String },
    /// The writer of the delimited text took no text: it was given records that are
    /// not all as long as the first.
    WriteFailure,
}

} // verus!
