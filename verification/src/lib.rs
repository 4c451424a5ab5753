//! Line-oriented input acquisition and field splitting, with path utilities.
//!
//! The crate decodes raw bytes pulled from a descriptor into text under a
//! byte budget, distributes the text over named destination slots according
//! to a splitting policy, and provides helpers for locating commands and
//! normalising paths against a modelled view of the file system.

use vstd::prelude::*;

pub mod acquire;
pub mod decode;
pub mod engine;
pub mod laws;
pub mod opts;
pub mod path;
pub mod split;
pub mod stream;

verus! {

/// Result of one acquisition call.
#[derive(Clone, Copy, Debug, PartialEq, Eq, Structural)]
pub enum AcquireResult {
    /// A usable unit of text was produced.
    Success,
    /// No usable data: immediate end of input with an empty unit, or the
    /// input source was closed or cancelled.
    CmdFailure,
    /// The raw byte ceiling was exceeded.
    ReadTooMuch,
}

} // verus!
