//! The size gate, and the decision whether a configured entry is rotated.

use vstd::prelude::*;

verus! {

/// A file is rotated once its size in whole kilobytes exceeds this.
pub const THRESHOLD_KB: u64 = 250;

/// Bytes per kilobyte in the size gate.
pub const BYTES_PER_KB: u64 = 1000;

/// A file of `bytes` bytes is large enough to rotate.
pub open spec fn eligible_size(bytes: nat) -> bool {
    bytes / (BYTES_PER_KB as nat) > THRESHOLD_KB as nat
}

/// Whether a file of `size_bytes` bytes is large enough to rotate.
pub fn check_big_enough(size_bytes: u64) -> (r: bool)
    ensures
        r == eligible_size(size_bytes as nat),
{
    size_bytes / BYTES_PER_KB > THRESHOLD_KB
}

/// What becomes of one configured entry before its family is looked at.
#[derive(Clone, Copy, Debug, PartialEq, Eq, Structural)]
pub enum Gate {
    /// The file does not exist: skipped.
    Missing,
    /// Its size could not be read: skipped.
    Unreadable,
    /// It is below the threshold: skipped.
    TooSmall,
    /// Its family is rotated.
    Rotate,
}

pub open spec fn gate_model(exists: bool, size: Option<nat>) -> Gate {
    if !exists {
        Gate::Missing
    } else {
        match size {
            None => Gate::Unreadable,
            Some(b) => if eligible_size(b) {
                Gate::Rotate
            } else {
                Gate::TooSmall
            },
        }
    }
}

/// Decides an entry from whether its file exists and, if it was read, its size.
pub fn gate_entry(exists: bool, size_bytes: Option<u64>) -> (r: Gate)
    ensures
        r == gate_model(
            exists,
            match size_bytes {
                Some(b) => Some(b as nat),
                None => None,
            },
        ),
{
    if !exists {
        Gate::Missing
    } else {
        match size_bytes {
            None => Gate::Unreadable,
            Some(b) => if check_big_enough(b) {
                Gate::Rotate
            } else {
                Gate::TooSmall
            },
        }
    }
}

} // verus!
