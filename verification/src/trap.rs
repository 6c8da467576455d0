//! The failure-escalation taxonomy of the simulated runtime.
//!
//! A *trap* stands for a condition under which the real host discards the
//! kernel's uncommitted progress and reboots it from its last durable
//! checkpoint.  In this library every operation that could trap instead
//! states, in its `requires` clause, that the condition is absent, so the
//! verified functions never reach one; the surrounding driver realizes a
//! trap as an unrecoverable abort.

use crate::path::PathError;
use vstd::prelude::*;

verus! {

/// Trap conditions are either caused by errors in the host or the kernel.
#[derive(Debug, Clone, PartialEq, Eq)]
pub enum TrapCondition {
    /// Failure condition due to an invalid assumption by the runtime itself.
    HostFailure(HostError),
    /// Failure condition due to incorrect kernel behaviour.
    KernelFailure(KernelError),
}

/// The simulated runtime makes certain assumptions about its own
/// bookkeeping; these errors describe the ways those assumptions can break.
#[derive(Debug, Clone, PartialEq, Eq)]
pub enum HostError {
    /// A scalar read from storage did not carry the byte encoding that the
    /// runtime expects for the named type.
    InvalidEncoding(String),
    /// A host path was assumed to exist, but not found.
    ExistingPathNotFound(String),
    /// The host advanced past its fixed per-level checkpoint budget.
    TooManyCheckpointsInCommitment,
}

/// Kernel-side misuse of the capability interface.
#[derive(Debug, Clone, PartialEq, Eq)]
pub enum KernelError {
    /// The kernel may only write up to `u32::MAX` outputs per run.
    TooManyOutputsWritten,
    /// An invalid path was given by the kernel in a storage operation.
    InvalidPath(PathError),
    /// A well-formed path was given by the kernel, but did not exist in the
    /// store.
    PathNotFound(String),
    /// An offset into a stored value was larger than the value itself.
    OffsetOutOfBounds(usize, usize),
    /// An index into the subkeys of a prefix was out of bounds.
    PrefixSubkeyIndexOutOfBounds {
        /// The prefix of the subkeys lookup.
        prefix: String,
        /// The number of subkeys under the prefix.
        subkey_count: usize,
        /// The subkey index requested.
        given_index: i64,
    },
}

} // verus!
