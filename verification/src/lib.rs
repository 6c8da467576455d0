//! Host capability core of a deterministic rollup kernel runtime.
//!
//! The crate provides, fully specified and verified:
//! - a storage-path encoding with a strict grammar ([`path`]);
//! - the fixed byte encodings of the scalar values the host keeps in its
//!   store ([`store`]);
//! - an in-memory key-value store with typed accessors ([`store`]);
//! - the host state machine governing input delivery, checkpoints and the
//!   yield protocol ([`state`]);
//! - a safe, typed runtime interface over the host capabilities
//!   ([`runtime`]), implemented by the in-memory host ([`mock_host`]).

pub mod path;

pub mod codec;

pub mod rollup_core;

pub mod input;

pub mod trap;

pub mod store;

pub mod state;

pub mod runtime;

pub mod mock_host;








