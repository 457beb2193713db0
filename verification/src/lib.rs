//! Bookkeeping for "I say sync, we say async": a protocol by which a host and
//! the guest components it runs suspend calls that cannot finish at once and
//! resume them later through a polling interface.
//!
//! The library holds the decisions of both sides: the host's task table with
//! its reference counts, the host's routing of poll outputs to poll inputs, the
//! guest's listener and future bookkeeping, and the selection of a
//! component's poll functions. Running futures, calling into wasm and waiting
//! are left to the program around it.

pub mod protocol;
pub mod task;
pub mod host;
pub mod routing;
pub mod exports;
pub mod guest;
pub mod world;
