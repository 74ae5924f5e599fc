//! A small content-addressed source-control library: an object store keyed
//! by SHA-256, a canonical object encoding, an immutable stage tree that is
//! rewritten one path at a time, and commit history resolution.

pub mod cli;
pub mod closure;
pub mod codec;
pub mod error;
pub mod external;
pub mod gc;
pub mod hash;
pub mod objects;
pub mod order;
pub mod refs;
pub mod repo;
pub mod stage;
pub mod store;
pub mod workspace;
