//! Clique: a membership library built on multi-ring monitoring, cut detection
//! and Fast Paxos.

pub mod assoc;
pub mod broadcast;
pub mod builder;
pub mod cluster;
pub mod common;
pub mod consensus;
pub mod error;
pub mod event;
pub mod hashing;
pub mod join;
pub mod list;
pub mod membership;
pub mod messaging;
pub mod metadata_manager;
pub mod monitor;
pub mod order;
pub mod peer;
pub mod protocol;
pub mod transport;

pub use common::{Endpoint, NodeId};
pub use error::{Error, ErrorKind, Result};
