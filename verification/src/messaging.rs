//! Markers for the messaging layer between members.
use vstd::prelude::*;

verus! {

/// A member's address.
pub struct Endpoint;

/// A response on the wire.
pub struct RapidResponse;

/// A request on the wire.
pub struct RapidRequest;

/// A member's identifier.
pub struct NodeId;

/// Metadata on the wire.
pub struct Metadata;

} // verus!
