//! Events the library reports to its user.
use crate::common::Endpoint;
use crate::transport::proto::{EdgeStatus, Metadata, MetadataView};
use vstd::prelude::*;

verus! {

/// A change in the status of one node.
#[derive(Debug)]
pub struct NodeStatusChange {
    pub endpoint: Endpoint,
    pub status: EdgeStatus,
    pub metadata: Metadata,
}

/// Status changes as endpoint, status and metadata.
pub open spec fn changes_view(v: Seq<NodeStatusChange>) -> Seq<(Seq<char>, EdgeStatus, MetadataView)> {
    v.map_values(|c: NodeStatusChange| (c.endpoint@, c.status, c.metadata@))
}

/// What happened to the membership.
#[derive(Debug)]
pub enum Event {
    Members(Vec<Endpoint>),
    Join(Endpoint),
    Leave(Endpoint),
    ViewChange(Vec<NodeStatusChange>),
    ViewChangeProposal(Vec<NodeStatusChange>),
    Start,
}

impl Event {
    /// The event of starting.
    pub fn new() -> (e: Self)
        ensures
            e is Start,
    {
        Event::Start
    }
}

} // verus!
