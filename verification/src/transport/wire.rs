//! What the wire formats leave to the library: the codes the protocol buffers
//! carry for statuses, and the errors of the transports built on them.
use crate::transport::proto::{EdgeStatus, JoinStatus};
use vstd::prelude::*;

verus! {

/// The error of the transport built on `tonic`.
#[derive(Debug, Clone, Copy, PartialEq, Eq, Structural)]
pub enum Error {
    Upstream,
}

impl Error {
    /// The name of the error, as its `Debug` form spells it.
    pub fn name(&self) -> (s: &'static str)
        ensures
            s@ == "Upstream"@,
    {
        match self {
            Error::Upstream => "Upstream",
        }
    }
}

/// The join status a code on the wire stands for.
pub open spec fn join_status_of(code: i32) -> JoinStatus
    recommends
        0 <= code <= 4,
{
    if code == 0 {
        JoinStatus::HostnameAlreadyInRing
    } else if code == 1 {
        JoinStatus::NodeIdAlreadyInRing
    } else if code == 2 {
        JoinStatus::SafeToJoin
    } else if code == 3 {
        JoinStatus::ConfigChanged
    } else {
        JoinStatus::MembershipRejected
    }
}

/// The join status of a code on the wire. The codes are those of the
/// protocol's enumeration, in its order.
pub fn join_status_from_code(code: i32) -> (s: JoinStatus)
    requires
        0 <= code <= 4,
    ensures
        s == join_status_of(code),
{
    match code {
        0 => JoinStatus::HostnameAlreadyInRing,
        1 => JoinStatus::NodeIdAlreadyInRing,
        2 => JoinStatus::SafeToJoin,
        3 => JoinStatus::ConfigChanged,
        _ => JoinStatus::MembershipRejected,
    }
}

/// The edge status of a code on the wire: zero is up, one is down.
pub fn edge_status_from_code(code: i32) -> (s: EdgeStatus)
    requires
        0 <= code <= 1,
    ensures
        s == if code == 0 {
            EdgeStatus::Up
        } else {
            EdgeStatus::Down
        },
{
    if code == 0 {
        EdgeStatus::Up
    } else {
        EdgeStatus::Down
    }
}

} // verus!
