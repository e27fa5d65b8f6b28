//! The membership state a cluster member starts from.
use crate::common::{Endpoint, NodeId};
use crate::membership::cut_detector::{cleared, CutDetectorView, MultiNodeCutDetector};
use crate::membership::view::{ring_insert_all, View};
use crate::membership::Membership;
use crate::order::str_views;
use vstd::prelude::*;
use vstd::view::View as _;

verus! {

/// The number of rings, and of observers per subject.
pub const K: usize = 10;

/// The number of reports after which a subject is ready to be proposed.
pub const H: usize = 9;

/// The number of reports after which a subject is in flux.
pub const L: usize = 4;

/// The membership of a member that starts a cluster on its own: a view whose
/// rings hold only `listen_target`, with `node_id` seen, and an empty cut
/// detector with `K` observers per subject and the watermarks `H` and `L`.
pub fn start_membership(node_id: NodeId, listen_target: Endpoint) -> (m: Membership)
    ensures
        m.wf(),
        m.host_spec() == listen_target@,
        m.view_spec().k_spec() == K,
        forall|i: int|
            0 <= i < K ==> #[trigger] m.view_spec().ring_view(i) == ring_insert_all(
                i as u64,
                Map::empty(),
                seq![listen_target@],
            ),
        m.view_spec().seen_view() == set![node_id],
        m.cut_spec() == cleared(
            CutDetectorView {
                num: K as nat,
                high: H as nat,
                low: L as nat,
                proposal_count: 0,
                updates_in_progress: 0,
                reports: Map::empty(),
                proposal: Seq::empty(),
                pre_proposal: Set::empty(),
                seen_down_link_events: false,
            },
        ),
        !m.announced_spec(),
        m.alerts_spec().len() == 0,
        m.pending_spec().len() == 0,
        m.joiner_data_spec().len() == 0,
{
    let mut ids: Vec<NodeId> = Vec::new();
    ids.push(node_id);
    let mut endpoints: Vec<Endpoint> = Vec::new();
    endpoints.push(listen_target.clone());
    proof {
        assert(str_views(endpoints@) =~= seq![listen_target@]);
        assert(ids@.to_set() =~= set![node_id]) by {
            assert(ids@ =~= seq![node_id]);
            assert(ids@[0] == node_id);
            assert forall|x: NodeId| ids@.to_set().contains(x) <==> set![node_id].contains(x) by {
                if ids@.contains(x) {
                    let i = choose|i: int| 0 <= i < ids@.len() && ids@[i] == x;
                }
            }
        }
    }
    let view = View::bootstrap(K as i32, ids, endpoints);
    let cut_detector = MultiNodeCutDetector::new(K, H, L);
    let m = Membership::new(listen_target, view, cut_detector);
    proof {
        assert(m.alerts_spec().len() == 0);
        assert(m.pending_spec().len() == 0);
        assert(m.joiner_data_spec().len() == 0);
    }
    m
}

} // verus!
