//! Membership: the rings of the current view, the cut detector and the
//! membership protocol's decisions.
//!
//! `Membership` holds the state of one member and decides what each incoming
//! message, timer and consensus decision does to it. Sending, waiting and
//! timing are the caller's part: it hands in the current time in milliseconds
//! and carries out the messages and responses handed back.
pub mod cut_detector;
pub mod ring;
pub mod view;

use crate::assoc::{assoc, keys_distinct, lemma_assoc, lemma_assoc_push, lemma_assoc_remove, lemma_assoc_update};
use crate::common::{ConfigId, Endpoint, NodeId};
use crate::consensus::{address, addressed_view, fast_vote_msg, step_state, FastPaxos, FastPaxosView};
use crate::error::{Error, ErrorKind, Result};
use crate::event::{changes_view, Event, NodeStatusChange};
use crate::order::{contains_endpoint, find_endpoint, remove_endpoint, str_views};
use crate::transport::proto::{
    alerts_view, clone_endpoints, clone_ids, Alert, AlertView, BatchedAlertMessage, Consensus,
    EdgeStatus, JoinMessage, JoinResponse, JoinResponseView, JoinStatus, Metadata, MetadataView,
    NodeStatus, PreJoinMessage,
};
use crate::transport::{Message, Response};
use cut_detector::{aggregate_rings, cut_inv, scan_nodes, CutDetectorView, MultiNodeCutDetector};
use ring::{keys_hashed, ring_hash};
use view::{Configuration, View};
use core::time::Duration;
use vstd::prelude::*;
use vstd::view::View as _;

verus! {

/// The timing a membership service runs with.
#[derive(Debug)]
pub struct Config {
    batching_window: Duration,
    default_fdinterval_delay: Duration,
    default_fdinterval: Duration,
}

/// A marker for the view a membership service holds.
pub struct MembershipView;

/// The window during which alerts are batched, in milliseconds.
pub const BATCH_WINDOW_MS: u64 = 10000;

/// The data a joiner announced, kept until the decision that admits it.
pub open spec fn joiner_data_view(v: Seq<(Endpoint, NodeId, Metadata)>) -> Seq<(Seq<char>, (NodeId, MetadataView))> {
    v.map_values(|e: (Endpoint, NodeId, Metadata)| (e.0@, (e.1, e.2@)))
}

/// Time elapsed from `since` to `now`; zero when `now` is not later.
pub open spec fn elapsed(now: u64, since: u64) -> nat {
    if now > since {
        (now - since) as nat
    } else {
        0
    }
}

/// The response a seed gives to a request to join.
pub open spec fn pre_join_response(v: View, sender: Seq<char>, node_id: NodeId, c: Configuration) -> JoinResponseView {
    let status = if v.host_present(sender) {
        JoinStatus::HostnameAlreadyInRing
    } else if v.seen_view().contains(node_id) {
        JoinStatus::NodeIdAlreadyInRing
    } else {
        JoinStatus::SafeToJoin
    };
    JoinResponseView {
        sender,
        status,
        config_id: c.id_spec(),
        endpoints: if status == JoinStatus::SafeToJoin || status == JoinStatus::HostnameAlreadyInRing {
            view::expected_observers(v, sender)
        } else {
            Seq::empty()
        },
        identifiers: Seq::empty(),
        cluster_metadata: Seq::empty(),
    }
}

/// Whether `node` takes a position on the first ring `ring0`: whether it is a
/// member.
pub open spec fn on_ring(ring0: Map<u64, Seq<char>>, node: Seq<char>) -> bool {
    ring0.dom().contains(ring_hash(0, node))
}

/// Whether an alert passes the filter for the configuration `config_id`, with
/// `ring0` the first ring.
pub open spec fn alert_passes(ring0: Map<u64, Seq<char>>, a: AlertView, config_id: ConfigId) -> bool {
    a.config_id == config_id && !(a.edge_status == EdgeStatus::Down && !on_ring(ring0, a.dst))
}

/// What the alert filter keeps, with `ring0` the first ring: alerts of another
/// configuration are dropped; of the current configuration, every up alert and
/// every alert about a member (a node with a position on the first ring) is
/// kept; a down alert about a node that is not a member is dropped.
pub proof fn lemma_filter_keeps_reports(ring0: Map<u64, Seq<char>>, a: AlertView, config_id: ConfigId)
    ensures
        a.config_id != config_id ==> !alert_passes(ring0, a, config_id),
        a.config_id == config_id && a.edge_status == EdgeStatus::Up ==> alert_passes(ring0, a, config_id),
        a.config_id == config_id && ring0.dom().contains(ring_hash(0, a.dst)) ==> alert_passes(ring0, a, config_id),
        a.edge_status == EdgeStatus::Down && !ring0.dom().contains(ring_hash(0, a.dst)) ==> !alert_passes(
            ring0,
            a,
            config_id,
        ),
{
}

/// Strictly increasing by position on the first ring.
pub open spec fn ring_ordered(s: Seq<Seq<char>>) -> bool {
    forall|i: int, j: int| 0 <= i < j < s.len() ==> ring_hash(0, #[trigger] s[i]) < ring_hash(0, #[trigger] s[j])
}

/// The status change each node of a proposal makes: a member leaves, another
/// node joins.
pub open spec fn status_changes(ring0: Map<u64, Seq<char>>, proposal: Seq<Seq<char>>) -> Seq<
    (Seq<char>, EdgeStatus, MetadataView),
> {
    proposal.map_values(
        |e: Seq<char>|
            (
                e,
                if on_ring(ring0, e) {
                    EdgeStatus::Down
                } else {
                    EdgeStatus::Up
                },
                Seq::<(Seq<char>, Seq<u8>)>::empty(),
            ),
    )
}

/// The first `n` alerts of a batch taken by the cut detector: each alert that
/// passes the filter is aggregated, ring by ring. Returns the state and the
/// nodes released.
pub open spec fn batch_cut(
    s: CutDetectorView,
    ring0: Map<u64, Seq<char>>,
    alerts: Seq<AlertView>,
    config_id: ConfigId,
    n: nat,
) -> (CutDetectorView, Seq<Seq<char>>)
    decreases n,
{
    if n == 0 {
        (s, Seq::empty())
    } else {
        let (s1, out1) = batch_cut(s, ring0, alerts, config_id, (n - 1) as nat);
        let a = alerts[n - 1];
        if alert_passes(ring0, a, config_id) {
            let (s2, out2) = aggregate_rings(s1, a.src, a.dst, a.edge_status, a.ring_number, a.ring_number.len());
            (s2, out1 + out2)
        } else {
            (s1, out1)
        }
    }
}

/// The joiner data after the first `n` alerts of a batch: each up alert that
/// passes the filter records the identifier and metadata of its joiner.
pub open spec fn batch_joiners(
    j: Map<Seq<char>, (NodeId, MetadataView)>,
    ring0: Map<u64, Seq<char>>,
    alerts: Seq<AlertView>,
    config_id: ConfigId,
    n: nat,
) -> Map<Seq<char>, (NodeId, MetadataView)>
    decreases n,
{
    if n == 0 {
        j
    } else {
        let j1 = batch_joiners(j, ring0, alerts, config_id, (n - 1) as nat);
        let a = alerts[n - 1];
        if alert_passes(ring0, a, config_id) && a.edge_status == EdgeStatus::Up {
            j1.insert(a.dst, (a.node_id->0, a.metadata->0))
        } else {
            j1
        }
    }
}

/// What a batch of alerts may be handed in with: rings populated, as many
/// rings as the cut detector counts observers (give or take one), and every
/// alert that passes the filter well formed.
pub open spec fn batch_accepted(m: Membership, alerts: Seq<AlertView>) -> bool {
    &&& m.view_spec().populated()
    &&& m.view_spec().k_spec() - 1 <= m.cut_spec().num as i32 as int
    &&& forall|i: int|
        0 <= i < alerts.len() && alert_passes(
            m.view_spec().ring_view(0),
            #[trigger] alerts[i],
            m.view_spec().config_spec().id_spec(),
        ) ==> alert_well_formed(alerts[i], m.cut_spec().num)
}

/// What taking a batch of alerts does, from `old` to `new` with the result `r`.
/// Each alert that passes the filter goes to the cut detector, which then
/// completes the implicit reports between nodes in flux, in some order of those
/// nodes; a proposal released is announced with a fast-round vote, and its
/// status changes are returned.
pub open spec fn batch_effect(
    old: Membership,
    alerts: Seq<AlertView>,
    new: Membership,
    r: Option<Vec<NodeStatusChange>>,
) -> bool {
    let cid = old.view_spec().config_spec().id_spec();
    let ring0 = old.view_spec().ring_view(0);
    let c1 = batch_cut(old.cut_spec(), ring0, alerts, cid, alerts.len()).0;
    let p1 = batch_cut(old.cut_spec(), ring0, alerts, cid, alerts.len()).1;
    &&& new.view_spec().k_spec() == old.view_spec().k_spec()
    &&& new.view_spec().seen_view() == old.view_spec().seen_view()
    &&& forall|i: int|
        #![trigger new.view_spec().ring_view(i)]
        new.view_spec().ring_view(i) == old.view_spec().ring_view(i)
    &&& new.alerts_spec() == old.alerts_spec()
    &&& new.pending_spec() == old.pending_spec()
    &&& new.host_spec() == old.host_spec()
    &&& new.joiner_data_spec() == batch_joiners(old.joiner_data_spec(), ring0, alerts, cid, alerts.len())
    &&& exists|order: Seq<Seq<char>>|
        #![trigger order.to_set()]
        {
            let c2 = if c1.seen_down_link_events {
                scan_nodes(c1, new.view_spec(), order, order.len()).0
            } else {
                c1
            };
            let p2 = if c1.seen_down_link_events {
                scan_nodes(c1, new.view_spec(), order, order.len()).1
            } else {
                Seq::<Seq<char>>::empty()
            };
            let p = p1 + p2;
            &&& c1.seen_down_link_events ==> order.no_duplicates() && order.to_set() == c1.pre_proposal
            &&& new.cut_spec() == c2
            &&& if p.len() > 0 {
                &&& new.announced_spec()
                &&& new.paxos_spec() == (FastPaxosView {
                    messages: old.paxos_spec().messages.push(fast_vote_msg(old.paxos_spec(), p)),
                    ..old.paxos_spec()
                })
                &&& r matches Some(v) && changes_view(v@) == status_changes(ring0, p)
            } else {
                &&& new.announced_spec() == old.announced_spec()
                &&& new.paxos_spec() == old.paxos_spec()
                &&& r is None
            }
        }
}

/// What an alert that passes the filter must carry: ring numbers the cut
/// detector knows and, for an up edge, the joiner's identifier and metadata.
pub open spec fn alert_well_formed(a: AlertView, num: nat) -> bool {
    &&& forall|i: int| 0 <= i < a.ring_number.len() ==> (#[trigger] a.ring_number[i]) as int <= num as i32 as int
    &&& a.edge_status == EdgeStatus::Up ==> a.node_id is Some && a.metadata is Some
}

/// The rings, the identifiers seen and the joiners' data that a decision works
/// on.
#[verifier::ext_equal]
pub struct DecideState {
    pub rings: Seq<Map<u64, Seq<char>>>,
    pub seen: Set<NodeId>,
    pub joiners: Map<Seq<char>, (NodeId, MetadataView)>,
}

/// Where applying a decided proposal leads.
pub enum DecideOutcome {
    /// Every node applied so far was applied.
    Applied(DecideState),
    /// A joiner announced an identifier already seen; the state is the one at
    /// that point.
    Failed(DecideState, ErrorKind),
    /// A node is neither a member nor an announced joiner.
    Stuck,
}

/// The part of a view and of the joiners' data that a decision works on.
pub open spec fn decide_state(v: View, joiners: Map<Seq<char>, (NodeId, MetadataView)>) -> DecideState {
    DecideState {
        rings: Seq::new(v.k_spec() as nat, |i: int| v.ring_view(i)),
        seen: v.seen_view(),
        joiners,
    }
}

/// One node of a decided proposal taken in: a member stays as it is; any other
/// node joins every ring with the identifier it announced, which is used up.
pub open spec fn decide_node(st: DecideState, node: Seq<char>) -> DecideOutcome {
    if st.rings[0].dom().contains(ring_hash(0, node)) {
        DecideOutcome::Applied(st)
    } else if st.joiners.dom().contains(node) {
        let id = st.joiners[node].0;
        let st1 = DecideState { joiners: st.joiners.remove(node), ..st };
        if st.seen.contains(id) {
            DecideOutcome::Failed(st1, ErrorKind::UuidAlreadySeen)
        } else {
            DecideOutcome::Applied(
                DecideState {
                    rings: Seq::new(st.rings.len(), |i: int| view::ring_insert(i as u64, st.rings[i], node)),
                    seen: st.seen.insert(id),
                    ..st1
                },
            )
        }
    } else {
        DecideOutcome::Stuck
    }
}

/// The members of `st` (by the first ring) that the node set `p` leaves out.
pub open spec fn leaving(st: DecideState, p: Set<Seq<char>>) -> Set<Seq<char>> {
    st.rings[0].values().filter(|m: Seq<char>| !p.contains(m))
}

/// The positions on ring `i` of the nodes `nodes`.
pub open spec fn positions(i: int, nodes: Set<Seq<char>>) -> Set<u64> {
    Set::new(|h: u64| exists|m: Seq<char>| nodes.contains(m) && h == ring_hash(i as u64, m))
}

/// `st` without the members that `p` leaves out: each leaves every ring.
pub open spec fn drop_leaving(st: DecideState, p: Set<Seq<char>>) -> DecideState {
    DecideState {
        rings: Seq::new(st.rings.len(), |i: int| st.rings[i].remove_keys(positions(i, leaving(st, p)))),
        ..st
    }
}

/// A decided proposal applied: every node of it that is not a member joins, in
/// turn; then every member that it does not name leaves. The proposal is the
/// membership decided on.
pub open spec fn decision(st: DecideState, proposal: Seq<Seq<char>>) -> DecideOutcome {
    match decide_all(st, proposal, proposal.len()) {
        DecideOutcome::Applied(s1) => DecideOutcome::Applied(drop_leaving(s1, proposal.to_set())),
        other => other,
    }
}

/// The first `n` nodes of a decided proposal applied in turn, stopping at the
/// first that fails or is stuck.
pub open spec fn decide_all(st: DecideState, proposal: Seq<Seq<char>>, n: nat) -> DecideOutcome
    decreases n,
{
    if n == 0 {
        DecideOutcome::Applied(st)
    } else {
        match decide_all(st, proposal, (n - 1) as nat) {
            DecideOutcome::Applied(s1) => decide_node(s1, proposal[n - 1]),
            other => other,
        }
    }
}

/// No two of `nodes` share a position on the first ring.
pub open spec fn positions_distinct(nodes: Set<Seq<char>>) -> bool {
    forall|x: Seq<char>, y: Seq<char>|
        nodes.contains(x) && nodes.contains(y) && #[trigger] ring_hash(0, x) == #[trigger] ring_hash(0, y) ==> x == y
}

/// Taking in the first `n` nodes of a proposal gives each of them a position on
/// the first ring, and the nodes there were there before or are among them.
proof fn lemma_decide_all_covers(st0: DecideState, pv: Seq<Seq<char>>, n: nat)
    requires
        n <= pv.len(),
        st0.rings.len() > 0,
        keys_hashed(0, st0.rings[0]),
        decide_all(st0, pv, n) is Applied,
    ensures
        ({
            let st = decide_all(st0, pv, n)->Applied_0;
            &&& st.rings.len() == st0.rings.len()
            &&& keys_hashed(0, st.rings[0])
            &&& forall|a: int| 0 <= a < n ==> st.rings[0].dom().contains(ring_hash(0, #[trigger] pv[a]))
            &&& forall|x: Seq<char>|
                #[trigger] st.rings[0].values().contains(x) ==> st0.rings[0].values().contains(x) || pv.contains(x)
        }),
    decreases n,
{
    if n > 0 {
        let prev = decide_all(st0, pv, (n - 1) as nat);
        if !(prev is Applied) {
            assert(!(decide_all(st0, pv, n) is Applied));
        }
        lemma_decide_all_covers(st0, pv, (n - 1) as nat);
        let s1 = prev->Applied_0;
        let node = pv[n - 1];
        let st = decide_all(st0, pv, n)->Applied_0;
        if !s1.rings[0].dom().contains(ring_hash(0, node)) {
            assert(st.rings[0] == s1.rings[0].insert(ring_hash(0, node), node));
            assert forall|x: Seq<char>| #[trigger] st.rings[0].values().contains(x) implies st0.rings[0].values().contains(x)
                || pv.contains(x) by {
                let h = choose|h: u64| st.rings[0].dom().contains(h) && st.rings[0][h] == x;
                if h != ring_hash(0, node) {
                    assert(s1.rings[0].values().contains(x));
                } else {
                    assert(pv[n - 1] == x);
                }
            }
            assert(st.rings[0].dom() =~= s1.rings[0].dom().insert(ring_hash(0, node)));
        }
    }
}

/// A decided proposal that is applied leaves the membership within the
/// proposal; when no two of the proposal's nodes and the members share a
/// position on the first ring, the membership is exactly the proposal.
pub proof fn lemma_decision_membership(st0: DecideState, pv: Seq<Seq<char>>)
    requires
        st0.rings.len() > 0,
        keys_hashed(0, st0.rings[0]),
        decision(st0, pv) is Applied,
    ensures
        forall|x: Seq<char>| #[trigger] decision(st0, pv)->Applied_0.rings[0].values().contains(x) ==> pv.contains(x),
        positions_distinct(st0.rings[0].values().union(pv.to_set())) ==> decision(st0, pv)->Applied_0.rings[0].values()
            == pv.to_set(),
{
    let st1 = decide_all(st0, pv, pv.len())->Applied_0;
    let pset = pv.to_set();
    lemma_decide_all_covers(st0, pv, pv.len());
    let d = decision(st0, pv)->Applied_0;
    assert(d == drop_leaving(st1, pset));
    let l = leaving(st1, pset);
    assert(d.rings[0] == st1.rings[0].remove_keys(positions(0, l)));
    assert forall|x: Seq<char>| #[trigger] d.rings[0].values().contains(x) implies pv.contains(x) by {
        let h = choose|h: u64| d.rings[0].dom().contains(h) && d.rings[0][h] == x;
        assert(st1.rings[0].values().contains(x));
        if !pset.contains(x) {
            assert(l.contains(x));
            assert(ring_hash(0, x) == h);
            assert(positions(0, l).contains(h));
        }
    }
    if positions_distinct(st0.rings[0].values().union(pset)) {
        assert forall|x: Seq<char>| pset.contains(x) implies #[trigger] d.rings[0].values().contains(x) by {
            let a = choose|a: int| 0 <= a < pv.len() && pv[a] == x;
            let h = ring_hash(0, x);
            assert(st1.rings[0].dom().contains(h));
            let v = st1.rings[0][h];
            assert(st1.rings[0].values().contains(v));
            assert(ring_hash(0, v) == h);
            assert(st0.rings[0].values().union(pset).contains(v));
            assert(st0.rings[0].values().union(pset).contains(x));
            assert(v == x);
            if positions(0, l).contains(h) {
                let m = choose|m: Seq<char>| l.contains(m) && h == ring_hash(0, m);
                let hm = choose|hm: u64| st1.rings[0].dom().contains(hm) && st1.rings[0][hm] == m;
                assert(ring_hash(0, m) == hm);
            }
            assert(d.rings[0].dom().contains(h));
        }
        assert(d.rings[0].values() =~= pset);
    }
}

/// Once applying a proposal stops, later nodes change nothing.
pub proof fn lemma_decide_stops(st: DecideState, proposal: Seq<Seq<char>>, i: nat, n: nat)
    requires
        i <= n,
        !(decide_all(st, proposal, i) is Applied),
    ensures
        decide_all(st, proposal, n) == decide_all(st, proposal, i),
    decreases n,
{
    if n > i {
        lemma_decide_stops(st, proposal, i, (n - 1) as nat);
    }
}

/// The joiners answered when the first `n` nodes of a proposal are taken in
/// turn: each that is still waiting is answered once. Returns the joiners left
/// waiting and those answered, in order.
pub open spec fn joiners_answered(pending: Set<Seq<char>>, proposal: Seq<Seq<char>>, n: nat) -> (
    Set<Seq<char>>,
    Seq<Seq<char>>,
)
    decreases n,
{
    if n == 0 {
        (pending, Seq::empty())
    } else {
        let (p1, out1) = joiners_answered(pending, proposal, (n - 1) as nat);
        let x = proposal[n - 1];
        if p1.contains(x) {
            (p1.remove(x), out1.push(x))
        } else {
            (p1, out1)
        }
    }
}

/// The joiners answered are those of the proposal that were waiting, each
/// once; they wait no more, and the others still wait.
pub proof fn lemma_joiners_answered(pending: Set<Seq<char>>, proposal: Seq<Seq<char>>, n: nat)
    requires
        n <= proposal.len(),
    ensures
        ({
            let (left, answered) = joiners_answered(pending, proposal, n);
            &&& answered.no_duplicates()
            &&& answered.to_set() == pending.intersect(proposal.take(n as int).to_set())
            &&& left == pending.difference(proposal.take(n as int).to_set())
        }),
    decreases n,
{
    if n > 0 {
        lemma_joiners_answered(pending, proposal, (n - 1) as nat);
        let (p1, out1) = joiners_answered(pending, proposal, (n - 1) as nat);
        let x = proposal[n - 1];
        let t1 = proposal.take(n - 1).to_set();
        assert(proposal.take(n as int) =~= proposal.take(n - 1).push(x));
        proposal.take(n - 1).lemma_push_to_set_commute(x);
        if p1.contains(x) {
            assert(!out1.contains(x)) by {
                if out1.contains(x) {
                    assert(out1.to_set().contains(x));
                }
            }
            assert forall|a: int, b: int| 0 <= a < b < out1.push(x).len() implies out1.push(x)[a] != out1.push(x)[b] by {
                if b == out1.len() {
                    assert(out1.contains(out1[a]));
                }
            }
            out1.lemma_push_to_set_commute(x);
            assert(out1.push(x).to_set() =~= pending.intersect(t1.insert(x)));
            assert(p1.remove(x) =~= pending.difference(t1.insert(x)));
        } else {
            assert(out1.to_set() =~= pending.intersect(t1.insert(x)));
            assert(p1 =~= pending.difference(t1.insert(x)));
        }
    } else {
        assert(proposal.take(0).to_set() =~= Set::<Seq<char>>::empty());
        assert(Seq::<Seq<char>>::empty().to_set() =~= Set::<Seq<char>>::empty());
        assert(pending.intersect(Set::empty()) =~= Set::<Seq<char>>::empty());
        assert(pending.difference(Set::empty()) =~= pending);
    }
}

/// A joiner left waiting by `handle_join` (its address in the pending set) and
/// named by the decided membership is answered by `on_decide`, once, and waits
/// no more.
pub proof fn lemma_waiting_joiner_answered(pending: Set<Seq<char>>, proposal: Seq<Seq<char>>, x: Seq<char>)
    requires
        pending.contains(x),
        proposal.contains(x),
    ensures
        joiners_answered(pending, proposal, proposal.len()).1.contains(x),
        joiners_answered(pending, proposal, proposal.len()).1.no_duplicates(),
        !joiners_answered(pending, proposal, proposal.len()).0.contains(x),
{
    lemma_joiners_answered(pending, proposal, proposal.len());
    assert(proposal.take(proposal.len() as int) =~= proposal);
    let k = choose|k: int| 0 <= k < proposal.len() && proposal[k] == x;
    assert(proposal.to_set().contains(x));
    assert(joiners_answered(pending, proposal, proposal.len()).1.to_set().contains(x));
}

/// The answer every joiner admitted by a decision receives: the configuration
/// it joined.
pub open spec fn admitted_response(host: Seq<char>, c: Configuration) -> JoinResponseView {
    JoinResponseView {
        sender: host,
        status: JoinStatus::SafeToJoin,
        config_id: c.id_spec(),
        endpoints: c.endpoints_view(),
        identifiers: c.node_ids_view(),
        cluster_metadata: Seq::empty(),
    }
}

/// The membership service of one member.
pub struct Membership {
    host_addr: Endpoint,
    view: View,
    cut_detector: MultiNodeCutDetector,
    alerts: Vec<Alert>,
    last_enqueued_alert: u64,
    joiners_to_respond: Vec<Endpoint>,
    batch_window: u64,
    paxos: FastPaxos,
    announced_proposal: bool,
    joiner_data: Vec<(Endpoint, NodeId, Metadata)>,
}

impl Membership {
    pub closed spec fn host_spec(&self) -> Seq<char> {
        self.host_addr@
    }

    pub closed spec fn view_spec(&self) -> View {
        self.view
    }

    pub closed spec fn cut_spec(&self) -> CutDetectorView {
        self.cut_detector@
    }

    pub closed spec fn paxos_spec(&self) -> FastPaxosView {
        self.paxos@
    }

    pub closed spec fn alerts_spec(&self) -> Seq<AlertView> {
        alerts_view(self.alerts@)
    }

    pub closed spec fn last_enqueued_spec(&self) -> u64 {
        self.last_enqueued_alert
    }

    pub closed spec fn batch_window_spec(&self) -> u64 {
        self.batch_window
    }

    /// The joiners waiting for a response.
    pub closed spec fn pending_spec(&self) -> Set<Seq<char>> {
        str_views(self.joiners_to_respond@).to_set()
    }

    pub closed spec fn announced_spec(&self) -> bool {
        self.announced_proposal
    }

    /// What each announced joiner brought: its identifier and its metadata.
    pub closed spec fn joiner_data_spec(&self) -> Map<Seq<char>, (NodeId, MetadataView)> {
        assoc(joiner_data_view(self.joiner_data@))
    }

    pub closed spec fn wf(&self) -> bool {
        &&& self.view.wf()
        &&& self.cut_detector.wf()
        &&& self.paxos.wf()
        &&& keys_distinct(joiner_data_view(self.joiner_data@))
        &&& str_views(self.joiners_to_respond@).no_duplicates()
    }

    /// A membership service for `host_addr` over `view`, with consensus sized and
    /// configured after the view.
    pub fn new(host_addr: Endpoint, view: View, cut_detector: MultiNodeCutDetector) -> (m: Self)
        requires
            view.wf(),
            cut_detector.wf(),
        ensures
            m.wf(),
            m.host_spec() == host_addr@,
            m.view_spec().k_spec() == view.k_spec(),
            m.view_spec().seen_view() == view.seen_view(),
            forall|i: int| #![trigger m.view_spec().ring_view(i)] m.view_spec().ring_view(i) == view.ring_view(i),
            m.cut_spec() == cut_detector@,
            m.paxos_spec().my_addr == host_addr@,
            m.paxos_spec().size == view.ring_view(0).len(),
            m.paxos_spec().config_id == view.config_spec().id_spec(),
            m.alerts_spec() == Seq::<AlertView>::empty(),
            m.pending_spec() == Set::<Seq<char>>::empty(),
            m.joiner_data_spec() == Map::<Seq<char>, (NodeId, MetadataView)>::empty(),
            !m.announced_spec(),
            m.batch_window_spec() == BATCH_WINDOW_MS,
    {
        let mut view = view;
        let size = view.get_membership_size();
        let config_id = view.get_current_config_id();
        let paxos = FastPaxos::new(host_addr.clone(), size, config_id);
        let m = Self {
            host_addr,
            view,
            cut_detector,
            paxos,
            alerts: Vec::new(),
            last_enqueued_alert: 0,
            joiners_to_respond: Vec::new(),
            batch_window: BATCH_WINDOW_MS,
            announced_proposal: false,
            joiner_data: Vec::new(),
        };
        proof {
            assert(m.alerts_spec() =~= Seq::<AlertView>::empty());
            assert(str_views(m.joiners_to_respond@) =~= Seq::empty());
            assert(m.pending_spec() =~= Set::<Seq<char>>::empty());
            assert(joiner_data_view(m.joiner_data@) =~= Seq::empty());
            assert(m.joiner_data_spec() =~= Map::empty());
        }
        m
    }

    /// The status changes announced when the service starts: one per member,
    /// each naming this host as up.
    pub fn get_inititial_view_changes(&self) -> (v: Vec<NodeStatusChange>)
        requires
            self.wf(),
        ensures
            v@.len() == self.view_spec().ring_view(0).len(),
            forall|i: int|
                0 <= i < v@.len() ==> (#[trigger] v@[i]).endpoint@ == self.host_spec() && v@[i].status
                    == EdgeStatus::Up && v@[i].metadata@.len() == 0,
    {
        let nodes = self.view();
        let mut out: Vec<NodeStatusChange> = Vec::new();
        let mut i: usize = 0;
        while i < nodes.len()
            invariant
                i <= nodes@.len(),
                out@.len() == i,
                forall|j: int|
                    0 <= j < i ==> (#[trigger] out@[j]).endpoint@ == self.host_addr@ && out@[j].status
                        == EdgeStatus::Up && out@[j].metadata@.len() == 0,
            decreases nodes@.len() - i,
        {
            out.push(
                NodeStatusChange {
                    endpoint: self.host_addr.clone(),
                    status: EdgeStatus::Up,
                    metadata: Metadata::empty(),
                },
            );
            i += 1;
        }
        out
    }

    /// The members of the current view, in the first ring's order.
    pub fn view(&self) -> (v: Vec<Endpoint>)
        requires
            self.wf(),
        ensures
            v@.len() == self.view_spec().ring_view(0).len(),
            str_views(v@).to_set() == self.view_spec().members(),
            ring_ordered(str_views(v@)),
    {
        let ring = self.view.get_ring(0);
        match ring {
            Some(r) => {
                let keys = r.keys();
                proof {
                    let m = self.view.ring_view(0);
                    assert(str_views(keys@).to_set() =~= m.values()) by {
                        assert forall|x: Seq<char>| str_views(keys@).to_set().contains(x) <==> m.values().contains(x) by {
                            if str_views(keys@).contains(x) {
                                let i = choose|i: int| 0 <= i < str_views(keys@).len() && str_views(keys@)[i] == x;
                                assert(m.contains_value(keys@[i]@));
                            }
                            if m.values().contains(x) {
                                let h = choose|h: u64| m.dom().contains(h) && m[h] == x;
                                let i = choose|i: int| 0 <= i < keys@.len() && keys@[i]@ == m[h];
                                assert(str_views(keys@)[i] == x);
                            }
                        }
                    }
                }
                keys
            },
            None => {
                proof {
                    self.view.lemma_wf();
                }
                Vec::new()
            },
        }
    }

    /// Answer a request to join sent to this node as a seed: whether the joiner
    /// may join and, if so, the observers it would have.
    pub fn handle_pre_join(&mut self, msg: PreJoinMessage) -> (r: Result<Response>)
        requires
            old(self).wf(),
            old(self).view_spec().populated(),
        ensures
            final(self).wf(),
            final(self).view_spec().k_spec() == old(self).view_spec().k_spec(),
            final(self).view_spec().seen_view() == old(self).view_spec().seen_view(),
            forall|i: int|
                #![trigger final(self).view_spec().ring_view(i)]
                final(self).view_spec().ring_view(i) == old(self).view_spec().ring_view(i),
            r matches Ok(resp) && resp.kind_view() == crate::transport::proto::ResponseKindView::Join(
                pre_join_response(old(self).view_spec(), msg.sender@, msg.node_id, old(self).view_spec().config_spec()),
            ),
    {
        let ghost v0 = self.view;
        let PreJoinMessage { sender, node_id, .. } = msg;
        let status = self.view.is_safe_to_join(&sender, &node_id);
        let config = self.view.get_config();
        let ghost c = *config;
        let config_id = config.config_id();
        let endpoints = if status == JoinStatus::SafeToJoin || status == JoinStatus::HostnameAlreadyInRing {
            self.view.get_expected_observers(&sender)
        } else {
            Vec::new()
        };
        let ghost v = self.view;
        proof {
            if status == JoinStatus::SafeToJoin || status == JoinStatus::HostnameAlreadyInRing {
                assert(view::expected_observers(v, sender@) =~= view::expected_observers(v0, sender@));
            } else {
                assert(str_views(endpoints@) =~= Seq::empty());
            }
        }
        let join_res = JoinResponse {
            sender,
            status,
            config_id,
            endpoints,
            identifiers: Vec::new(),
            cluster_metadata: Vec::new(),
        };
        proof {
            assert(join_res@.identifiers =~= Seq::empty());
            assert(join_res@.cluster_metadata =~= Seq::empty());
            assert(join_res@ == pre_join_response(v0, join_res.sender@, node_id, c));
            assert(v0.config_matches(c));
        }
        Ok(Response::new_join(join_res))
    }

    /// Take a request to join in the current configuration. Returns `None` when
    /// the joiner is to wait for the decision that admits it: the joiner is
    /// recorded and an alert that its edge from this observer is up is queued.
    /// Otherwise the configuration changed since the joiner asked the seed, and
    /// the response is returned at once.
    pub fn handle_join(&mut self, msg: JoinMessage, now: u64) -> (r: Option<JoinResponse>)
        requires
            old(self).wf(),
        ensures
            final(self).wf(),
            final(self).view_spec().k_spec() == old(self).view_spec().k_spec(),
            final(self).view_spec().seen_view() == old(self).view_spec().seen_view(),
            forall|i: int|
                #![trigger final(self).view_spec().ring_view(i)]
                final(self).view_spec().ring_view(i) == old(self).view_spec().ring_view(i),
            final(self).cut_spec() == old(self).cut_spec(),
            final(self).paxos_spec() == old(self).paxos_spec(),
            final(self).joiner_data_spec() == old(self).joiner_data_spec(),
            final(self).announced_spec() == old(self).announced_spec(),
            final(self).host_spec() == old(self).host_spec(),
            ({
                let c = old(self).view_spec().config_spec();
                if msg.config_id == c.id_spec() {
                    &&& r is None
                    &&& final(self).pending_spec() == old(self).pending_spec().insert(msg.sender@)
                    &&& final(self).alerts_spec() == old(self).alerts_spec().push(
                        AlertView {
                            src: old(self).host_spec(),
                            dst: msg.sender@,
                            edge_status: EdgeStatus::Up,
                            config_id: c.id_spec(),
                            node_id: Some(msg.node_id),
                            ring_number: msg.ring_number@,
                            metadata: None,
                        },
                    )
                    &&& final(self).last_enqueued_spec() == now
                } else {
                    &&& final(self).pending_spec() == old(self).pending_spec()
                    &&& final(self).alerts_spec() == old(self).alerts_spec()
                    &&& r matches Some(resp) && resp@ == if old(self).view_spec().host_present(msg.sender@)
                        && old(self).view_spec().seen_view().contains(msg.node_id) {
                        JoinResponseView {
                            sender: old(self).host_spec(),
                            status: JoinStatus::SafeToJoin,
                            config_id: c.id_spec(),
                            endpoints: c.endpoints_view(),
                            identifiers: c.node_ids_view(),
                            cluster_metadata: Seq::empty(),
                        }
                    } else {
                        JoinResponseView {
                            sender: old(self).host_spec(),
                            status: JoinStatus::ConfigChanged,
                            config_id: c.id_spec(),
                            endpoints: Seq::empty(),
                            identifiers: Seq::empty(),
                            cluster_metadata: Seq::empty(),
                        }
                    }
                }
            }),
    {
        let ghost v0 = self.view;
        let config = self.view.get_config();
        let current_config_id = config.config_id();
        if msg.config_id == current_config_id {
            let JoinMessage { sender, node_id, ring_number, .. } = msg;
            let ghost pend = str_views(self.joiners_to_respond@);
            if !contains_endpoint(&self.joiners_to_respond, &sender) {
                self.joiners_to_respond.push(sender.clone());
                proof {
                    let t = str_views(self.joiners_to_respond@);
                    assert(t =~= pend.push(sender@));
                    pend.lemma_push_to_set_commute(sender@);
                    assert forall|a: int, b: int| 0 <= a < b < t.len() implies t[a] != t[b] by {
                        if b == t.len() - 1 {
                            assert(pend.contains(pend[a]));
                        } else {
                            assert(t[a] == pend[a] && t[b] == pend[b]);
                        }
                    }
                }
            } else {
                assert(pend.to_set().insert(sender@) =~= pend.to_set());
            }
            let alert = Alert {
                src: self.host_addr.clone(),
                dst: sender,
                edge_status: EdgeStatus::Up,
                config_id: current_config_id,
                node_id: Some(node_id),
                ring_number,
                metadata: None,
            };
            self.enqueue_alert(alert, now);
            None
        } else {
            let admitted = self.view.is_host_present(&msg.sender) && self.view.is_node_id_present(&msg.node_id);
            let config = self.view.get_config();
            proof {
                v0.lemma_config_unique(*config);
            }
            let response = if admitted {
                JoinResponse {
                    sender: self.host_addr.clone(),
                    status: JoinStatus::SafeToJoin,
                    config_id: current_config_id,
                    endpoints: clone_endpoints(config.endpoints()),
                    identifiers: clone_ids(config.node_ids()),
                    cluster_metadata: Vec::new(),
                }
            } else {
                JoinResponse {
                    sender: self.host_addr.clone(),
                    status: JoinStatus::ConfigChanged,
                    config_id: current_config_id,
                    endpoints: Vec::new(),
                    identifiers: Vec::new(),
                    cluster_metadata: Vec::new(),
                }
            };
            proof {
                assert(response@.cluster_metadata =~= Seq::empty());
                assert(str_views(Seq::<Endpoint>::empty()) =~= Seq::empty());
                if response.status == JoinStatus::ConfigChanged {
                    assert(response@.endpoints =~= Seq::empty());
                    assert(response@.identifiers =~= Seq::empty());
                }
            }
            Some(response)
        }
    }

    /// Invoked by observers of a node for failure detection.
    pub fn handle_probe_message(&self) -> (r: Response)
        ensures
            r.kind_view() == crate::transport::proto::ResponseKindView::Probe(NodeStatus::Up),
    {
        Response::new_probe(NodeStatus::Up)
    }

    /// Queue an alert for the next batch.
    pub fn enqueue_alert(&mut self, alert: Alert, now: u64)
        requires
            old(self).wf(),
        ensures
            final(self).wf(),
            final(self).alerts_spec() == old(self).alerts_spec().push(alert@),
            final(self).last_enqueued_spec() == now,
            final(self).view_spec() == old(self).view_spec(),
            final(self).cut_spec() == old(self).cut_spec(),
            final(self).paxos_spec() == old(self).paxos_spec(),
            final(self).pending_spec() == old(self).pending_spec(),
            final(self).joiner_data_spec() == old(self).joiner_data_spec(),
            final(self).announced_spec() == old(self).announced_spec(),
            final(self).host_spec() == old(self).host_spec(),
    {
        self.last_enqueued_alert = now;
        let ghost before = alerts_view(self.alerts@);
        let ghost av = alert@;
        self.alerts.push(alert);
        assert(alerts_view(self.alerts@) =~= before.push(av));
    }

    /// The queued alerts as one batch, once the batching window has passed
    /// since the last alert was queued.
    pub fn get_batch_alerts(&mut self, now: u64) -> (r: Option<BatchedAlertMessage>)
        requires
            old(self).wf(),
        ensures
            final(self).wf(),
            final(self).view_spec() == old(self).view_spec(),
            final(self).cut_spec() == old(self).cut_spec(),
            final(self).paxos_spec() == old(self).paxos_spec(),
            (old(self).alerts_spec().len() > 0 && elapsed(now, old(self).last_enqueued_spec())
                > old(self).batch_window_spec()) ==> {
                &&& r matches Some(b) && b@.sender == old(self).host_spec() && b@.alerts
                    == old(self).alerts_spec()
                &&& final(self).alerts_spec() == Seq::<AlertView>::empty()
            },
            !(old(self).alerts_spec().len() > 0 && elapsed(now, old(self).last_enqueued_spec())
                > old(self).batch_window_spec()) ==> r is None && final(self).alerts_spec()
                == old(self).alerts_spec(),
    {
        let waited = if now > self.last_enqueued_alert {
            now - self.last_enqueued_alert
        } else {
            0
        };
        if self.alerts.len() > 0 && waited > self.batch_window {
            let mut alerts: Vec<Alert> = Vec::new();
            std::mem::swap(&mut alerts, &mut self.alerts);
            proof {
                assert(alerts_view(self.alerts@) =~= Seq::empty());
            }
            Some(BatchedAlertMessage { sender: self.host_addr.clone(), alerts })
        } else {
            None
        }
    }

    /// The status changes a proposal makes: members leave, others join.
    pub fn create_node_status_change_list(&self, proposal: &Vec<Endpoint>) -> (v: Vec<NodeStatusChange>)
        requires
            self.wf(),
        ensures
            changes_view(v@) == status_changes(self.view_spec().ring_view(0), str_views(proposal@)),
    {
        let mut out: Vec<NodeStatusChange> = Vec::new();
        let mut i: usize = 0;
        while i < proposal.len()
            invariant
                self.wf(),
                i <= proposal@.len(),
                changes_view(out@) == status_changes(self.view.ring_view(0), str_views(proposal@).take(i as int)),
            decreases proposal@.len() - i,
        {
            let node = &proposal[i];
            let status = if self.view.is_host_present(node) {
                EdgeStatus::Down
            } else {
                EdgeStatus::Up
            };
            let ghost before = out@;
            out.push(NodeStatusChange { endpoint: node.clone(), status, metadata: Metadata::empty() });
            proof {
                let p = str_views(proposal@);
                assert(p.take(i + 1) =~= p.take(i as int).push(p[i as int]));
                assert(changes_view(out@) =~= changes_view(before).push(changes_view(out@).last()));
                let r0 = self.view.ring_view(0);
                assert(status_changes(r0, p.take(i + 1)) =~= status_changes(r0, p.take(i as int)).push(
                    status_changes(r0, p.take(i + 1)).last(),
                ));
            }
            i += 1;
        }
        assert(str_views(proposal@).take(proposal@.len() as int) =~= str_views(proposal@));
        out
    }

    /// Take a batch of alerts. Each alert that passes the filter goes to the cut
    /// detector; the implicit reports between nodes in flux are then completed.
    /// When this releases a proposal, it is announced: a fast-round vote for it
    /// is queued and its status changes are returned.
    pub fn handle_batched_alert_message(&mut self, msg_batch: BatchedAlertMessage) -> (r: Option<
        Vec<NodeStatusChange>,
    >)
        requires
            old(self).wf(),
            batch_accepted(*old(self), msg_batch@.alerts),
        ensures
            final(self).wf(),
            batch_effect(*old(self), msg_batch@.alerts, *final(self), r),
    {
        let ghost v0 = self.view;
        let ghost c0 = self.cut_detector@;
        let ghost j0 = self.joiner_data_spec();
        let ghost a0 = self.alerts_spec();
        let ghost pend0 = self.pending_spec();
        let ghost paxos0 = self.paxos_spec();
        let ghost ann0 = self.announced_proposal;
        let current_config_id = self.view.get_current_config_id();
        let ghost v1 = self.view;
        let BatchedAlertMessage { alerts, .. } = msg_batch;
        let ghost av = alerts_view(alerts@);
        let mut proposal: Vec<Endpoint> = Vec::new();
        assert(str_views(proposal@) =~= Seq::empty());
        assert(av == msg_batch@.alerts);
        let mut i: usize = 0;
        while i < alerts.len()
            invariant
                self.wf(),
                self.view == v1,
                v1.k_spec() == v0.k_spec(),
                forall|k: int| #![trigger v1.ring_view(k)] v1.ring_view(k) == v0.ring_view(k),
                self.cut_detector@.num == c0.num,
                av == alerts_view(alerts@),
                current_config_id == v0.config_spec().id_spec(),
                forall|j: int|
                    0 <= j < av.len() && alert_passes(v0.ring_view(0), #[trigger] av[j], current_config_id) ==> alert_well_formed(
                        av[j],
                        c0.num,
                    ),
                i <= alerts@.len(),
                (self.cut_detector@, str_views(proposal@)) == batch_cut(c0, v0.ring_view(0), av, current_config_id, i as nat),
                self.joiner_data_spec() == batch_joiners(j0, v0.ring_view(0), av, current_config_id, i as nat),
                self.alerts_spec() == a0,
                self.pending_spec() == pend0,
                self.paxos_spec() == paxos0,
                self.announced_proposal == ann0,
                self.host_spec() == old(self).host_spec(),
            decreases alerts@.len() - i,
        {
            let message = &alerts[i];
            assert(av[i as int] == message@);
            let passes = self.filter_alert_messages(message, current_config_id);
            assert(passes == alert_passes(v0.ring_view(0), av[i as int], current_config_id));
            if passes {
                let copy = message.clone();
                assert(alert_well_formed(copy@, c0.num));
                let mut found = self.cut_detector.aggregate(copy);
                let ghost before = str_views(proposal@);
                let ghost add = str_views(found@);
                proposal.append(&mut found);
                assert(str_views(proposal@) =~= before + add);
            }
            i += 1;
        }
        let ghost c1 = self.cut_detector@;
        let ghost p1 = str_views(proposal@);
        let mut extra = self.cut_detector.invalidate_failing_edges(&mut self.view);
        let ghost c2 = self.cut_detector@;
        let ghost p2 = str_views(extra@);
        let ghost order: Seq<Seq<char>> = if c1.seen_down_link_events {
            choose|order: Seq<Seq<char>>|
                {
                    &&& order.no_duplicates()
                    &&& order.to_set() == c1.pre_proposal
                    &&& (c2, p2) == scan_nodes(c1, v1, order, order.len())
                }
        } else {
            Seq::empty()
        };
        proof {
            if !c1.seen_down_link_events {
                assert(p2 =~= Seq::empty());
            }
        }
        proposal.append(&mut extra);
        assert(str_views(proposal@) =~= p1 + p2);
        assert(alerts_view(alerts@) == msg_batch@.alerts);
        if proposal.len() > 0 {
            self.announced_proposal = true;
            let changes = self.create_node_status_change_list(&proposal);
            assert(status_changes(v1.ring_view(0), p1 + p2) =~= status_changes(v0.ring_view(0), p1 + p2));
            self.paxos.propose(proposal);
            Some(changes)
        } else {
            None
        }
    }

    /// Take a batch of alerts when `batch_accepted` holds, as
    /// `handle_batched_alert_message` does; otherwise return `None`, with the
    /// state unchanged but for the view's cached configuration.
    pub fn try_handle_batched_alert_message(&mut self, msg_batch: BatchedAlertMessage) -> (r: Option<
        Option<Vec<NodeStatusChange>>,
    >)
        requires
            old(self).wf(),
        ensures
            final(self).wf(),
            r is None <==> !batch_accepted(*old(self), msg_batch@.alerts),
            r is None ==> same_state(*old(self), *final(self)),
            r matches Some(x) ==> batch_effect(*old(self), msg_batch@.alerts, *final(self), x),
    {
        let config_id = self.current_config_id();
        let ghost mid = *self;
        let ghost av = msg_batch@.alerts;
        proof {
            assert(same_state(*old(self), mid));
            lemma_batch_accepted_kept(*old(self), mid, av);
            assert(mid.view_spec().config_spec() == old(self).view_spec().config_spec());
        }
        if !self.view.rings_populated() {
            return None;
        }
        let num = self.cut_detector.num();
        let bound: i32 = num as i32;
        let k = self.view.k();
        if (k as i64) - 1 > bound as i64 {
            return None;
        }
        let mut i: usize = 0;
        while i < msg_batch.alerts.len()
            invariant
                self.wf(),
                *self == mid,
                same_state(*old(self), mid),
                batch_accepted(*old(self), av) == batch_accepted(mid, av),
                av == alerts_view(msg_batch.alerts@),
                config_id == mid.view_spec().config_spec().id_spec(),
                bound == mid.cut_spec().num as i32,
                i <= msg_batch.alerts@.len(),
                forall|j: int|
                    0 <= j < i && alert_passes(mid.view_spec().ring_view(0), #[trigger] av[j], config_id)
                        ==> alert_well_formed(av[j], mid.cut_spec().num),
            decreases msg_batch.alerts@.len() - i,
        {
            let a = &msg_batch.alerts[i];
            assert(av[i as int] == a@);
            let passes = a.config_id == config_id && !(a.edge_status == EdgeStatus::Down
                && !self.view.is_host_present(&a.dst));
            assert(passes == alert_passes(mid.view_spec().ring_view(0), av[i as int], config_id));
            if passes && !alert_fits(a, bound) {
                assert(!alert_well_formed(av[i as int], mid.cut_spec().num));
                return None;
            }
            i += 1;
        }
        let r = self.handle_batched_alert_message(msg_batch);
        proof {
            lemma_batch_effect_kept(*old(self), mid, av, *self, r);
        }
        Some(r)
    }

    /// Whether an alert belongs to `config_id` and keeps the rule that a node
    /// enters and leaves the membership once: a down edge is only taken for a
    /// member. The identifier and metadata of a node reported up are kept for
    /// when it is admitted.
    pub fn filter_alert_messages(&mut self, message: &Alert, config_id: ConfigId) -> (b: bool)
        requires
            old(self).wf(),
            message.config_id == config_id && message.edge_status == EdgeStatus::Up ==> message.node_id
                is Some && message.metadata is Some,
        ensures
            final(self).wf(),
            b == alert_passes(old(self).view_spec().ring_view(0), message@, config_id),
            final(self).view_spec() == old(self).view_spec(),
            final(self).cut_spec() == old(self).cut_spec(),
            final(self).paxos_spec() == old(self).paxos_spec(),
            final(self).alerts_spec() == old(self).alerts_spec(),
            final(self).pending_spec() == old(self).pending_spec(),
            final(self).host_spec() == old(self).host_spec(),
            final(self).announced_spec() == old(self).announced_spec(),
            final(self).joiner_data_spec() == if b && message.edge_status == EdgeStatus::Up {
                old(self).joiner_data_spec().insert(
                    message.dst@,
                    (message@.node_id->0, message@.metadata->0),
                )
            } else {
                old(self).joiner_data_spec()
            },
    {
        if config_id != message.config_id {
            return false;
        }
        if message.edge_status == EdgeStatus::Down && !self.view.is_host_present(&message.dst) {
            return false;
        }
        if message.edge_status == EdgeStatus::Up {
            let node_id = match message.node_id {
                Some(n) => n,
                None => {
                    return true;
                },
            };
            let metadata = match &message.metadata {
                Some(m) => m.clone(),
                None => {
                    return true;
                },
            };
            self.set_joiner_data(message.dst.clone(), node_id, metadata);
        }
        true
    }

    fn set_joiner_data(&mut self, dst: Endpoint, node_id: NodeId, metadata: Metadata)
        requires
            old(self).wf(),
        ensures
            final(self).wf(),
            final(self).view_spec() == old(self).view_spec(),
            final(self).cut_spec() == old(self).cut_spec(),
            final(self).paxos_spec() == old(self).paxos_spec(),
            final(self).alerts_spec() == old(self).alerts_spec(),
            final(self).pending_spec() == old(self).pending_spec(),
            final(self).host_spec() == old(self).host_spec(),
            final(self).announced_spec() == old(self).announced_spec(),
            final(self).last_enqueued_spec() == old(self).last_enqueued_spec(),
            final(self).joiner_data_spec() == old(self).joiner_data_spec().insert(dst@, (node_id, metadata@)),
    {
        let ghost jv = joiner_data_view(self.joiner_data@);
        let ghost entry = (dst@, (node_id, metadata@));
        proof {
            lemma_assoc(jv);
        }
        if let Some(i) = find_joiner(&self.joiner_data, &dst) {
            let item = (dst, node_id, metadata);
            let ghost iv = item;
            self.joiner_data.set(i, item);
            proof {
                assert(jv[i as int].0 == dst@);
                lemma_assoc_update(jv, i as int, (node_id, iv.2@));
                assert(joiner_data_view(self.joiner_data@) =~= jv.update(i as int, (jv[i as int].0, (node_id, iv.2@))));
            }
            return;
        }
        proof {
            assert(!assoc(jv).dom().contains(dst@)) by {
                if assoc(jv).dom().contains(dst@) {
                    let j = choose|j: int| 0 <= j < jv.len() && jv[j].0 == dst@;
                    assert(self.joiner_data@[j].0@ == dst@);
                }
            }
            lemma_assoc_push(jv, dst@, (node_id, metadata@));
        }
        let ghost mv = metadata@;
        self.joiner_data.push((dst, node_id, metadata));
        assert(joiner_data_view(self.joiner_data@) =~= jv.push((entry.0, (node_id, mv))));
    }

    /// Take out the data a joiner announced, if it announced any.
    fn take_joiner(&mut self, node: &Endpoint) -> (r: Option<(NodeId, Metadata)>)
        requires
            old(self).wf(),
        ensures
            final(self).wf(),
            r is Some <==> old(self).joiner_data_spec().dom().contains(node@),
            r matches Some(e) ==> (e.0, e.1@) == old(self).joiner_data_spec()[node@],
            final(self).joiner_data_spec() == old(self).joiner_data_spec().remove(node@),
            final(self).view_spec() == old(self).view_spec(),
            final(self).cut_spec() == old(self).cut_spec(),
            final(self).paxos_spec() == old(self).paxos_spec(),
            final(self).alerts_spec() == old(self).alerts_spec(),
            final(self).pending_spec() == old(self).pending_spec(),
            final(self).host_spec() == old(self).host_spec(),
            final(self).announced_spec() == old(self).announced_spec(),
    {
        let ghost jv = joiner_data_view(self.joiner_data@);
        proof {
            lemma_assoc(jv);
        }
        match find_joiner(&self.joiner_data, node) {
            Some(i) => {
                let (_, node_id, metadata) = self.joiner_data.remove(i);
                proof {
                    assert(jv[i as int].0 == node@);
                    lemma_assoc_remove(jv, i as int);
                    assert(joiner_data_view(self.joiner_data@) =~= jv.remove(i as int));
                }
                Some((node_id, metadata))
            },
            None => {
                proof {
                    assert(!assoc(jv).dom().contains(node@)) by {
                        if assoc(jv).dom().contains(node@) {
                            let j = choose|j: int| 0 <= j < jv.len() && jv[j].0 == node@;
                            assert(self.joiner_data@[j].0@ == node@);
                        }
                    }
                    assert(assoc(jv).remove(node@) =~= assoc(jv));
                }
                None
            },
        }
    }

    /// Apply a decided proposal, the membership decided on. Each node of it
    /// that is not a member joins, in turn, with the identifier it announced;
    /// then every member that the proposal does not name leaves every ring.
    /// Then the cut detector is cleared, no proposal stands announced, and the
    /// joiners admitted are answered: the result is that answer and the joiners
    /// to send it to. A joiner whose identifier was already seen stops the
    /// decision with `UuidAlreadySeen`, the nodes before it applied.
    pub fn on_decide(&mut self, proposal: Vec<Endpoint>) -> (r: Result<(JoinResponse, Vec<Endpoint>)>)
        requires
            old(self).wf(),
            !(decision(decide_state(old(self).view_spec(), old(self).joiner_data_spec()), str_views(proposal@)) is Stuck),
            decision(decide_state(old(self).view_spec(), old(self).joiner_data_spec()), str_views(proposal@)) matches DecideOutcome::Applied(st) ==> st.rings[0].dom().contains(ring_hash(0, old(self).host_spec())),
        ensures
            final(self).wf(),
            r is Ok ==> forall|x: Seq<char>|
                #[trigger] final(self).view_spec().members().contains(x) ==> str_views(proposal@).contains(x),
            r is Ok && positions_distinct(old(self).view_spec().members().union(str_views(proposal@).to_set()))
                ==> final(self).view_spec().members() == str_views(proposal@).to_set(),
            final(self).view_spec().k_spec() == old(self).view_spec().k_spec(),
            final(self).host_spec() == old(self).host_spec(),
            final(self).paxos_spec() == old(self).paxos_spec(),
            final(self).alerts_spec() == old(self).alerts_spec(),
            match decision(decide_state(old(self).view_spec(), old(self).joiner_data_spec()), str_views(proposal@)) {
                DecideOutcome::Failed(st, kind) => {
                    &&& r matches Err(e) && e.kind_spec() == kind
                    &&& decide_state(final(self).view_spec(), final(self).joiner_data_spec()) == st
                    &&& final(self).cut_spec() == old(self).cut_spec()
                    &&& final(self).pending_spec() == old(self).pending_spec()
                    &&& final(self).announced_spec() == old(self).announced_spec()
                },
                DecideOutcome::Applied(st) => {
                    &&& decide_state(final(self).view_spec(), final(self).joiner_data_spec()) == st
                    &&& final(self).cut_spec() == cut_detector::cleared(old(self).cut_spec())
                    &&& !final(self).announced_spec()
                    &&& r matches Ok(resp) && resp.0@ == admitted_response(
                        old(self).host_spec(),
                        view::config_of_sets(st.rings[0].values(), st.seen),
                    ) && (final(self).pending_spec(), str_views(resp.1@)) == joiners_answered(
                        old(self).pending_spec(),
                        str_views(proposal@),
                        proposal@.len(),
                    )
                },
                DecideOutcome::Stuck => false,
            },
    {
        let ghost st0 = decide_state(self.view, self.joiner_data_spec());
        let ghost pv = str_views(proposal@);
        let ghost n = proposal@.len();
        let ghost k = self.view.k_spec();
        let mut i: usize = 0;
        while i < proposal.len()
            invariant
                self.wf(),
                pv == str_views(proposal@),
                n == proposal@.len(),
                i <= n,
                self.view.k_spec() == k,
                k == old(self).view_spec().k_spec(),
                st0 == decide_state(old(self).view_spec(), old(self).joiner_data_spec()),
                decide_all(st0, pv, i as nat) == DecideOutcome::Applied(
                    decide_state(self.view, self.joiner_data_spec()),
                ),
                !(decide_all(st0, pv, n) is Stuck),
                self.cut_spec() == old(self).cut_spec(),
                self.paxos_spec() == old(self).paxos_spec(),
                self.alerts_spec() == old(self).alerts_spec(),
                self.pending_spec() == old(self).pending_spec(),
                self.host_spec() == old(self).host_spec(),
                self.announced_spec() == old(self).announced_spec(),
            decreases n - i,
        {
            let node = &proposal[i];
            let ghost st = decide_state(self.view, self.joiner_data_spec());
            let ghost v1 = self.view;
            proof {
                self.view.lemma_wf();
                assert(pv[i as int] == node@);
                assert(st.rings[0] == v1.ring_view(0));
            }
            if !self.view.is_host_present(node) {
                match self.take_joiner(node) {
                    Some(data) => {
                        let ghost v2 = self.view;
                        let (node_id, _metadata) = data;
                        match self.view.ring_add(node.clone(), node_id) {
                            Ok(()) => {
                                proof {
                                    let next = decide_state(self.view, self.joiner_data_spec());
                                    assert(next.rings =~= Seq::new(
                                        st.rings.len(),
                                        |j: int| view::ring_insert(j as u64, st.rings[j], node@),
                                    ));
                                    assert(next.seen == st.seen.insert(node_id));
                                }
                            },
                            Err(e) => {
                                proof {
                                    let next = decide_state(self.view, self.joiner_data_spec());
                                    assert(next.rings =~= st.rings);
                                    assert(next =~= DecideState { joiners: st.joiners.remove(node@), ..st });
                                    assert(decide_all(st0, pv, (i + 1) as nat) == DecideOutcome::Failed(
                                        next,
                                        ErrorKind::UuidAlreadySeen,
                                    ));
                                    lemma_decide_stops(st0, pv, (i + 1) as nat, n);
                                }
                                return Err(e);
                            },
                        }
                    },
                    None => {
                        proof {
                            assert(decide_all(st0, pv, (i + 1) as nat) is Stuck);
                            lemma_decide_stops(st0, pv, (i + 1) as nat, n);
                        }
                    },
                }
            }
            i += 1;
        }
        let ghost st1 = decide_state(self.view, self.joiner_data_spec());
        let ghost pset = pv.to_set();
        proof {
            self.view.lemma_wf();
            assert(st1.rings[0] == self.view.ring_view(0));
        }
        let members = self.view();
        let ghost mv = str_views(members@);
        let mut j: usize = 0;
        while j < members.len()
            invariant
                self.wf(),
                pv == str_views(proposal@),
                pset == pv.to_set(),
                mv == str_views(members@),
                mv.to_set() == st1.rings[0].values(),
                ring_ordered(mv),
                j <= mv.len(),
                self.view.k_spec() == k,
                st1.rings.len() == k,
                k > 0,
                keys_hashed(0, st1.rings[0]),
                self.view.seen_view() == st1.seen,
                self.joiner_data_spec() == st1.joiners,
                forall|i: int|
                    #![trigger self.view.ring_view(i)]
                    0 <= i < k ==> self.view.ring_view(i) == st1.rings[i].remove_keys(
                        Set::new(|h: u64| exists|a: int| 0 <= a < j && !pset.contains(mv[a]) && h == ring_hash(i as u64, mv[a])),
                    ),
                self.cut_spec() == old(self).cut_spec(),
                self.paxos_spec() == old(self).paxos_spec(),
                self.alerts_spec() == old(self).alerts_spec(),
                self.pending_spec() == old(self).pending_spec(),
                self.host_spec() == old(self).host_spec(),
                self.announced_spec() == old(self).announced_spec(),
            decreases mv.len() - j,
        {
            let m = &members[j];
            assert(mv[j as int] == m@);
            let ghost before = self.view;
            if !contains_endpoint(&proposal, m) {
                proof {
                    assert(mv.to_set().contains(mv[j as int]));
                    let h = choose|h: u64| st1.rings[0].dom().contains(h) && st1.rings[0][h] == m@;
                    assert(ring_hash(0, m@) == h);
                    assert forall|a: int| 0 <= a < j implies ring_hash(0, mv[a]) != h by {
                        assert(ring_hash(0, mv[a]) < ring_hash(0, mv[j as int]));
                    }
                    assert(before.ring_view(0).dom().contains(h));
                }
                let _ = self.view.ring_delete(m);
            }
            proof {
                assert forall|i: int|
                    #![trigger self.view.ring_view(i)]
                    0 <= i < k implies self.view.ring_view(i) == st1.rings[i].remove_keys(
                        Set::new(|h: u64| exists|a: int| 0 <= a < j + 1 && !pset.contains(mv[a]) && h == ring_hash(i as u64, mv[a])),
                    ) by {
                    let s0 = Set::new(|h: u64| exists|a: int| 0 <= a < j && !pset.contains(mv[a]) && h == ring_hash(i as u64, mv[a]));
                    let s1 = Set::new(|h: u64| exists|a: int| 0 <= a < j + 1 && !pset.contains(mv[a]) && h == ring_hash(i as u64, mv[a]));
                    assert(before.ring_view(i) == st1.rings[i].remove_keys(s0));
                    if pset.contains(m@) {
                        assert(s1 =~= s0);
                    } else {
                        assert(s1 =~= s0.insert(ring_hash(i as u64, m@)));
                        assert(st1.rings[i].remove_keys(s1) =~= st1.rings[i].remove_keys(s0).remove(ring_hash(i as u64, m@)));
                    }
                }
            }
            j += 1;
        }
        proof {
            assert forall|i: int| 0 <= i < k implies #[trigger] positions(i, leaving(st1, pset)) =~= Set::new(
                |h: u64| exists|a: int| 0 <= a < mv.len() && !pset.contains(mv[a]) && h == ring_hash(i as u64, mv[a]),
            ) by {
                let l = leaving(st1, pset);
                assert forall|h: u64| positions(i, l).contains(h) implies exists|a: int|
                    0 <= a < mv.len() && !pset.contains(mv[a]) && h == ring_hash(i as u64, mv[a]) by {
                    let x = choose|x: Seq<char>| l.contains(x) && h == ring_hash(i as u64, x);
                    assert(mv.to_set().contains(x));
                    let a = choose|a: int| 0 <= a < mv.len() && mv[a] == x;
                }
                assert forall|h: u64| (exists|a: int|
                    0 <= a < mv.len() && !pset.contains(mv[a]) && h == ring_hash(i as u64, mv[a])) implies positions(i, l).contains(h) by {
                    let a = choose|a: int| 0 <= a < mv.len() && !pset.contains(mv[a]) && h == ring_hash(i as u64, mv[a]);
                    assert(mv.to_set().contains(mv[a]));
                    assert(l.contains(mv[a]));
                }
            }
            let d = drop_leaving(st1, pset);
            assert(decide_state(self.view, self.joiner_data_spec()).rings =~= d.rings);
            assert(decide_state(self.view, self.joiner_data_spec()) == d);
        }
        let ghost v3 = self.view;
        let ghost st3 = decide_state(self.view, self.joiner_data_spec());
        let _ = self.view.get_current_config_id();
        self.cut_detector.clear();
        self.announced_proposal = false;
        let resp = self.respond_to_joiners(&proposal);
        proof {
            v3.lemma_wf();
            assert(decide_state(self.view, self.joiner_data_spec()).rings =~= st3.rings);
            assert(st3.rings[0] == v3.ring_view(0));
            old(self).view.lemma_wf();
            assert(st0.rings[0] == old(self).view.ring_view(0));
            lemma_decision_membership(st0, pv);
            assert(self.view.ring_view(0) == st3.rings[0]);
        }
        Ok(resp)
    }

    /// Whether a decided proposal can be applied from this state: no node of
    /// it is neither a member nor an announced joiner when its turn comes, and,
    /// unless a joiner's identifier stops the decision, this member is still a
    /// member at the end, which it is when the proposal names it.
    pub fn decide_applies(&self, proposal: &Vec<Endpoint>) -> (b: bool)
        requires
            self.wf(),
        ensures
            b == (!(decision(decide_state(self.view_spec(), self.joiner_data_spec()), str_views(proposal@)) is Stuck) && (decision(decide_state(self.view_spec(), self.joiner_data_spec()), str_views(proposal@)) matches DecideOutcome::Applied(st) ==> st.rings[0].dom().contains(ring_hash(0, self.host_spec())))),
    {
        let ghost st0 = decide_state(self.view, self.joiner_data_spec());
        let ghost pv = str_views(proposal@);
        let ghost n = proposal@.len();
        let ghost r0 = self.view.ring_view(0);
        let ghost seen0 = self.view.seen_view();
        let ghost j0 = self.joiner_data_spec();
        proof {
            self.view.lemma_wf();
            assert(st0.rings[0] == r0);
        }
        let mut joined_at: Vec<u64> = Vec::new();
        let mut added: Vec<NodeId> = Vec::new();
        let mut used: Vec<Endpoint> = Vec::new();
        let mut i: usize = 0;
        while i < proposal.len()
            invariant
                self.wf(),
                pv == str_views(proposal@),
                n == proposal@.len(),
                i <= n,
                r0 == self.view.ring_view(0),
                seen0 == self.view.seen_view(),
                j0 == self.joiner_data_spec(),
                st0 == decide_state(self.view, self.joiner_data_spec()),
                decide_all(st0, pv, i as nat) is Applied,
                keys_hashed(0, r0),
                ({
                    let st = decide_all(st0, pv, i as nat)->Applied_0;
                    &&& st.rings.len() == st0.rings.len()
                    &&& st.rings.len() > 0
                    &&& keys_hashed(0, st.rings[0])
                    &&& forall|h: u64| #[trigger] st.rings[0].dom().contains(h) == (r0.dom().contains(h) || joined_at@.contains(h))
                    &&& forall|h: u64| r0.dom().contains(h) ==> #[trigger] st.rings[0][h] == r0[h]
                    &&& forall|h: u64| !r0.dom().contains(h) && #[trigger] st.rings[0].dom().contains(h) ==> pv.contains(st.rings[0][h])
                    &&& forall|id: NodeId| #[trigger] st.seen.contains(id) == (seen0.contains(id) || added@.contains(id))
                    &&& forall|x: Seq<char>| #[trigger] st.joiners.dom().contains(x) == (j0.dom().contains(x) && !str_views(used@).contains(x))
                    &&& forall|x: Seq<char>| #[trigger] st.joiners.dom().contains(x) ==> st.joiners[x] == j0[x]
                }),
                joined_at@.no_duplicates(),
            decreases n - i,
        {
            let node = &proposal[i];
            let ghost st = decide_all(st0, pv, i as nat)->Applied_0;
            proof {
                assert(pv[i as int] == node@);
            }
            let h = crate::membership::ring::SeededKey::new(node.clone(), 0).hash();
            let present = self.view.is_host_present(node) || contains_pos(&joined_at, h);
            assert(present == st.rings[0].dom().contains(ring_hash(0, node@)));
            if present {
            } else {
                let has_data = self.has_joiner_data(node) && !contains_endpoint(&used, node);
                assert(has_data == st.joiners.dom().contains(node@));
                if !has_data {
                    assert(decide_all(st0, pv, (i + 1) as nat) is Stuck);
                    proof {
                        lemma_decide_stops(st0, pv, (i + 1) as nat, n);
                    }
                    return false;
                }
                let ghost jv = joiner_data_view(self.joiner_data@);
                proof {
                    lemma_assoc(jv);
                }
                let k = match find_joiner(&self.joiner_data, node) {
                    Some(k) => k,
                    None => {
                        proof {
                            let j = choose|j: int| 0 <= j < jv.len() && jv[j].0 == node@;
                            assert(self.joiner_data@[j].0@ == node@);
                        }
                        return false;
                    },
                };
                let id = self.joiner_data[k].1;
                assert(jv[k as int].0 == node@);
                assert(id == st.joiners[node@].0);
                let seen = self.view.is_node_id_present(&id) || crate::membership::view::contains_id(&added, &id);
                if seen {
                    proof {
                        assert(decide_all(st0, pv, (i + 1) as nat) is Failed);
                        lemma_decide_stops(st0, pv, (i + 1) as nat, n);
                    }
                    return true;
                }
                toggle_pos(&mut joined_at, h);
                let ghost before_added = added@;
                added.push(id);
                let ghost before_used = str_views(used@);
                used.push(node.clone());
                proof {
                    assert(str_views(used@) =~= before_used.push(node@));
                    let next = decide_node(st, node@)->Applied_0;
                    assert forall|id2: NodeId| #[trigger] next.seen.contains(id2) == (seen0.contains(id2)
                        || added@.contains(id2)) by {
                        if added@.contains(id2) && id2 != id {
                            let q = choose|q: int| 0 <= q < added@.len() && added@[q] == id2;
                            assert(before_added[q] == id2);
                        }
                        if before_added.contains(id2) {
                            let q = choose|q: int| 0 <= q < before_added.len() && before_added[q] == id2;
                            assert(added@[q] == id2);
                        }
                        assert(added@[added@.len() - 1] == id);
                    }
                    assert forall|x: Seq<char>| #[trigger] next.joiners.dom().contains(x) == (j0.dom().contains(x)
                        && !str_views(used@).contains(x)) by {
                        if str_views(used@).contains(x) && x != node@ {
                            let q = choose|q: int| 0 <= q < str_views(used@).len() && str_views(used@)[q] == x;
                            assert(before_used[q] == x);
                        }
                        if before_used.contains(x) {
                            let q = choose|q: int| 0 <= q < before_used.len() && before_used[q] == x;
                            assert(str_views(used@)[q] == x);
                        }
                        assert(str_views(used@)[str_views(used@).len() - 1] == node@);
                    }
                    assert(forall|h2: u64| #[trigger] next.rings[0].dom().contains(h2) == (r0.dom().contains(h2)
                        || joined_at@.contains(h2)));
                    assert(next.rings[0] == st.rings[0].insert(h, node@));
                    assert forall|h2: u64| !r0.dom().contains(h2) && #[trigger] next.rings[0].dom().contains(h2) implies pv.contains(
                        next.rings[0][h2],
                    ) by {
                        if h2 == h {
                            assert(pv[i as int] == node@);
                        }
                    }
                }
            }
            i += 1;
        }
        let ghost st1 = decide_all(st0, pv, n)->Applied_0;
        let ghost pset = pv.to_set();
        let hh = crate::membership::ring::SeededKey::new(self.host_addr.clone(), 0).hash();
        proof {
            assert(st1.rings[0].dom().contains(hh) == (r0.dom().contains(hh) || joined_at@.contains(hh)));
            if r0.dom().contains(hh) {
                assert(st1.rings[0][hh] == r0[hh]);
            }
        }
        if self.view.is_host_present(&self.host_addr) {
            // The member at the host's position stays when the proposal names it.
            let members = self.view();
            let ghost mv = str_views(members@);
            let mut j: usize = 0;
            while j < members.len()
                invariant
                    self.wf(),
                    mv == str_views(members@),
                    mv.to_set() == r0.values(),
                    r0 == self.view.ring_view(0),
                    keys_hashed(0, r0),
                    r0.dom().contains(hh),
                    pv == str_views(proposal@),
                    pset == pv.to_set(),
                    st1.rings.len() > 0,
                    keys_hashed(0, st1.rings[0]),
                    st1.rings[0].dom().contains(hh),
                    st1.rings[0][hh] == r0[hh],
                    decide_all(st0, pv, n) == DecideOutcome::Applied(st1),
                    st0 == decide_state(self.view_spec(), self.joiner_data_spec()),
                    n == pv.len(),
                    hh == ring_hash(0, self.host_spec()),
                    j <= mv.len(),
                    forall|a: int| 0 <= a < j && ring_hash(0, #[trigger] mv[a]) == hh ==> pv.contains(mv[a]),
                decreases mv.len() - j,
            {
                let m = &members[j];
                assert(mv[j as int] == m@);
                let hm = crate::membership::ring::SeededKey::new(m.clone(), 0).hash();
                if hm == hh && !contains_endpoint(proposal, m) {
                    proof {
                        assert(mv.to_set().contains(m@));
                        let h = choose|h: u64| r0.dom().contains(h) && r0[h] == m@;
                        assert(h == hh);
                        assert(st1.rings[0][hh] == m@);
                        assert(leaving(st1, pset).contains(m@));
                        assert(positions(0, leaving(st1, pset)).contains(hh));
                        assert(drop_leaving(st1, pset).rings[0] == st1.rings[0].remove_keys(positions(0, leaving(st1, pset))));
                    }
                    return false;
                }
                j += 1;
            }
            proof {
                let v = r0[hh];
                assert(r0.values().contains(v));
                assert(mv.to_set().contains(v));
                let a = choose|a: int| 0 <= a < mv.len() && mv[a] == v;
                assert(pv.contains(v));
                assert(st1.rings[0][hh] == v);
                assert(!positions(0, leaving(st1, pset)).contains(hh)) by {
                    if positions(0, leaving(st1, pset)).contains(hh) {
                        let x = choose|x: Seq<char>| leaving(st1, pset).contains(x) && hh == ring_hash(0, x);
                        let h = choose|h: u64| st1.rings[0].dom().contains(h) && st1.rings[0][h] == x;
                        assert(pset.contains(v));
                    }
                }
                assert(drop_leaving(st1, pset).rings[0] == st1.rings[0].remove_keys(positions(0, leaving(st1, pset))));
            }
            true
        } else {
            let added = contains_pos(&joined_at, hh);
            proof {
                let d = drop_leaving(st1, pset).rings[0];
                assert(d == st1.rings[0].remove_keys(positions(0, leaving(st1, pset))));
                if added {
                    let v = st1.rings[0][hh];
                    assert(st1.rings[0].dom().contains(hh));
                    assert(pv.contains(v));
                    assert(!positions(0, leaving(st1, pset)).contains(hh)) by {
                        if positions(0, leaving(st1, pset)).contains(hh) {
                            let x = choose|x: Seq<char>| leaving(st1, pset).contains(x) && hh == ring_hash(0, x);
                            let h = choose|h: u64| st1.rings[0].dom().contains(h) && st1.rings[0][h] == x;
                            let q = choose|q: int| 0 <= q < pv.len() && pv[q] == v;
                            assert(pset.contains(v));
                        }
                    }
                }
            }
            added
        }
    }

    /// Apply a decided proposal when `decide_applies` holds, as `on_decide` does;
    /// otherwise change nothing and return `None`.
    pub fn try_on_decide(&mut self, proposal: Vec<Endpoint>) -> (r: Option<Result<(JoinResponse, Vec<Endpoint>)>>)
        requires
            old(self).wf(),
        ensures
            final(self).wf(),
            r is None <==> !(!(decision(decide_state(old(self).view_spec(), old(self).joiner_data_spec()), str_views(proposal@)) is Stuck) && (decision(decide_state(old(self).view_spec(), old(self).joiner_data_spec()), str_views(proposal@)) matches DecideOutcome::Applied(st) ==> st.rings[0].dom().contains(
                ring_hash(0, old(self).host_spec()),
            ))),
            r is None ==> *final(self) == *old(self),
            r matches Some(res) ==> match decision(decide_state(old(self).view_spec(), old(self).joiner_data_spec()), str_views(proposal@)) {
                DecideOutcome::Failed(st, kind) => {
                    &&& res matches Err(e) && e.kind_spec() == kind
                    &&& decide_state(final(self).view_spec(), final(self).joiner_data_spec()) == st
                    &&& final(self).cut_spec() == old(self).cut_spec()
                    &&& final(self).pending_spec() == old(self).pending_spec()
                    &&& final(self).announced_spec() == old(self).announced_spec()
                },
                DecideOutcome::Applied(st) => {
                    &&& decide_state(final(self).view_spec(), final(self).joiner_data_spec()) == st
                    &&& final(self).cut_spec() == cut_detector::cleared(old(self).cut_spec())
                    &&& !final(self).announced_spec()
                    &&& res matches Ok(resp) && resp.0@ == admitted_response(
                        old(self).host_spec(),
                        view::config_of_sets(st.rings[0].values(), st.seen),
                    ) && (final(self).pending_spec(), str_views(resp.1@)) == joiners_answered(
                        old(self).pending_spec(),
                        str_views(proposal@),
                        proposal@.len(),
                    )
                },
                DecideOutcome::Stuck => false,
            },
    {
        if !self.decide_applies(&proposal) {
            return None;
        }
        Some(self.on_decide(proposal))
    }

    /// Answer the joiners that a decision admitted: each node of the proposal
    /// that waits for an answer is answered once, with the configuration it
    /// joined. Returns that answer and the joiners to send it to.
    fn respond_to_joiners(&mut self, proposal: &Vec<Endpoint>) -> (r: (JoinResponse, Vec<Endpoint>))
        requires
            old(self).wf(),
        ensures
            final(self).wf(),
            r.0@ == admitted_response(old(self).host_spec(), old(self).view_spec().config_spec()),
            (final(self).pending_spec(), str_views(r.1@)) == joiners_answered(
                old(self).pending_spec(),
                str_views(proposal@),
                proposal@.len(),
            ),
            final(self).view_spec().k_spec() == old(self).view_spec().k_spec(),
            final(self).view_spec().seen_view() == old(self).view_spec().seen_view(),
            forall|i: int|
                #![trigger final(self).view_spec().ring_view(i)]
                final(self).view_spec().ring_view(i) == old(self).view_spec().ring_view(i),
            final(self).cut_spec() == old(self).cut_spec(),
            final(self).paxos_spec() == old(self).paxos_spec(),
            final(self).alerts_spec() == old(self).alerts_spec(),
            final(self).joiner_data_spec() == old(self).joiner_data_spec(),
            final(self).host_spec() == old(self).host_spec(),
            final(self).announced_spec() == old(self).announced_spec(),
    {
        let ghost v0 = self.view;
        let configuration = self.view.get_config();
        proof {
            v0.lemma_config_unique(*configuration);
        }
        let join_res = JoinResponse {
            sender: self.host_addr.clone(),
            status: JoinStatus::SafeToJoin,
            config_id: configuration.config_id(),
            endpoints: clone_endpoints(configuration.endpoints()),
            identifiers: clone_ids(configuration.node_ids()),
            cluster_metadata: Vec::new(),
        };
        assert(join_res@.cluster_metadata =~= Seq::empty());
        let ghost v1 = self.view;
        let ghost pv = str_views(proposal@);
        let ghost p0 = self.pending_spec();
        let mut answered: Vec<Endpoint> = Vec::new();
        assert(str_views(answered@) =~= Seq::empty());
        let mut i: usize = 0;
        while i < proposal.len()
            invariant
                self.wf(),
                self.view == v1,
                pv == str_views(proposal@),
                i <= proposal@.len(),
                (self.pending_spec(), str_views(answered@)) == joiners_answered(p0, pv, i as nat),
                self.cut_spec() == old(self).cut_spec(),
                self.paxos_spec() == old(self).paxos_spec(),
                self.alerts_spec() == old(self).alerts_spec(),
                self.joiner_data_spec() == old(self).joiner_data_spec(),
                self.host_spec() == old(self).host_spec(),
                self.announced_spec() == old(self).announced_spec(),
            decreases proposal@.len() - i,
        {
            let node = &proposal[i];
            assert(pv[i as int] == node@);
            if contains_endpoint(&self.joiners_to_respond, node) {
                remove_endpoint(&mut self.joiners_to_respond, node);
                let ghost before = str_views(answered@);
                answered.push(node.clone());
                assert(str_views(answered@) =~= before.push(node@));
            }
            i += 1;
        }
        (join_res, answered)
    }

    /// Report that the edge to `subject` failed, if the report concerns the
    /// current configuration: a down alert for every ring on which `subject` is
    /// a subject of this host.
    pub fn edge_failure_notification(&mut self, subject: Endpoint, config_id: ConfigId, now: u64)
        requires
            old(self).wf(),
            old(self).view_spec().populated(),
        ensures
            final(self).wf(),
            final(self).view_spec().k_spec() == old(self).view_spec().k_spec(),
            final(self).view_spec().seen_view() == old(self).view_spec().seen_view(),
            forall|i: int|
                #![trigger final(self).view_spec().ring_view(i)]
                final(self).view_spec().ring_view(i) == old(self).view_spec().ring_view(i),
            final(self).cut_spec() == old(self).cut_spec(),
            final(self).paxos_spec() == old(self).paxos_spec(),
            if config_id != old(self).view_spec().config_spec().id_spec() {
                    final(self).alerts_spec() == old(self).alerts_spec()
                } else {
                    &&& final(self).last_enqueued_spec() == now
                    &&& final(self).alerts_spec() == old(self).alerts_spec().push(
                        AlertView {
                            src: old(self).host_spec(),
                            dst: subject@,
                            edge_status: EdgeStatus::Down,
                            config_id,
                            node_id: None,
                            ring_number: if old(self).view_spec().host_present(old(self).host_spec()) {
                                view::matching_rings(
                                    view::subjects_of(old(self).view_spec(), old(self).host_spec()),
                                    subject@,
                                    view::subjects_of(old(self).view_spec(), old(self).host_spec()).len(),
                                )
                            } else {
                                Seq::empty()
                            },
                            metadata: None,
                        },
                    )
                },
    {
        let ghost v0 = self.view;
        let current = self.view.get_current_config_id();
        if config_id != current {
            return;
        }
        let ring_number = self.view.get_ring_numbers(&self.host_addr, &subject);
        proof {
            let v1 = self.view;
            assert(view::subjects_of(v1, self.host_addr@) =~= view::subjects_of(v0, self.host_addr@));
            if !v0.host_present(self.host_addr@) {
                assert(ring_number@ =~= Seq::empty());
            }
        }
        let alert = Alert {
            src: self.host_addr.clone(),
            dst: subject,
            edge_status: EdgeStatus::Down,
            config_id,
            node_id: None,
            ring_number,
            metadata: None,
        };
        self.enqueue_alert(alert, now);
    }

    /// Take a consensus message. Returns the messages it leads this member to
    /// send, addressed; those for every member go to each member of the view.
    pub fn handle_consensus(&mut self, msg: Consensus) -> (out: Vec<(Endpoint, Message)>)
        requires
            old(self).wf(),
            msg is FastRoundPhase2bMessage ==> old(self).paxos_spec().size >= 1,
        ensures
            final(self).wf(),
            final(self).paxos_spec() == (FastPaxosView {
                messages: Seq::empty(),
                ..step_state(old(self).paxos_spec(), msg@)
            }),
            exists|members: Seq<Seq<char>>|
                #![trigger members.to_set()]
                {
                    &&& members.to_set() == old(self).view_spec().members()
                    &&& members.len() == old(self).view_spec().ring_view(0).len()
                    &&& ring_ordered(members)
                    &&& addressed_view(out@) == address(step_state(old(self).paxos_spec(), msg@).messages, members)
                },
            final(self).view_spec() == old(self).view_spec(),
            final(self).cut_spec() == old(self).cut_spec(),
            final(self).alerts_spec() == old(self).alerts_spec(),
            final(self).pending_spec() == old(self).pending_spec(),
            final(self).joiner_data_spec() == old(self).joiner_data_spec(),
            final(self).announced_spec() == old(self).announced_spec(),
    {
        let members = self.view();
        self.paxos.step(msg, members.as_slice())
    }

    /// Hand out the consensus messages queued, such as the vote of a proposal
    /// just announced, addressed to the members of the view.
    pub fn take_consensus_messages(&mut self) -> (out: Vec<(Endpoint, Message)>)
        requires
            old(self).wf(),
        ensures
            final(self).wf(),
            final(self).paxos_spec() == (FastPaxosView { messages: Seq::empty(), ..old(self).paxos_spec() }),
            exists|members: Seq<Seq<char>>|
                #![trigger members.to_set()]
                {
                    &&& members.to_set() == old(self).view_spec().members()
                    &&& members.len() == old(self).view_spec().ring_view(0).len()
                    &&& ring_ordered(members)
                    &&& addressed_view(out@) == address(old(self).paxos_spec().messages, members)
                },
            final(self).view_spec() == old(self).view_spec(),
            final(self).cut_spec() == old(self).cut_spec(),
            final(self).alerts_spec() == old(self).alerts_spec(),
            final(self).pending_spec() == old(self).pending_spec(),
            final(self).joiner_data_spec() == old(self).joiner_data_spec(),
            final(self).announced_spec() == old(self).announced_spec(),
    {
        let members = self.view();
        self.paxos.take_messages(members.as_slice())
    }

    /// The subjects this member monitors for failures, and the configuration
    /// their failures are reported for: its predecessor on each ring.
    pub fn failure_detector_subjects(&mut self) -> (r: Result<(Vec<Endpoint>, ConfigId)>)
        requires
            old(self).wf(),
            old(self).view_spec().populated(),
        ensures
            final(self).wf(),
            final(self).view_spec().k_spec() == old(self).view_spec().k_spec(),
            final(self).view_spec().seen_view() == old(self).view_spec().seen_view(),
            forall|i: int|
                #![trigger final(self).view_spec().ring_view(i)]
                final(self).view_spec().ring_view(i) == old(self).view_spec().ring_view(i),
            final(self).host_spec() == old(self).host_spec(),
            final(self).cut_spec() == old(self).cut_spec(),
            final(self).paxos_spec() == old(self).paxos_spec(),
            final(self).alerts_spec() == old(self).alerts_spec(),
            final(self).pending_spec() == old(self).pending_spec(),
            final(self).joiner_data_spec() == old(self).joiner_data_spec(),
            final(self).announced_spec() == old(self).announced_spec(),
            r is Err <==> !old(self).view_spec().host_present(old(self).host_spec()),
            r matches Err(e) ==> e.kind_spec() == ErrorKind::NodeNotInRing,
            r matches Ok(p) ==> str_views(p.0@) == view::subjects_of(old(self).view_spec(), old(self).host_spec())
                && p.1 == old(self).view_spec().config_spec().id_spec(),
    {
        let ghost v0 = self.view;
        let subjects = match self.view.get_subjects(&self.host_addr) {
            Ok(s) => s,
            Err(e) => {
                return Err(e);
            },
        };
        proof {
            let sv = str_views(subjects@);
            assert(sv =~= view::subjects_of(v0, self.host_addr@));
        }
        let config_id = self.view.get_current_config_id();
        Ok((subjects, config_id))
    }

    /// Whether `handle_consensus` covers `msg` from this state.
    pub fn accepts_consensus(&self, msg: &Consensus) -> (b: bool)
        requires
            self.wf(),
        ensures
            b == (msg is FastRoundPhase2bMessage ==> self.paxos_spec().size >= 1),
    {
        self.paxos.accepts(msg)
    }

    /// The identifier of the current configuration.
    pub fn current_config_id(&mut self) -> (id: ConfigId)
        requires
            old(self).wf(),
        ensures
            final(self).wf(),
            id == old(self).view_spec().config_spec().id_spec(),
            final(self).view_spec().k_spec() == old(self).view_spec().k_spec(),
            final(self).view_spec().seen_view() == old(self).view_spec().seen_view(),
            forall|i: int|
                #![trigger final(self).view_spec().ring_view(i)]
                final(self).view_spec().ring_view(i) == old(self).view_spec().ring_view(i),
            final(self).host_spec() == old(self).host_spec(),
            final(self).cut_spec() == old(self).cut_spec(),
            final(self).paxos_spec() == old(self).paxos_spec(),
            final(self).alerts_spec() == old(self).alerts_spec(),
            final(self).pending_spec() == old(self).pending_spec(),
            final(self).joiner_data_spec() == old(self).joiner_data_spec(),
            final(self).announced_spec() == old(self).announced_spec(),
    {
        self.view.get_current_config_id()
    }

    /// Whether every ring has a member whenever the first ring has one: what
    /// the handlers that look up observers and subjects need.
    pub fn rings_populated(&self) -> (b: bool)
        requires
            self.wf(),
        ensures
            b == self.view_spec().populated(),
    {
        self.view.rings_populated()
    }

    /// Whether `node` is a member: it takes a position on the first ring.
    pub fn is_member(&self, node: &Endpoint) -> (b: bool)
        requires
            self.wf(),
        ensures
            b == self.view_spec().host_present(node@),
    {
        self.view.is_host_present(node)
    }

    /// Whether `node` announced the data it joins with.
    pub fn has_joiner_data(&self, node: &Endpoint) -> (b: bool)
        requires
            self.wf(),
        ensures
            b == self.joiner_data_spec().dom().contains(node@),
    {
        let ghost jv = joiner_data_view(self.joiner_data@);
        proof {
            lemma_assoc(jv);
        }
        match find_joiner(&self.joiner_data, node) {
            Some(i) => {
                assert(jv[i as int].0 == node@);
                true
            },
            None => {
                proof {
                    if assoc(jv).dom().contains(node@) {
                        let j = choose|j: int| 0 <= j < jv.len() && jv[j].0 == node@;
                        assert(self.joiner_data@[j].0@ == node@);
                    }
                }
                false
            },
        }
    }

    /// The host this member runs on.
    pub fn host(&self) -> (h: &Endpoint)
        ensures
            h@ == self.host_spec(),
    {
        &self.host_addr
    }

    /// Start a classic Paxos round, unless consensus was reached.
    pub fn start_classic_round(&mut self)
        requires
            old(self).wf(),
        ensures
            final(self).wf(),
            final(self).paxos_spec() == if old(self).paxos_spec().decided {
                old(self).paxos_spec()
            } else {
                FastPaxosView {
                    paxos: crate::consensus::paxos::start_phase_1a_spec(old(self).paxos_spec().paxos, 2),
                    ..old(self).paxos_spec()
                }
            },
            final(self).view_spec() == old(self).view_spec(),
            final(self).cut_spec() == old(self).cut_spec(),
    {
        self.paxos.start_classic_round();
    }
}

/// Whether position `h` occurs in `v`.
fn contains_pos(v: &Vec<u64>, h: u64) -> (b: bool)
    ensures
        b == v@.contains(h),
{
    let mut i: usize = 0;
    while i < v.len()
        invariant
            i <= v@.len(),
            forall|j: int| 0 <= j < i ==> v@[j] != h,
        decreases v@.len() - i,
    {
        if v[i] == h {
            return true;
        }
        i += 1;
    }
    false
}

/// Take `h` out of `v` if it occurs, else add it.
fn toggle_pos(v: &mut Vec<u64>, h: u64)
    requires
        old(v)@.no_duplicates(),
    ensures
        final(v)@.no_duplicates(),
        forall|x: u64| #[trigger] final(v)@.contains(x) == if x == h {
            !old(v)@.contains(h)
        } else {
            old(v)@.contains(x)
        },
{
    let ghost s = v@;
    let mut i: usize = 0;
    while i < v.len()
        invariant
            v@ == s,
            s == old(v)@,
            s.no_duplicates(),
            i <= s.len(),
            forall|j: int| 0 <= j < i ==> s[j] != h,
        decreases s.len() - i,
    {
        if v[i] == h {
            v.remove(i);
            proof {
                let t = v@;
                assert(t =~= s.remove(i as int));
                assert forall|a: int, b: int| 0 <= a < b < t.len() implies t[a] != t[b] by {
                    let a2 = if a < i { a } else { a + 1 };
                    let b2 = if b < i { b } else { b + 1 };
                    assert(t[a] == s[a2] && t[b] == s[b2]);
                }
                assert forall|x: u64| #[trigger] t.contains(x) == if x == h {
                    !s.contains(h)
                } else {
                    s.contains(x)
                } by {
                    if t.contains(x) {
                        let a = choose|a: int| 0 <= a < t.len() && t[a] == x;
                        let a2 = if a < i { a } else { a + 1 };
                        assert(s[a2] == x);
                        assert(a2 != i);
                    }
                    if s.contains(x) && x != h {
                        let a = choose|a: int| 0 <= a < s.len() && s[a] == x;
                        if a < i {
                            assert(t[a] == x);
                        } else {
                            assert(a != i);
                            assert(t[a - 1] == x);
                        }
                    }
                    assert(s[i as int] == h);
                }
            }
            return;
        }
        i += 1;
    }
    v.push(h);
    proof {
        let t = v@;
        assert forall|a: int, b: int| 0 <= a < b < t.len() implies t[a] != t[b] by {
            if b == s.len() {
                assert(t[a] == s[a]);
            }
        }
        assert forall|x: u64| #[trigger] t.contains(x) == if x == h {
            !s.contains(h)
        } else {
            s.contains(x)
        } by {
            if t.contains(x) && x != h {
                let a = choose|a: int| 0 <= a < t.len() && t[a] == x;
                assert(a < s.len());
                assert(s[a] == x);
            }
            if s.contains(x) {
                let a = choose|a: int| 0 <= a < s.len() && s[a] == x;
                assert(t[a] == x);
            }
            assert(t[s.len() as int] == h);
        }
    }
}

/// Whether an alert carries ring numbers up to `bound` and, for an up edge, the
/// joiner's identifier and metadata.
fn alert_fits(a: &Alert, bound: i32) -> (b: bool)
    ensures
        b == ((forall|i: int| 0 <= i < a@.ring_number.len() ==> (#[trigger] a@.ring_number[i]) as int <= bound as int)
            && (a@.edge_status == EdgeStatus::Up ==> a@.node_id is Some && a@.metadata is Some)),
{
    assert(a@.ring_number == a.ring_number@);
    if a.edge_status == EdgeStatus::Up && (a.node_id.is_none() || a.metadata.is_none()) {
        assert(a.metadata.is_none() ==> a@.metadata is None);
        return false;
    }
    assert(a.metadata.is_some() ==> a@.metadata is Some);
    let mut i: usize = 0;
    while i < a.ring_number.len()
        invariant
            a@.ring_number == a.ring_number@,
            i <= a.ring_number@.len(),
            forall|j: int| 0 <= j < i ==> (#[trigger] a.ring_number@[j]) as int <= bound as int,
        decreases a.ring_number@.len() - i,
    {
        if a.ring_number[i] > bound {
            assert(a@.ring_number[i as int] as int > bound as int);
            return false;
        }
        i += 1;
    }
    true
}

/// Whether two states agree on all that the membership's contracts speak of:
/// the rings, the identifiers seen, the cut detector, the consensus, the queued
/// alerts, the joiners and the host.
pub open spec fn same_state(a: Membership, b: Membership) -> bool {
    &&& b.view_spec().k_spec() == a.view_spec().k_spec()
    &&& b.view_spec().seen_view() == a.view_spec().seen_view()
    &&& forall|i: int| #![trigger b.view_spec().ring_view(i)] b.view_spec().ring_view(i) == a.view_spec().ring_view(i)
    &&& b.host_spec() == a.host_spec()
    &&& b.cut_spec() == a.cut_spec()
    &&& b.paxos_spec() == a.paxos_spec()
    &&& b.alerts_spec() == a.alerts_spec()
    &&& b.pending_spec() == a.pending_spec()
    &&& b.joiner_data_spec() == a.joiner_data_spec()
    &&& b.announced_spec() == a.announced_spec()
}

proof fn lemma_batch_accepted_kept(a: Membership, b: Membership, alerts: Seq<AlertView>)
    requires
        same_state(a, b),
    ensures
        batch_accepted(a, alerts) == batch_accepted(b, alerts),
{
    assert(b.view_spec().ring_view(0) == a.view_spec().ring_view(0));
    assert(b.view_spec().config_spec() == a.view_spec().config_spec());
    let va = a.view_spec();
    let vb = b.view_spec();
    assert(vb.populated() == va.populated()) by {
        if va.populated() {
            assert forall|i: int| 0 <= i < vb.k_spec() && vb.ring_view(0).len() > 0 implies #[trigger] vb.ring_view(i).len() > 0 by {
                assert(vb.ring_view(i) == va.ring_view(i));
                assert(va.ring_view(i).len() > 0);
            }
        }
        if vb.populated() {
            assert forall|i: int| 0 <= i < va.k_spec() && va.ring_view(0).len() > 0 implies #[trigger] va.ring_view(i).len() > 0 by {
                assert(vb.ring_view(i) == va.ring_view(i));
                assert(vb.ring_view(i).len() > 0);
            }
        }
    }
}

proof fn lemma_batch_effect_kept(
    a: Membership,
    b: Membership,
    alerts: Seq<AlertView>,
    new: Membership,
    r: Option<Vec<NodeStatusChange>>,
)
    requires
        same_state(a, b),
        batch_effect(b, alerts, new, r),
    ensures
        batch_effect(a, alerts, new, r),
{
    assert(b.view_spec().ring_view(0) == a.view_spec().ring_view(0));
    assert(b.view_spec().config_spec() == a.view_spec().config_spec());
}

/// Position of the data of `dst`, if it has some.
fn find_joiner(v: &Vec<(Endpoint, NodeId, Metadata)>, dst: &Endpoint) -> (r: Option<usize>)
    ensures
        r matches Some(i) ==> i < v@.len() && v@[i as int].0@ == dst@,
        r is None ==> forall|j: int| 0 <= j < v@.len() ==> (#[trigger] v@[j]).0@ != dst@,
{
    let mut i: usize = 0;
    while i < v.len()
        invariant
            i <= v@.len(),
            forall|j: int| 0 <= j < i ==> (#[trigger] v@[j]).0@ != dst@,
        decreases v@.len() - i,
    {
        if v[i].0 == *dst {
            return Some(i);
        }
        i += 1;
    }
    None
}


} // verus!
