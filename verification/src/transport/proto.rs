//! The messages of the membership protocol.
use crate::common::{ConfigId, Endpoint, NodeId, RingNumber};
use crate::order::str_views;
use vstd::prelude::*;

verus! {

/// A copy of a list of endpoints.
pub fn clone_endpoints(v: &Vec<Endpoint>) -> (r: Vec<Endpoint>)
    ensures
        r@ == v@,
{
    let mut r: Vec<Endpoint> = Vec::new();
    let mut i: usize = 0;
    while i < v.len()
        invariant
            i <= v@.len(),
            r@ == v@.take(i as int),
        decreases v@.len() - i,
    {
        r.push(v[i].clone());
        assert(v@.take(i + 1) =~= v@.take(i as int).push(v@[i as int]));
        i += 1;
    }
    assert(v@.take(v@.len() as int) =~= v@);
    r
}

/// A copy of a list of node identifiers.
pub fn clone_ids(v: &Vec<NodeId>) -> (r: Vec<NodeId>)
    ensures
        r@ == v@,
{
    let mut r: Vec<NodeId> = Vec::new();
    let mut i: usize = 0;
    while i < v.len()
        invariant
            i <= v@.len(),
            r@ == v@.take(i as int),
        decreases v@.len() - i,
    {
        r.push(v[i]);
        assert(v@.take(i + 1) =~= v@.take(i as int).push(v@[i as int]));
        i += 1;
    }
    assert(v@.take(v@.len() as int) =~= v@);
    r
}

/// A copy of a list of ring numbers.
pub fn clone_ring_numbers(v: &Vec<RingNumber>) -> (r: Vec<RingNumber>)
    ensures
        r@ == v@,
{
    let mut r: Vec<RingNumber> = Vec::new();
    let mut i: usize = 0;
    while i < v.len()
        invariant
            i <= v@.len(),
            r@ == v@.take(i as int),
        decreases v@.len() - i,
    {
        r.push(v[i]);
        assert(v@.take(i + 1) =~= v@.take(i as int).push(v@[i as int]));
        i += 1;
    }
    assert(v@.take(v@.len() as int) =~= v@);
    r
}

/// A copy of a list of bytes.
pub fn clone_bytes(v: &Vec<u8>) -> (r: Vec<u8>)
    ensures
        r@ == v@,
{
    let mut r: Vec<u8> = Vec::new();
    let mut i: usize = 0;
    while i < v.len()
        invariant
            i <= v@.len(),
            r@ == v@.take(i as int),
        decreases v@.len() - i,
    {
        r.push(v[i]);
        assert(v@.take(i + 1) =~= v@.take(i as int).push(v@[i as int]));
        i += 1;
    }
    assert(v@.take(v@.len() as int) =~= v@);
    r
}

/// The state of a node as a probe reports it.
#[derive(Debug, Clone, Copy, PartialEq, Eq, Structural)]
pub enum NodeStatus {
    Up,
    Bootstrapping,
}

/// Whether an edge between an observer and its subject is up or down.
#[derive(Debug, Clone, Copy, PartialEq, Eq, Structural)]
pub enum EdgeStatus {
    Up,
    Down,
}

/// The answer to a request to join.
#[derive(Debug, Clone, Copy, PartialEq, Eq, Structural)]
pub enum JoinStatus {
    HostnameAlreadyInRing,
    NodeIdAlreadyInRing,
    SafeToJoin,
    ConfigChanged,
    MembershipRejected,
}

/// A Paxos round: ordered by round, then by the coordinator's index.
#[derive(Debug, Copy, Clone, Hash, PartialEq, Eq, Structural, Ord, PartialOrd)]
pub struct Rank {
    pub round: u32,
    pub node_index: u32,
}

/// `a` is a strictly lower rank than `b`.
pub open spec fn rank_lt(a: Rank, b: Rank) -> bool {
    a.round < b.round || (a.round == b.round && a.node_index < b.node_index)
}

impl Rank {
    /// Whether this rank is strictly lower than `other`.
    pub fn lt_rank(&self, other: &Rank) -> (b: bool)
        ensures
            b == rank_lt(*self, *other),
    {
        self.round < other.round || (self.round == other.round && self.node_index < other.node_index)
    }

    /// Whether this rank is lower than or equal to `other`.
    pub fn le_rank(&self, other: &Rank) -> (b: bool)
        ensures
            b == (rank_lt(*self, *other) || *self == *other),
    {
        self.lt_rank(other) || (self.round == other.round && self.node_index == other.node_index)
    }
}

/// The entries of a node's metadata.
pub type MetadataView = Seq<(Seq<char>, Seq<u8>)>;

/// Key-value data a node announces about itself.
#[derive(Debug)]
pub struct Metadata {
    pub metadata: Vec<(String, Vec<u8>)>,
}

impl View for Metadata {
    type V = MetadataView;

    open spec fn view(&self) -> MetadataView {
        self.metadata@.map_values(|e: (String, Vec<u8>)| (e.0@, e.1@))
    }
}

impl Metadata {
    /// Metadata with no entries.
    pub fn empty() -> (m: Self)
        ensures
            m@ == Seq::<(Seq<char>, Seq<u8>)>::empty(),
    {
        let m = Metadata { metadata: Vec::new() };
        assert(m@ =~= Seq::<(Seq<char>, Seq<u8>)>::empty());
        m
    }
}

impl Default for Metadata {
    fn default() -> (m: Self)
        ensures
            m@ == Seq::<(Seq<char>, Seq<u8>)>::empty(),
    {
        Metadata::empty()
    }
}

impl Clone for Metadata {
    fn clone(&self) -> (r: Self)
        ensures
            r@ == self@,
    {
        let mut out: Vec<(String, Vec<u8>)> = Vec::new();
        let mut i: usize = 0;
        while i < self.metadata.len()
            invariant
                i <= self.metadata@.len(),
                out@.len() == i,
                forall|j: int| 0 <= j < i ==> (#[trigger] out@[j]).0@ == self.metadata@[j].0@ && out@[j].1@ == self.metadata@[j].1@,
            decreases self.metadata@.len() - i,
        {
            let entry = (self.metadata[i].0.clone(), clone_bytes(&self.metadata[i].1));
            out.push(entry);
            i += 1;
        }
        let r = Metadata { metadata: out };
        assert(r@ =~= self@);
        r
    }
}

/// The view of optional metadata.
pub open spec fn opt_metadata_view(m: Option<Metadata>) -> Option<MetadataView> {
    match m {
        Some(x) => Some(x@),
        None => None,
    }
}

/// A request to join, sent to a seed.
#[derive(Debug)]
pub struct PreJoinMessage {
    pub sender: Endpoint,
    pub node_id: NodeId,
    pub ring_number: RingNumber,
    pub config_id: ConfigId,
}

impl Clone for PreJoinMessage {
    fn clone(&self) -> (r: Self)
        ensures
            r == *self,
    {
        PreJoinMessage {
            sender: self.sender.clone(),
            node_id: self.node_id,
            ring_number: self.ring_number,
            config_id: self.config_id,
        }
    }
}

pub struct JoinMessageView {
    pub sender: Seq<char>,
    pub node_id: NodeId,
    pub ring_number: Seq<RingNumber>,
    pub config_id: ConfigId,
}

/// A request to join, sent to the expected observers.
#[derive(Debug)]
pub struct JoinMessage {
    pub sender: Endpoint,
    pub node_id: NodeId,
    pub ring_number: Vec<RingNumber>,
    pub config_id: ConfigId,
}

impl View for JoinMessage {
    type V = JoinMessageView;

    open spec fn view(&self) -> JoinMessageView {
        JoinMessageView {
            sender: self.sender@,
            node_id: self.node_id,
            ring_number: self.ring_number@,
            config_id: self.config_id,
        }
    }
}

impl Clone for JoinMessage {
    fn clone(&self) -> (r: Self)
        ensures
            r@ == self@,
    {
        JoinMessage {
            sender: self.sender.clone(),
            node_id: self.node_id,
            ring_number: clone_ring_numbers(&self.ring_number),
            config_id: self.config_id,
        }
    }
}

/// The view of a cluster's metadata.
pub open spec fn cluster_metadata_view(v: Seq<(String, Metadata)>) -> Seq<(Seq<char>, MetadataView)> {
    v.map_values(|e: (String, Metadata)| (e.0@, e.1@))
}

pub struct JoinResponseView {
    pub sender: Seq<char>,
    pub status: JoinStatus,
    pub config_id: ConfigId,
    pub endpoints: Seq<Seq<char>>,
    pub identifiers: Seq<NodeId>,
    pub cluster_metadata: Seq<(Seq<char>, MetadataView)>,
}

/// The answer to a join request: the status, and when the joiner may proceed,
/// the configuration it joins.
#[derive(Debug)]
pub struct JoinResponse {
    pub sender: Endpoint,
    pub status: JoinStatus,
    pub config_id: ConfigId,
    pub endpoints: Vec<Endpoint>,
    pub identifiers: Vec<NodeId>,
    pub cluster_metadata: Vec<(String, Metadata)>,
}

impl View for JoinResponse {
    type V = JoinResponseView;

    open spec fn view(&self) -> JoinResponseView {
        JoinResponseView {
            sender: self.sender@,
            status: self.status,
            config_id: self.config_id,
            endpoints: str_views(self.endpoints@),
            identifiers: self.identifiers@,
            cluster_metadata: cluster_metadata_view(self.cluster_metadata@),
        }
    }
}

/// A copy of a cluster's metadata.
pub fn clone_cluster_metadata(v: &Vec<(String, Metadata)>) -> (r: Vec<(String, Metadata)>)
    ensures
        cluster_metadata_view(r@) == cluster_metadata_view(v@),
{
    let mut r: Vec<(String, Metadata)> = Vec::new();
    let mut i: usize = 0;
    while i < v.len()
        invariant
            i <= v@.len(),
            r@.len() == i,
            forall|j: int| 0 <= j < i ==> (#[trigger] r@[j]).0@ == v@[j].0@ && r@[j].1@ == v@[j].1@,
        decreases v@.len() - i,
    {
        r.push((v[i].0.clone(), v[i].1.clone()));
        i += 1;
    }
    assert(cluster_metadata_view(r@) =~= cluster_metadata_view(v@));
    r
}

impl Clone for JoinResponse {
    fn clone(&self) -> (r: Self)
        ensures
            r@ == self@,
    {
        JoinResponse {
            sender: self.sender.clone(),
            status: self.status,
            config_id: self.config_id,
            endpoints: clone_endpoints(&self.endpoints),
            identifiers: clone_ids(&self.identifiers),
            cluster_metadata: clone_cluster_metadata(&self.cluster_metadata),
        }
    }
}

pub struct AlertView {
    pub src: Seq<char>,
    pub dst: Seq<char>,
    pub edge_status: EdgeStatus,
    pub config_id: ConfigId,
    pub node_id: Option<NodeId>,
    pub ring_number: Seq<RingNumber>,
    pub metadata: Option<MetadataView>,
}

/// A report from `src`, the observer, that its edge to `dst` is up or down on
/// the rings listed.
#[derive(Debug)]
pub struct Alert {
    pub src: Endpoint,
    pub dst: Endpoint,
    pub edge_status: EdgeStatus,
    pub config_id: ConfigId,
    pub node_id: Option<NodeId>,
    pub ring_number: Vec<RingNumber>,
    pub metadata: Option<Metadata>,
}

impl View for Alert {
    type V = AlertView;

    open spec fn view(&self) -> AlertView {
        AlertView {
            src: self.src@,
            dst: self.dst@,
            edge_status: self.edge_status,
            config_id: self.config_id,
            node_id: self.node_id,
            ring_number: self.ring_number@,
            metadata: opt_metadata_view(self.metadata),
        }
    }
}

impl Alert {
    /// An alert about one ring, without a node identifier or metadata.
    pub fn new(
        src: Endpoint,
        dst: Endpoint,
        edge_status: EdgeStatus,
        config_id: ConfigId,
        ring_number: RingNumber,
    ) -> (a: Self)
        ensures
            a@ == (AlertView {
                src: src@,
                dst: dst@,
                edge_status,
                config_id,
                node_id: None,
                ring_number: seq![ring_number],
                metadata: None,
            }),
    {
        let mut rings: Vec<RingNumber> = Vec::new();
        rings.push(ring_number);
        let a = Alert { src, dst, edge_status, config_id, node_id: None, ring_number: rings, metadata: None };
        assert(a@.ring_number =~= seq![ring_number]);
        a
    }
}

impl Clone for Alert {
    fn clone(&self) -> (r: Self)
        ensures
            r@ == self@,
    {
        let metadata = match &self.metadata {
            Some(m) => Some(m.clone()),
            None => None,
        };
        Alert {
            src: self.src.clone(),
            dst: self.dst.clone(),
            edge_status: self.edge_status,
            config_id: self.config_id,
            node_id: self.node_id,
            ring_number: clone_ring_numbers(&self.ring_number),
            metadata,
        }
    }
}

/// The views of a list of alerts.
pub open spec fn alerts_view(v: Seq<Alert>) -> Seq<AlertView> {
    v.map_values(|a: Alert| a@)
}

pub struct BatchedAlertView {
    pub sender: Seq<char>,
    pub alerts: Seq<AlertView>,
}

/// A batch of alerts from one sender.
#[derive(Debug)]
pub struct BatchedAlertMessage {
    pub sender: Endpoint,
    pub alerts: Vec<Alert>,
}

impl View for BatchedAlertMessage {
    type V = BatchedAlertView;

    open spec fn view(&self) -> BatchedAlertView {
        BatchedAlertView { sender: self.sender@, alerts: alerts_view(self.alerts@) }
    }
}

impl Clone for BatchedAlertMessage {
    fn clone(&self) -> (r: Self)
        ensures
            r@ == self@,
    {
        let mut alerts: Vec<Alert> = Vec::new();
        let mut i: usize = 0;
        while i < self.alerts.len()
            invariant
                i <= self.alerts@.len(),
                alerts@.len() == i,
                forall|j: int| 0 <= j < i ==> (#[trigger] alerts@[j])@ == self.alerts@[j]@,
            decreases self.alerts@.len() - i,
        {
            alerts.push(self.alerts[i].clone());
            i += 1;
        }
        let r = BatchedAlertMessage { sender: self.sender.clone(), alerts };
        assert(alerts_view(r.alerts@) =~= alerts_view(self.alerts@));
        r
    }
}

pub struct FastRoundPhase2bView {
    pub sender: Seq<char>,
    pub config_id: ConfigId,
    pub endpoints: Seq<Seq<char>>,
}

/// A vote in the fast round for a proposed membership change.
#[derive(Debug)]
pub struct FastRoundPhase2bMessage {
    pub sender: Endpoint,
    pub config_id: ConfigId,
    pub endpoints: Vec<Endpoint>,
}

impl View for FastRoundPhase2bMessage {
    type V = FastRoundPhase2bView;

    open spec fn view(&self) -> FastRoundPhase2bView {
        FastRoundPhase2bView {
            sender: self.sender@,
            config_id: self.config_id,
            endpoints: str_views(self.endpoints@),
        }
    }
}

impl Clone for FastRoundPhase2bMessage {
    fn clone(&self) -> (r: Self)
        ensures
            r@ == self@,
    {
        FastRoundPhase2bMessage {
            sender: self.sender.clone(),
            config_id: self.config_id,
            endpoints: clone_endpoints(&self.endpoints),
        }
    }
}

pub struct Phase1aView {
    pub sender: Seq<char>,
    pub config_id: ConfigId,
    pub rank: Rank,
}

/// A coordinator's request to start a classic round.
#[derive(Debug)]
pub struct Phase1aMessage {
    pub sender: Endpoint,
    pub config_id: ConfigId,
    pub rank: Rank,
}

impl View for Phase1aMessage {
    type V = Phase1aView;

    open spec fn view(&self) -> Phase1aView {
        Phase1aView { sender: self.sender@, config_id: self.config_id, rank: self.rank }
    }
}

impl Clone for Phase1aMessage {
    fn clone(&self) -> (r: Self)
        ensures
            r@ == self@,
    {
        Phase1aMessage { sender: self.sender.clone(), config_id: self.config_id, rank: self.rank }
    }
}

pub struct Phase1bView {
    pub sender: Seq<char>,
    pub config_id: ConfigId,
    pub rnd: Rank,
    pub vrnd: Rank,
    pub vval: Seq<Seq<char>>,
}

/// An acceptor's promise, with the value it last voted for.
#[derive(Debug)]
pub struct Phase1bMessage {
    pub sender: Endpoint,
    pub config_id: ConfigId,
    pub rnd: Rank,
    pub vrnd: Rank,
    pub vval: Vec<Endpoint>,
}

impl View for Phase1bMessage {
    type V = Phase1bView;

    open spec fn view(&self) -> Phase1bView {
        Phase1bView {
            sender: self.sender@,
            config_id: self.config_id,
            rnd: self.rnd,
            vrnd: self.vrnd,
            vval: str_views(self.vval@),
        }
    }
}

impl Clone for Phase1bMessage {
    fn clone(&self) -> (r: Self)
        ensures
            r@ == self@,
    {
        Phase1bMessage {
            sender: self.sender.clone(),
            config_id: self.config_id,
            rnd: self.rnd,
            vrnd: self.vrnd,
            vval: clone_endpoints(&self.vval),
        }
    }
}

pub struct Phase2aView {
    pub sender: Seq<char>,
    pub config_id: ConfigId,
    pub rnd: Rank,
    pub vval: Seq<Seq<char>>,
}

/// A coordinator's request to accept a value.
#[derive(Debug)]
pub struct Phase2aMessage {
    pub sender: Endpoint,
    pub config_id: ConfigId,
    pub rnd: Rank,
    pub vval: Vec<Endpoint>,
}

impl View for Phase2aMessage {
    type V = Phase2aView;

    open spec fn view(&self) -> Phase2aView {
        Phase2aView {
            sender: self.sender@,
            config_id: self.config_id,
            rnd: self.rnd,
            vval: str_views(self.vval@),
        }
    }
}

impl Clone for Phase2aMessage {
    fn clone(&self) -> (r: Self)
        ensures
            r@ == self@,
    {
        Phase2aMessage {
            sender: self.sender.clone(),
            config_id: self.config_id,
            rnd: self.rnd,
            vval: clone_endpoints(&self.vval),
        }
    }
}

pub struct Phase2bView {
    pub sender: Seq<char>,
    pub config_id: ConfigId,
    pub rnd: Rank,
    pub endpoints: Seq<Seq<char>>,
}

/// An acceptor's vote for a value in a classic round.
#[derive(Debug)]
pub struct Phase2bMessage {
    pub sender: Endpoint,
    pub config_id: ConfigId,
    pub rnd: Rank,
    pub endpoints: Vec<Endpoint>,
}

impl View for Phase2bMessage {
    type V = Phase2bView;

    open spec fn view(&self) -> Phase2bView {
        Phase2bView {
            sender: self.sender@,
            config_id: self.config_id,
            rnd: self.rnd,
            endpoints: str_views(self.endpoints@),
        }
    }
}

impl Clone for Phase2bMessage {
    fn clone(&self) -> (r: Self)
        ensures
            r@ == self@,
    {
        Phase2bMessage {
            sender: self.sender.clone(),
            config_id: self.config_id,
            rnd: self.rnd,
            endpoints: clone_endpoints(&self.endpoints),
        }
    }
}

pub enum ConsensusView {
    FastRoundPhase2bMessage(FastRoundPhase2bView),
    Phase1aMessage(Phase1aView),
    Phase1bMessage(Phase1bView),
    Phase2aMessage(Phase2aView),
    Phase2bMessage(Phase2bView),
}

/// The messages of the consensus protocol.
#[derive(Debug)]
pub enum Consensus {
    FastRoundPhase2bMessage(FastRoundPhase2bMessage),
    Phase1aMessage(Phase1aMessage),
    Phase1bMessage(Phase1bMessage),
    Phase2aMessage(Phase2aMessage),
    Phase2bMessage(Phase2bMessage),
}

impl View for Consensus {
    type V = ConsensusView;

    open spec fn view(&self) -> ConsensusView {
        match self {
            Consensus::FastRoundPhase2bMessage(m) => ConsensusView::FastRoundPhase2bMessage(m@),
            Consensus::Phase1aMessage(m) => ConsensusView::Phase1aMessage(m@),
            Consensus::Phase1bMessage(m) => ConsensusView::Phase1bMessage(m@),
            Consensus::Phase2aMessage(m) => ConsensusView::Phase2aMessage(m@),
            Consensus::Phase2bMessage(m) => ConsensusView::Phase2bMessage(m@),
        }
    }
}

impl Clone for Consensus {
    fn clone(&self) -> (r: Self)
        ensures
            r@ == self@,
    {
        match self {
            Consensus::FastRoundPhase2bMessage(m) => Consensus::FastRoundPhase2bMessage(m.clone()),
            Consensus::Phase1aMessage(m) => Consensus::Phase1aMessage(m.clone()),
            Consensus::Phase1bMessage(m) => Consensus::Phase1bMessage(m.clone()),
            Consensus::Phase2aMessage(m) => Consensus::Phase2aMessage(m.clone()),
            Consensus::Phase2bMessage(m) => Consensus::Phase2bMessage(m.clone()),
        }
    }
}

pub enum RequestKindView {
    PreJoin(PreJoinMessage),
    Join(JoinMessageView),
    BatchedAlert(BatchedAlertView),
    Probe,
    Consensus(ConsensusView),
}

/// What a request asks of its target.
#[derive(Debug)]
pub enum RequestKind {
    PreJoin(PreJoinMessage),
    Join(JoinMessage),
    BatchedAlert(BatchedAlertMessage),
    Probe,
    Consensus(Consensus),
}

impl View for RequestKind {
    type V = RequestKindView;

    open spec fn view(&self) -> RequestKindView {
        match self {
            RequestKind::PreJoin(m) => RequestKindView::PreJoin(*m),
            RequestKind::Join(m) => RequestKindView::Join(m@),
            RequestKind::BatchedAlert(m) => RequestKindView::BatchedAlert(m@),
            RequestKind::Probe => RequestKindView::Probe,
            RequestKind::Consensus(m) => RequestKindView::Consensus(m@),
        }
    }
}

impl Clone for RequestKind {
    fn clone(&self) -> (r: Self)
        ensures
            r@ == self@,
    {
        match self {
            RequestKind::PreJoin(m) => RequestKind::PreJoin(m.clone()),
            RequestKind::Join(m) => RequestKind::Join(m.clone()),
            RequestKind::BatchedAlert(m) => RequestKind::BatchedAlert(m.clone()),
            RequestKind::Probe => RequestKind::Probe,
            RequestKind::Consensus(m) => RequestKind::Consensus(m.clone()),
        }
    }
}

pub enum ResponseKindView {
    Join(JoinResponseView),
    Response,
    Probe(NodeStatus),
    Consensus,
}

/// What a response answers.
#[derive(Debug)]
pub enum ResponseKind {
    Join(JoinResponse),
    Response,
    Probe(NodeStatus),
    Consensus,
}

impl View for ResponseKind {
    type V = ResponseKindView;

    open spec fn view(&self) -> ResponseKindView {
        match self {
            ResponseKind::Join(m) => ResponseKindView::Join(m@),
            ResponseKind::Response => ResponseKindView::Response,
            ResponseKind::Probe(s) => ResponseKindView::Probe(*s),
            ResponseKind::Consensus => ResponseKindView::Consensus,
        }
    }
}

impl Clone for ResponseKind {
    fn clone(&self) -> (r: Self)
        ensures
            r@ == self@,
    {
        match self {
            ResponseKind::Join(m) => ResponseKind::Join(m.clone()),
            ResponseKind::Response => ResponseKind::Response,
            ResponseKind::Probe(s) => ResponseKind::Probe(*s),
            ResponseKind::Consensus => ResponseKind::Consensus,
        }
    }
}

} // verus!
