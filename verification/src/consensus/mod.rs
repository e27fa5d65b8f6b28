//! Fast Paxos, with classic Paxos as its fallback.
//!
//! The fast round counts votes and only reports a fast quorum to the caller of
//! `handle_fast_round`, which sets nothing. The classic round records Phase 2b
//! votes and decides once a majority voted in a round (see `paxos`), but
//! `step` does not hand that value on. A decision reaches the membership from
//! outside, through `Membership::on_decide`.
pub mod paxos;

use crate::assoc::{assoc, keys_distinct, lemma_assoc, lemma_assoc_push, lemma_assoc_update};
use crate::common::{ConfigId, Endpoint};
use crate::order::str_views;
use crate::transport::proto::{
    clone_endpoints, Consensus, ConsensusView, FastRoundPhase2bMessage, FastRoundPhase2bView,
    RequestKind,
};
use crate::transport::{Message, MessageView};
use paxos::{
    consensus_msg, handle_phase_1a_spec, handle_phase_1b_spec, handle_phase_2a_spec,
    handle_phase_2b_spec, opt_endpoint_view, outbox_view, start_phase_1a_spec, zero_rank, Paxos,
    PaxosView,
};
use std::collections::VecDeque;
use vstd::prelude::*;

verus! {

/// The number of matching votes the fast round needs among `size` members:
/// all but a quarter of the others.
pub open spec fn fast_quorum(size: nat) -> nat {
    (size - (size - 1) / 4) as nat
}

/// The abstract state of a Fast Paxos instance.
pub struct FastPaxosView {
    pub my_addr: Seq<char>,
    pub size: nat,
    pub decided: bool,
    pub paxos: PaxosView,
    pub config_id: ConfigId,
    pub votes_received: Set<Seq<char>>,
    /// For each proposal voted for, one less than the votes it received.
    pub votes_per_proposal: Map<Seq<Seq<char>>, nat>,
    pub messages: Seq<(Option<Seq<char>>, MessageView)>,
}

/// A fast-round vote from `s` as a message to every member.
pub open spec fn fast_vote_msg(s: FastPaxosView, proposal: Seq<Seq<char>>) -> (Option<Seq<char>>, MessageView) {
    (
        None,
        consensus_msg(
            ConsensusView::FastRoundPhase2bMessage(
                FastRoundPhase2bView { sender: s.my_addr, config_id: s.config_id, endpoints: proposal },
            ),
        ),
    )
}

/// Receiving a fast-round vote: counted once per sender, while undecided, for the
/// current configuration.
pub open spec fn handle_fast_round_spec(s: FastPaxosView, req: FastRoundPhase2bView) -> FastPaxosView {
    if req.config_id != s.config_id || s.votes_received.contains(req.sender) || s.decided {
        s
    } else {
        let count: nat = if s.votes_per_proposal.dom().contains(req.endpoints) {
            s.votes_per_proposal[req.endpoints] + 1
        } else {
            0
        };
        FastPaxosView {
            votes_received: s.votes_received.insert(req.sender),
            votes_per_proposal: s.votes_per_proposal.insert(req.endpoints, count),
            ..s
        }
    }
}

/// The state after a consensus message is taken, before the outgoing messages
/// are handed out.
pub open spec fn step_state(s: FastPaxosView, msg: ConsensusView) -> FastPaxosView {
    match msg {
        ConsensusView::FastRoundPhase2bMessage(m) => handle_fast_round_spec(s, m),
        ConsensusView::Phase1aMessage(m) => FastPaxosView { paxos: handle_phase_1a_spec(s.paxos, m), ..s },
        ConsensusView::Phase1bMessage(m) => FastPaxosView { paxos: handle_phase_1b_spec(s.paxos, m), ..s },
        ConsensusView::Phase2aMessage(m) => FastPaxosView { paxos: handle_phase_2a_spec(s.paxos, m), ..s },
        ConsensusView::Phase2bMessage(m) => FastPaxosView { paxos: handle_phase_2b_spec(s.paxos, m).0, ..s },
    }
}

/// Each queued message addressed: to its destination, or to every member of
/// `view` in turn.
pub open spec fn address(msgs: Seq<(Option<Seq<char>>, MessageView)>, view: Seq<Seq<char>>) -> Seq<
    (Seq<char>, MessageView),
>
    decreases msgs.len(),
{
    if msgs.len() == 0 {
        Seq::empty()
    } else {
        let m = msgs.last();
        address(msgs.drop_last(), view) + match m.0 {
            Some(to) => seq![(to, m.1)],
            None => view.map_values(|to: Seq<char>| (to, m.1)),
        }
    }
}

/// The view of a list of addressed messages.
pub open spec fn addressed_view(v: Seq<(Endpoint, Message)>) -> Seq<(Seq<char>, MessageView)> {
    v.map_values(|e: (Endpoint, Message)| (e.0@, e.1@))
}

/// Whether two lists of endpoints are equal.
fn endpoints_eq(a: &Vec<Endpoint>, b: &Vec<Endpoint>) -> (r: bool)
    ensures
        r == (str_views(a@) == str_views(b@)),
{
    if a.len() != b.len() {
        return false;
    }
    let mut i: usize = 0;
    while i < a.len()
        invariant
            a@.len() == b@.len(),
            i <= a@.len(),
            forall|j: int| 0 <= j < i ==> (#[trigger] a@[j])@ == b@[j]@,
        decreases a@.len() - i,
    {
        if a[i] != b[i] {
            assert(str_views(a@)[i as int] != str_views(b@)[i as int]);
            return false;
        }
        i += 1;
    }
    assert(str_views(a@) =~= str_views(b@));
    true
}

/// Position of the counts for `proposal`, if it received votes.
fn find_proposal(v: &Vec<(Vec<Endpoint>, usize)>, proposal: &Vec<Endpoint>) -> (r: Option<usize>)
    ensures
        r matches Some(i) ==> i < v@.len() && str_views(v@[i as int].0@) == str_views(proposal@),
        r is None ==> forall|j: int| 0 <= j < v@.len() ==> str_views((#[trigger] v@[j]).0@) != str_views(proposal@),
{
    let mut k: usize = 0;
    while k < v.len()
        invariant
            k <= v@.len(),
            forall|j: int| 0 <= j < k ==> str_views((#[trigger] v@[j]).0@) != str_views(proposal@),
        decreases v@.len() - k,
    {
        if endpoints_eq(&v[k].0, proposal) {
            return Some(k);
        }
        k += 1;
    }
    None
}

/// The counts per proposal.
pub open spec fn counts_view(v: Seq<(Vec<Endpoint>, usize)>) -> Seq<(Seq<Seq<char>>, nat)> {
    v.map_values(|e: (Vec<Endpoint>, usize)| (str_views(e.0@), e.1 as nat))
}

/// Represents an instance of the Fast Paxos consensus protocol.
///
/// This protocol has a fast path as compared to paxos: when a large enough set
/// agrees on the same membership set, each node individually accepts the value
/// without the involvement of a leader/coordinator.
///
/// If a quorum is not formed, it falls back to an instance of regular Paxos,
/// which is scheduled to be run after a random interval of time, so that
/// several nodes do not start their own instances as coordinators at once.
#[derive(Debug)]
pub struct FastPaxos {
    my_addr: Endpoint,
    size: usize,
    decided: bool,
    paxos: Paxos,
    config_id: ConfigId,
    votes_received: Vec<Endpoint>,
    votes_per_proposal: Vec<(Vec<Endpoint>, usize)>,
    messages: VecDeque<(Option<Endpoint>, Message)>,
}

impl View for FastPaxos {
    type V = FastPaxosView;

    closed spec fn view(&self) -> FastPaxosView {
        FastPaxosView {
            my_addr: self.my_addr@,
            size: self.size as nat,
            decided: self.decided,
            paxos: self.paxos@,
            config_id: self.config_id,
            votes_received: str_views(self.votes_received@).to_set(),
            votes_per_proposal: assoc(counts_view(self.votes_per_proposal@)),
            messages: outbox_view(self.messages@),
        }
    }
}

impl FastPaxos {
    pub closed spec fn wf(&self) -> bool {
        &&& self.paxos.wf()
        &&& keys_distinct(counts_view(self.votes_per_proposal@))
        &&& str_views(self.votes_received@).no_duplicates()
        &&& forall|i: int|
            0 <= i < self.votes_per_proposal@.len() ==> (#[trigger] self.votes_per_proposal@[i]).1
                < self.votes_received@.len()
    }

    pub fn new(my_addr: Endpoint, size: usize, config_id: ConfigId) -> (f: FastPaxos)
        ensures
            f.wf(),
            f@.my_addr == my_addr@,
            f@.size == size,
            f@.config_id == config_id,
            !f@.decided,
            f@.votes_received == Set::<Seq<char>>::empty(),
            f@.votes_per_proposal == Map::<Seq<Seq<char>>, nat>::empty(),
            f@.messages == Seq::<(Option<Seq<char>>, MessageView)>::empty(),
            f@.paxos == (PaxosView {
                size: size as nat,
                my_addr: my_addr@,
                rnd: zero_rank(),
                vrnd: zero_rank(),
                vval: Seq::empty(),
                crnd: zero_rank(),
                cval: Seq::empty(),
                config_id,
                phase_1b_messages: Seq::empty(),
                phase_2a_messages: Seq::empty(),
                accept_responses: Map::empty(),
                decided: false,
                messages: Seq::empty(),
            }),
    {
        let f = FastPaxos {
            config_id,
            size,
            my_addr: my_addr.clone(),
            decided: false,
            paxos: Paxos::new(size, my_addr, config_id),
            votes_received: Vec::new(),
            votes_per_proposal: Vec::new(),
            messages: VecDeque::new(),
        };
        proof {
            assert(str_views(f.votes_received@) =~= Seq::empty());
            assert(f@.votes_received =~= Set::empty());
            assert(counts_view(f.votes_per_proposal@) =~= Seq::empty());
            assert(f@.votes_per_proposal =~= Map::empty());
            assert(f@.messages =~= Seq::empty());
        }
        f
    }

    /// Propose a new membership set to the cluster: a fast-round vote for it is
    /// queued for every member. Scheduling the fallback classic round is the
    /// caller's part.
    pub fn propose(&mut self, proposal: Vec<Endpoint>)
        requires
            old(self).wf(),
        ensures
            final(self).wf(),
            final(self)@ == (FastPaxosView {
                messages: old(self)@.messages.push(fast_vote_msg(old(self)@, str_views(proposal@))),
                ..old(self)@
            }),
    {
        let kind = RequestKind::Consensus(
            Consensus::FastRoundPhase2bMessage(
                FastRoundPhase2bMessage {
                    sender: self.my_addr.clone(),
                    config_id: self.config_id,
                    endpoints: proposal,
                },
            ),
        );
        let ghost before = self.messages@;
        let ghost entry: (Option<Endpoint>, Message) = (None, Message::Request(kind));
        self.messages.push_back((None, Message::Request(kind)));
        proof {
            assert(outbox_view(self.messages@) =~= outbox_view(before).push((opt_endpoint_view(entry.0), entry.1@)));
        }
    }

    /// Count a fast-round vote. Returns whether the proposal voted for has now
    /// reached the fast quorum, with a quorum of votes received.
    fn handle_fast_round(&mut self, request: &FastRoundPhase2bMessage) -> (reached: bool)
        requires
            old(self).wf(),
            old(self)@.size >= 1,
        ensures
            final(self).wf(),
            final(self)@ == handle_fast_round_spec(old(self)@, request@),
    {
        let ghost s = self@;
        if request.config_id != self.config_id {
            return false;
        }
        let mut i: usize = 0;
        while i < self.votes_received.len()
            invariant
                self.wf(),
                self@ == s,
                i <= self.votes_received@.len(),
                forall|j: int| 0 <= j < i ==> (#[trigger] self.votes_received@[j])@ != request.sender@,
            decreases self.votes_received@.len() - i,
        {
            if self.votes_received[i] == request.sender {
                assert(str_views(self.votes_received@)[i as int] == request.sender@);
                return false;
            }
            i += 1;
        }
        assert(!s.votes_received.contains(request.sender@)) by {
            if str_views(self.votes_received@).contains(request.sender@) {
                let j = choose|j: int| 0 <= j < str_views(self.votes_received@).len() && str_views(self.votes_received@)[j] == request.sender@;
                assert(self.votes_received@[j]@ == request.sender@);
            }
        }
        if self.decided {
            return false;
        }
        let ghost vr = str_views(self.votes_received@);
        self.votes_received.push(request.sender.clone());
        proof {
            assert(str_views(self.votes_received@) =~= vr.push(request.sender@));
            vr.lemma_push_to_set_commute(request.sender@);
            let t = str_views(self.votes_received@);
            assert forall|a: int, b: int| 0 <= a < b < t.len() implies t[a] != t[b] by {
                if b == t.len() - 1 {
                    assert(vr.contains(vr[a]));
                } else {
                    assert(t[a] == vr[a] && t[b] == vr[b]);
                }
            }
            lemma_assoc(counts_view(self.votes_per_proposal@));
        }
        let ghost cv = counts_view(self.votes_per_proposal@);
        let found = find_proposal(&self.votes_per_proposal, &request.endpoints);
        let count: usize = match found {
            Some(idx) => {
                assert(cv[idx as int].0 == str_views(self.votes_per_proposal@[idx as int].0@));
                assert(cv[idx as int].0 == str_views(request.endpoints@));
                let old_count = self.votes_per_proposal[idx].1;
                let entry = self.votes_per_proposal.remove(idx);
                let ghost pre = self.votes_per_proposal@;
                let updated = (entry.0, old_count + 1);
                self.votes_per_proposal.insert(idx, updated);
                proof {
                    lemma_assoc_update(cv, idx as int, (old_count + 1) as nat);
                    assert(counts_view(self.votes_per_proposal@) =~= cv.update(idx as int, (cv[idx as int].0, (old_count + 1) as nat)));
                }
                old_count + 1
            },
            None => {
                proof {
                    assert(!assoc(cv).dom().contains(str_views(request.endpoints@))) by {
                        if assoc(cv).dom().contains(str_views(request.endpoints@)) {
                            let j = choose|j: int| 0 <= j < cv.len() && cv[j].0 == str_views(request.endpoints@);
                            assert(cv[j].0 == str_views(self.votes_per_proposal@[j].0@));
                        }
                    }
                    lemma_assoc_push(cv, str_views(request.endpoints@), 0nat);
                }
                self.votes_per_proposal.push((clone_endpoints(&request.endpoints), 0));
                proof {
                    assert(counts_view(self.votes_per_proposal@) =~= cv.push((str_views(request.endpoints@), 0nat)));
                }
                0
            },
        };
        proof {
            assert forall|i: int| 0 <= i < self.votes_per_proposal@.len() implies (#[trigger] self.votes_per_proposal@[i]).1
                < self.votes_received@.len() by {}
        }
        let f = (self.size - 1) / 4;
        self.votes_received.len() >= self.size - f && count >= self.size - f
    }

    /// Handles a consensus message which the membership service receives, and
    /// hands out the messages this instance queued: those addressed to a member
    /// as they are, the others to every member of `view`.
    pub fn step(&mut self, msg: Consensus, view: &[Endpoint]) -> (out: Vec<(Endpoint, Message)>)
        requires
            old(self).wf(),
            msg is FastRoundPhase2bMessage ==> old(self)@.size >= 1,
        ensures
            final(self).wf(),
            final(self)@ == (FastPaxosView { messages: Seq::empty(), ..step_state(old(self)@, msg@) }),
            addressed_view(out@) == address(step_state(old(self)@, msg@).messages, str_views(view@)),
    {
        match msg {
            Consensus::FastRoundPhase2bMessage(req) => {
                self.handle_fast_round(&req);
            },
            Consensus::Phase1aMessage(req) => {
                self.paxos.handle_phase_1a(req);
            },
            Consensus::Phase1bMessage(req) => {
                self.paxos.handle_phase_1b(req);
            },
            Consensus::Phase2aMessage(req) => {
                self.paxos.handle_phase_2a(req);
            },
            Consensus::Phase2bMessage(req) => {
                let _proposal = self.paxos.handle_phase_2b(req);
            },
        };
        self.take_messages(view)
    }

    /// Hand out the queued messages, each addressed: to its destination, or to
    /// every member of `view` in turn. The queue is left empty.
    pub fn take_messages(&mut self, view: &[Endpoint]) -> (out: Vec<(Endpoint, Message)>)
        requires
            old(self).wf(),
        ensures
            final(self).wf(),
            final(self)@ == (FastPaxosView { messages: Seq::empty(), ..old(self)@ }),
            addressed_view(out@) == address(old(self)@.messages, str_views(view@)),
    {
        let mut queue: VecDeque<(Option<Endpoint>, Message)> = VecDeque::new();
        std::mem::swap(&mut queue, &mut self.messages);
        let ghost q = queue@;
        let ghost vv = str_views(view@);
        let mut msgs: Vec<(Endpoint, Message)> = Vec::new();
        let ghost done: Seq<(Option<Endpoint>, Message)> = Seq::empty();
        assert(addressed_view(msgs@) =~= address(outbox_view(done), vv)) by {
            assert(outbox_view(done) =~= Seq::empty());
        }
        while queue.len() > 0
            invariant
                done + queue@ == q,
                vv == str_views(view@),
                addressed_view(msgs@) == address(outbox_view(done), vv),
            decreases queue@.len(),
        {
            let item = queue.pop_front();
            match item {
                Some(m) => {
                    let ghost before = addressed_view(msgs@);
                    let (to, message) = m;
                    match to {
                        Some(t) => {
                            msgs.push((t, message));
                            proof {
                                assert(addressed_view(msgs@) =~= before + seq![(t@, message@)]);
                            }
                        },
                        None => {
                            let mut k: usize = 0;
                            while k < view.len()
                                invariant
                                    k <= view@.len(),
                                    vv == str_views(view@),
                                    addressed_view(msgs@) == before + vv.take(k as int).map_values(
                                        |to: Seq<char>| (to, message@),
                                    ),
                                decreases view@.len() - k,
                            {
                                let ghost prev = addressed_view(msgs@);
                                let entry = (view[k].clone(), message.clone());
                                assert(entry.0@ == vv[k as int]);
                                msgs.push(entry);
                                assert(vv.take(k + 1) =~= vv.take(k as int).push(vv[k as int]));
                                assert(vv.take(k + 1).map_values(|to: Seq<char>| (to, message@)) =~= vv.take(
                                    k as int,
                                ).map_values(|to: Seq<char>| (to, message@)).push((vv[k as int], message@)));
                                assert(addressed_view(msgs@) =~= prev.push((entry.0@, entry.1@)));
                                assert(addressed_view(msgs@) =~= before + vv.take(k + 1).map_values(
                                    |to: Seq<char>| (to, message@),
                                ));
                                k += 1;
                            }
                            assert(vv.take(view@.len() as int) =~= vv);
                        },
                    }
                    proof {
                        let nd = done.push(m);
                        assert(outbox_view(nd).drop_last() =~= outbox_view(done));
                        assert(outbox_view(nd).last() == (opt_endpoint_view(m.0), m.1@));
                        done = nd;
                        assert(done + queue@ =~= q);
                    }
                },
                None => {},
            }
        }
        proof {
            assert(done =~= q);
            assert(outbox_view(self.messages@) =~= Seq::empty());
        }
        msgs
    }

    /// Start a classic round unless a decision was reached.
    pub fn start_classic_round(&mut self)
        requires
            old(self).wf(),
        ensures
            final(self).wf(),
            final(self)@ == if old(self)@.decided {
                old(self)@
            } else {
                FastPaxosView { paxos: start_phase_1a_spec(old(self)@.paxos, 2), ..old(self)@ }
            },
    {
        if !self.decided {
            self.paxos.start_phase_1a(2);
        }
    }

    /// Whether `step` covers `msg` from this state: a fast-round vote needs a
    /// membership of at least one.
    pub fn accepts(&self, msg: &Consensus) -> (b: bool)
        requires
            self.wf(),
        ensures
            b == (msg is FastRoundPhase2bMessage ==> self@.size >= 1),
    {
        match msg {
            Consensus::FastRoundPhase2bMessage(_) => self.size >= 1,
            _ => true,
        }
    }

    /// The size of the membership this instance decides for.
    pub fn size(&self) -> (n: usize)
        ensures
            n == self@.size,
    {
        self.size
    }
}

/// Any two sets of `fast_quorum(size)` members out of `size` share more than
/// half of the members.
pub proof fn lemma_fast_quorums_intersect(size: nat)
    requires
        size >= 1,
    ensures
        2 * (2 * fast_quorum(size) - size) > size,
{
    let f = (size - 1) / 4;
    assert(4 * f <= size - 1);
}

/// A vote is counted once per sender: the same vote again changes nothing.
pub proof fn lemma_vote_counted_once(s: FastPaxosView, req: FastRoundPhase2bView)
    ensures
        handle_fast_round_spec(handle_fast_round_spec(s, req), req) == handle_fast_round_spec(s, req),
{
}

/// Votes of another configuration, votes of a sender that already voted, and
/// votes once decided change nothing; any other vote records its sender, so
/// each sender's vote is counted at most once.
pub proof fn lemma_fast_vote_ignored(s: FastPaxosView, req: FastRoundPhase2bView)
    ensures
        req.config_id != s.config_id || s.votes_received.contains(req.sender) || s.decided ==> handle_fast_round_spec(
            s,
            req,
        ) == s,
        !(req.config_id != s.config_id || s.votes_received.contains(req.sender) || s.decided) ==> handle_fast_round_spec(
            s,
            req,
        ).votes_received == s.votes_received.insert(req.sender),
{
}

} // verus!
