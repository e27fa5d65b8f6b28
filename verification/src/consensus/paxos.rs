//! Classic Paxos, the fallback of Fast Paxos when the fast round does not
//! reach a decision.
//!
//! Phase 2b votes are recorded by round, one per sender, and an instance
//! decides, once, when more than half the members have voted in a round.
use crate::assoc::{assoc, keys_distinct, lemma_assoc, lemma_assoc_push, lemma_assoc_update};
use crate::common::{ConfigId, Endpoint};
use crate::hashing::{xxhash32, xxhash32_bytes};
use crate::order::str_views;
use crate::transport::proto::{
    clone_endpoints, rank_lt, Consensus, ConsensusView, Phase1aMessage, Phase1aView, Phase1bMessage,
    Phase1bView, Phase2aMessage, Phase2aView, Phase2bMessage, Phase2bView, Rank, RequestKind,
    RequestKindView,
};
use crate::transport::{Message, MessageView};
use std::collections::VecDeque;
use vstd::prelude::*;
use vstd::utf8::encode_utf8;

verus! {

/// The index a coordinator places in its ranks: the 32-bit xxHash digest,
/// seeded with zero, of its address's bytes.
pub open spec fn str_hash(input: Seq<char>) -> u32 {
    xxhash32(0, encode_utf8(input))
}

/// The view of an optional destination.
pub open spec fn opt_endpoint_view(o: Option<Endpoint>) -> Option<Seq<char>> {
    match o {
        Some(e) => Some(e@),
        None => None,
    }
}

/// The view of a queue of outgoing messages: a destination, or none for every
/// member, and the message.
pub open spec fn outbox_view(q: Seq<(Option<Endpoint>, Message)>) -> Seq<(Option<Seq<char>>, MessageView)> {
    q.map_values(|e: (Option<Endpoint>, Message)| (opt_endpoint_view(e.0), e.1@))
}

/// A consensus request as a message.
pub open spec fn consensus_msg(c: ConsensusView) -> MessageView {
    MessageView::Request(RequestKindView::Consensus(c))
}

/// The abstract state of a Paxos instance.
pub struct PaxosView {
    pub size: nat,
    pub my_addr: Seq<char>,
    pub rnd: Rank,
    pub vrnd: Rank,
    pub vval: Seq<Seq<char>>,
    pub crnd: Rank,
    pub cval: Seq<Seq<char>>,
    pub config_id: ConfigId,
    pub phase_1b_messages: Seq<Phase1bView>,
    pub phase_2a_messages: Seq<Phase2aView>,
    pub accept_responses: Map<Rank, Map<Seq<char>, Phase2bView>>,
    pub decided: bool,
    pub messages: Seq<(Option<Seq<char>>, MessageView)>,
}

/// The lowest rank.
pub open spec fn zero_rank() -> Rank {
    Rank { round: 0, node_index: 0 }
}

/// The largest `vrnd` among `msgs`, which must not be empty.
pub open spec fn max_vrnd(msgs: Seq<Phase1bView>) -> Rank
    decreases msgs.len(),
{
    if msgs.len() <= 1 {
        msgs[0].vrnd
    } else {
        let m = max_vrnd(msgs.drop_last());
        if rank_lt(m, msgs.last().vrnd) {
            msgs.last().vrnd
        } else {
            m
        }
    }
}

/// Whether promise `m` voted for a value, in round `k` when one is given.
pub open spec fn voted(m: Phase1bView, k: Option<Rank>) -> bool {
    m.vval.len() > 0 && (k matches Some(r) ==> m.vrnd == r)
}

/// The value of the first promise among the first `n` of `msgs` that voted for a
/// value (in round `k` when one is given), if any did.
pub open spec fn first_vote(msgs: Seq<Phase1bView>, k: Option<Rank>, n: nat) -> Option<Seq<Seq<char>>>
    decreases n,
{
    if n == 0 {
        None
    } else {
        match first_vote(msgs, k, (n - 1) as nat) {
            Some(v) => Some(v),
            None => if voted(msgs[n - 1], k) {
                Some(msgs[n - 1].vval)
            } else {
                None
            },
        }
    }
}

/// Every value voted in round `k` is `v`: the set of values of that round has
/// the single member `v`.
pub open spec fn only_value(msgs: Seq<Phase1bView>, k: Rank, v: Seq<Seq<char>>) -> bool {
    forall|i: int| 0 <= i < msgs.len() && voted(#[trigger] msgs[i], Some(k)) ==> msgs[i].vval == v
}

/// The value a coordinator proposes from the promises `msgs` of a membership
/// of `size`. Let `k` be the highest round any acceptor voted in and V the set
/// of values voted in `k`. A single value in V is the one that may have been
/// chosen, and is proposed again. Of several, one is taken only while a single
/// vote exceeds a quarter of the membership (a membership under four); it is
/// the first of them. Otherwise any value is safe, and the first value voted
/// at all is taken; with none, the result is empty.
pub open spec fn chosen_value(msgs: Seq<Phase1bView>, size: nat) -> Seq<Seq<char>> {
    if msgs.len() == 0 {
        Seq::empty()
    } else {
        let k = max_vrnd(msgs);
        match first_vote(msgs, Some(k), msgs.len()) {
            Some(v) if only_value(msgs, k, v) || size < 4 => v,
            _ => match first_vote(msgs, None, msgs.len()) {
                Some(v) => v,
                None => Seq::empty(),
            },
        }
    }
}

/// Starting a classic round as coordinator at `round`.
pub open spec fn start_phase_1a_spec(s: PaxosView, round: u32) -> PaxosView {
    if s.crnd.round > round {
        s
    } else {
        let crnd = Rank { round, node_index: str_hash(s.my_addr) };
        PaxosView {
            crnd,
            messages: s.messages.push(
                (
                    None,
                    consensus_msg(
                        ConsensusView::Phase1aMessage(
                            Phase1aView { config_id: s.config_id, sender: s.my_addr, rank: crnd },
                        ),
                    ),
                ),
            ),
            ..s
        }
    }
}

/// An acceptor receiving a coordinator's Phase 1a message.
pub open spec fn handle_phase_1a_spec(s: PaxosView, req: Phase1aView) -> PaxosView {
    if req.config_id != s.config_id {
        s
    } else if rank_lt(s.crnd, req.rank) {
        PaxosView {
            crnd: req.rank,
            messages: s.messages.push(
                (
                    Some(req.sender),
                    consensus_msg(
                        ConsensusView::Phase1bMessage(
                            Phase1bView {
                                config_id: s.config_id,
                                rnd: s.rnd,
                                sender: s.my_addr,
                                vrnd: s.vrnd,
                                vval: s.vval,
                            },
                        ),
                    ),
                ),
            ),
            ..s
        }
    } else {
        s
    }
}

/// A coordinator receiving an acceptor's Phase 1b message: promises for the
/// current round are collected. Once more than half the members promised, a
/// coordinator that has picked no value yet picks the chosen value, if it is
/// not empty, and sends it to every member in a Phase 2a message.
pub open spec fn handle_phase_1b_spec(s: PaxosView, req: Phase1bView) -> PaxosView {
    if req.config_id != s.config_id || req.rnd != s.crnd {
        s
    } else {
        let msgs = s.phase_1b_messages.push(req);
        let chosen = chosen_value(msgs, s.size);
        if msgs.len() > s.size / 2 && s.cval.len() == 0 && chosen.len() > 0 {
            PaxosView {
                phase_1b_messages: msgs,
                cval: chosen,
                messages: s.messages.push(
                    (
                        None,
                        consensus_msg(
                            ConsensusView::Phase2aMessage(
                                Phase2aView { sender: s.my_addr, config_id: s.config_id, rnd: s.crnd, vval: chosen },
                            ),
                        ),
                    ),
                ),
                ..s
            }
        } else {
            PaxosView { phase_1b_messages: msgs, ..s }
        }
    }
}

/// An acceptor receiving a Phase 2a message: it votes unless it has promised a
/// higher round or already voted in this one.
pub open spec fn handle_phase_2a_spec(s: PaxosView, req: Phase2aView) -> PaxosView {
    if req.config_id != s.config_id {
        s
    } else if (rank_lt(s.rnd, req.rnd) || s.rnd == req.rnd) && s.vrnd != req.rnd {
        PaxosView {
            rnd: req.rnd,
            vrnd: req.rnd,
            vval: req.vval,
            messages: s.messages.push(
                (
                    Some(req.sender),
                    consensus_msg(
                        ConsensusView::Phase2bMessage(
                            Phase2bView {
                                config_id: req.config_id,
                                rnd: req.rnd,
                                sender: s.my_addr,
                                endpoints: req.vval,
                            },
                        ),
                    ),
                ),
            ),
            ..s
        }
    } else {
        s
    }
}

/// A coordinator receiving a Phase 2b vote: the vote is recorded for its
/// round, one per sender, and a decision is taken, once, when more than half
/// the members have voted in that round.
pub open spec fn handle_phase_2b_spec(s: PaxosView, req: Phase2bView) -> (PaxosView, Option<Seq<Seq<char>>>) {
    if req.config_id != s.config_id {
        (s, None)
    } else {
        let before = if s.accept_responses.dom().contains(req.rnd) {
            s.accept_responses[req.rnd]
        } else {
            Map::empty()
        };
        let votes = before.insert(req.sender, req);
        let ar = s.accept_responses.insert(req.rnd, votes);
        if votes.len() > s.size / 2 && !s.decided {
            (PaxosView { accept_responses: ar, decided: true, ..s }, Some(req.endpoints))
        } else {
            (PaxosView { accept_responses: ar, ..s }, None)
        }
    }
}

/// The 32-bit xxHash digest of a string's bytes, seeded with zero.
pub fn hash_str(input: &str) -> (h: u32)
    ensures
        h == str_hash(input@),
{
    let h = xxhash32_bytes(0, input.as_bytes());
    h as u32
}

/// Pick the value a coordinator proposes in Phase 2a from the promises it
/// collected: the rule of Figure 2 of the Fast Paxos paper, as
/// `chosen_value` states it.
pub fn select_proposal(messages: &[Phase1bMessage], size: usize) -> (r: Vec<Endpoint>)
    ensures
        str_views(r@) == chosen_value(messages@.map_values(|m: Phase1bMessage| m@), size as nat),
{
    let ghost mv = messages@.map_values(|m: Phase1bMessage| m@);
    if messages.len() == 0 {
        let r: Vec<Endpoint> = Vec::new();
        assert(str_views(r@) =~= Seq::empty());
        return r;
    }
    let mut max_vrnd_so_far = messages[0].vrnd;
    let mut i: usize = 1;
    while i < messages.len()
        invariant
            mv == messages@.map_values(|m: Phase1bMessage| m@),
            1 <= i <= messages@.len(),
            max_vrnd_so_far == max_vrnd(mv.take(i as int)),
        decreases messages@.len() - i,
    {
        assert(mv.take(i + 1).drop_last() =~= mv.take(i as int));
        if max_vrnd_so_far.lt_rank(&messages[i].vrnd) {
            max_vrnd_so_far = messages[i].vrnd;
        }
        i += 1;
    }
    assert(mv.take(messages@.len() as int) =~= mv);
    match first_vote_index(messages, Some(max_vrnd_so_far)) {
        Some(t) => {
            if size < 4 || only_value_of(messages, max_vrnd_so_far, t) {
                assert(mv[t as int] == messages@[t as int]@);
                return clone_endpoints(&messages[t].vval);
            }
        },
        None => {},
    }
    match first_vote_index(messages, None) {
        Some(t) => {
            assert(mv[t as int] == messages@[t as int]@);
            clone_endpoints(&messages[t].vval)
        },
        None => {
            let r: Vec<Endpoint> = Vec::new();
            assert(str_views(r@) =~= Seq::empty());
            r
        },
    }
}

/// Once a first vote is found among the first `n` promises, more promises do
/// not change it.
proof fn lemma_first_vote_stable(msgs: Seq<Phase1bView>, k: Option<Rank>, n: nat, m: nat)
    requires
        n <= m,
        first_vote(msgs, k, n) is Some,
    ensures
        first_vote(msgs, k, m) == first_vote(msgs, k, n),
    decreases m,
{
    if m > n {
        lemma_first_vote_stable(msgs, k, n, (m - 1) as nat);
    }
}

/// Position of the first promise that voted for a value (in round `k` when one
/// is given).
fn first_vote_index(messages: &[Phase1bMessage], k: Option<Rank>) -> (r: Option<usize>)
    ensures
        r matches Some(t) ==> t < messages@.len() && first_vote(
            messages@.map_values(|m: Phase1bMessage| m@),
            k,
            messages@.len(),
        ) == Some(messages@[t as int]@.vval),
        r is None ==> first_vote(messages@.map_values(|m: Phase1bMessage| m@), k, messages@.len()) is None,
{
    let ghost mv = messages@.map_values(|m: Phase1bMessage| m@);
    let mut i: usize = 0;
    while i < messages.len()
        invariant
            mv == messages@.map_values(|m: Phase1bMessage| m@),
            i <= messages@.len(),
            first_vote(mv, k, i as nat) is None,
        decreases messages@.len() - i,
    {
        assert(mv[i as int] == messages@[i as int]@);
        let in_round = match k {
            Some(rk) => messages[i].vrnd == rk,
            None => true,
        };
        if messages[i].vval.len() > 0 && in_round {
            proof {
                lemma_first_vote_stable(mv, k, (i + 1) as nat, messages@.len() as nat);
            }
            return Some(i);
        }
        i += 1;
    }
    None
}

/// Whether every promise that voted in round `k` voted for the value of
/// promise `t`.
fn only_value_of(messages: &[Phase1bMessage], k: Rank, t: usize) -> (b: bool)
    requires
        t < messages@.len(),
    ensures
        b == only_value(messages@.map_values(|m: Phase1bMessage| m@), k, messages@[t as int]@.vval),
{
    let ghost mv = messages@.map_values(|m: Phase1bMessage| m@);
    let ghost v = messages@[t as int]@.vval;
    let mut j: usize = 0;
    while j < messages.len()
        invariant
            mv == messages@.map_values(|m: Phase1bMessage| m@),
            v == messages@[t as int]@.vval,
            t < messages@.len(),
            j <= messages@.len(),
            forall|i: int| 0 <= i < j && voted(#[trigger] mv[i], Some(k)) ==> mv[i].vval == v,
        decreases messages@.len() - j,
    {
        assert(mv[j as int] == messages@[j as int]@);
        if messages[j].vval.len() > 0 && messages[j].vrnd == k && !same_endpoints(&messages[j].vval, &messages[t].vval) {
            return false;
        }
        j += 1;
    }
    true
}

/// Whether two lists of endpoints are the same.
fn same_endpoints(a: &Vec<Endpoint>, b: &Vec<Endpoint>) -> (r: bool)
    ensures
        r == (str_views(a@) == str_views(b@)),
{
    if a.len() != b.len() {
        assert(str_views(a@).len() != str_views(b@).len());
        return false;
    }
    let mut i: usize = 0;
    while i < a.len()
        invariant
            a@.len() == b@.len(),
            i <= a@.len(),
            forall|j: int| 0 <= j < i ==> (#[trigger] a@[j])@ == b@[j]@,
        decreases a@.len() - i,
    {
        if a[i] != b[i] {
            assert(str_views(a@)[i as int] != str_views(b@)[i as int]);
            return false;
        }
        i += 1;
    }
    assert(str_views(a@) =~= str_views(b@));
    true
}

/// Position of the vote of `sender`, if it is recorded.
fn find_sender(v: &Vec<(Endpoint, Phase2bMessage)>, sender: &Endpoint) -> (r: Option<usize>)
    ensures
        r matches Some(i) ==> i < v@.len() && v@[i as int].0@ == sender@,
        r is None ==> forall|j: int| 0 <= j < v@.len() ==> (#[trigger] v@[j]).0@ != sender@,
{
    let mut i: usize = 0;
    while i < v.len()
        invariant
            i <= v@.len(),
            forall|j: int| 0 <= j < i ==> (#[trigger] v@[j]).0@ != sender@,
        decreases v@.len() - i,
    {
        if v[i].0 == *sender {
            return Some(i);
        }
        i += 1;
    }
    None
}

/// Position of the votes of round `rnd`, if any are recorded.
fn find_round(v: &Vec<(Rank, Vec<(Endpoint, Phase2bMessage)>)>, rnd: Rank) -> (r: Option<usize>)
    ensures
        r matches Some(i) ==> i < v@.len() && v@[i as int].0 == rnd,
        r is None ==> forall|j: int| 0 <= j < v@.len() ==> (#[trigger] v@[j]).0 != rnd,
{
    let mut i: usize = 0;
    while i < v.len()
        invariant
            i <= v@.len(),
            forall|j: int| 0 <= j < i ==> (#[trigger] v@[j]).0 != rnd,
        decreases v@.len() - i,
    {
        if v[i].0 == rnd {
            return Some(i);
        }
        i += 1;
    }
    None
}

/// A Paxos instance for one configuration.
#[derive(Debug)]
pub struct Paxos {
    size: usize,
    my_addr: Endpoint,
    /// Highest-numbered round we have participated in
    rnd: Rank,
    /// Highest-numbered round we have cast a vote in
    vrnd: Rank,
    /// The values we voted to accept in round `vrnd`
    vval: Vec<Endpoint>,
    /// The highest-numbered round we have begun
    crnd: Rank,
    /// The value we have picked for round `crnd`
    cval: Vec<Endpoint>,
    /// The config ID we are working with.
    config_id: ConfigId,
    phase_1b_messages: Vec<Phase1bMessage>,
    phase_2a_messages: Vec<Phase2aMessage>,
    accept_responses: Vec<(Rank, Vec<(Endpoint, Phase2bMessage)>)>,
    decided: bool,
    messages: VecDeque<(Option<Endpoint>, Message)>,
}

/// The votes of one round, by sender.
pub open spec fn votes_view(v: Seq<(Endpoint, Phase2bMessage)>) -> Seq<(Seq<char>, Phase2bView)> {
    v.map_values(|p: (Endpoint, Phase2bMessage)| (p.0@, p.1@))
}

/// The votes recorded for each round.
pub open spec fn accept_view(v: Seq<(Rank, Vec<(Endpoint, Phase2bMessage)>)>) -> Seq<
    (Rank, Map<Seq<char>, Phase2bView>),
> {
    v.map_values(|e: (Rank, Vec<(Endpoint, Phase2bMessage)>)| (e.0, assoc(votes_view(e.1@))))
}

impl View for Paxos {
    type V = PaxosView;

    closed spec fn view(&self) -> PaxosView {
        PaxosView {
            size: self.size as nat,
            my_addr: self.my_addr@,
            rnd: self.rnd,
            vrnd: self.vrnd,
            vval: str_views(self.vval@),
            crnd: self.crnd,
            cval: str_views(self.cval@),
            config_id: self.config_id,
            phase_1b_messages: self.phase_1b_messages@.map_values(|m: Phase1bMessage| m@),
            phase_2a_messages: self.phase_2a_messages@.map_values(|m: Phase2aMessage| m@),
            accept_responses: assoc(accept_view(self.accept_responses@)),
            decided: self.decided,
            messages: outbox_view(self.messages@),
        }
    }
}

impl Paxos {
    /// Each round is recorded once, and each sender's vote once in its round.
    pub closed spec fn wf(&self) -> bool {
        &&& keys_distinct(accept_view(self.accept_responses@))
        &&& forall|i: int|
            0 <= i < self.accept_responses@.len() ==> keys_distinct(votes_view((#[trigger] self.accept_responses@[i]).1@))
    }

    pub fn new(size: usize, my_addr: Endpoint, config_id: ConfigId) -> (p: Paxos)
        ensures
            p.wf(),
            p@ == (PaxosView {
                size: size as nat,
                my_addr: my_addr@,
                rnd: zero_rank(),
                vrnd: zero_rank(),
                vval: Seq::empty(),
                crnd: zero_rank(),
                cval: Seq::empty(),
                config_id,
                phase_1b_messages: Seq::empty(),
                phase_2a_messages: Seq::empty(),
                accept_responses: Map::empty(),
                decided: false,
                messages: Seq::empty(),
            }),
    {
        let p = Paxos {
            size,
            my_addr,
            config_id,
            crnd: Rank { round: 0, node_index: 0 },
            rnd: Rank { round: 0, node_index: 0 },
            vrnd: Rank { round: 0, node_index: 0 },
            cval: Vec::new(),
            vval: Vec::new(),
            phase_1b_messages: Vec::new(),
            phase_2a_messages: Vec::new(),
            accept_responses: Vec::new(),
            decided: false,
            messages: VecDeque::new(),
        };
        proof {
            assert(str_views(p.vval@) =~= Seq::empty());
            assert(str_views(p.cval@) =~= Seq::empty());
            assert(p@.phase_1b_messages =~= Seq::empty());
            assert(p@.phase_2a_messages =~= Seq::empty());
            assert(accept_view(p.accept_responses@) =~= Seq::empty());
            assert(p@.messages =~= Seq::empty());
        }
        p
    }

    fn enqueue(&mut self, to: Option<Endpoint>, msg: Message)
        ensures
            final(self).wf() == old(self).wf(),
            final(self)@ == (PaxosView {
                messages: old(self)@.messages.push((opt_endpoint_view(to), msg@)),
                ..old(self)@
            }),
    {
        let ghost before = self.messages@;
        let ghost entry = (to, msg);
        self.messages.push_back((to, msg));
        proof {
            assert(outbox_view(self.messages@) =~= outbox_view(before).push((opt_endpoint_view(entry.0), entry.1@)));
        }
    }

    /// Starts a classic paxos round by sending out a Phase 1a message as the
    /// coordinator.
    ///
    /// Using ranks as round numbers ensures uniqueness even with multiple rounds
    /// happening at the same time.
    pub fn start_phase_1a(&mut self, round: u32)
        requires
            old(self).wf(),
        ensures
            final(self).wf(),
            final(self)@ == start_phase_1a_spec(old(self)@, round),
    {
        if self.crnd.round > round {
            return;
        }
        let hash = hash_str(self.my_addr.as_str());
        self.crnd = Rank { round, node_index: hash };
        let kind = RequestKind::Consensus(
            Consensus::Phase1aMessage(
                Phase1aMessage { config_id: self.config_id, sender: self.my_addr.clone(), rank: self.crnd },
            ),
        );
        self.enqueue(None, Message::Request(kind));
    }

    /// At acceptor, handle a Phase 1a message from a coordinator.
    ///
    /// Unless its rank is higher than any round begun here, it is not answered.
    pub fn handle_phase_1a(&mut self, request: Phase1aMessage)
        requires
            old(self).wf(),
        ensures
            final(self).wf(),
            final(self)@ == handle_phase_1a_spec(old(self)@, request@),
    {
        let Phase1aMessage { sender, config_id, rank } = request;
        if config_id != self.config_id {
            return;
        }
        if self.crnd.lt_rank(&rank) {
            self.crnd = rank;
        } else {
            return;
        }
        let kind = RequestKind::Consensus(
            Consensus::Phase1bMessage(
                Phase1bMessage {
                    config_id: self.config_id,
                    rnd: self.rnd,
                    sender: self.my_addr.clone(),
                    vrnd: self.vrnd,
                    vval: clone_endpoints(&self.vval),
                },
            ),
        );
        self.enqueue(Some(sender), Message::Request(kind));
    }

    /// At coordinator, collect phase 1b messages from acceptors and check if they
    /// have already voted and if a value might have already been chosen.
    pub fn handle_phase_1b(&mut self, request: Phase1bMessage)
        requires
            old(self).wf(),
        ensures
            final(self).wf(),
            final(self)@ == handle_phase_1b_spec(old(self)@, request@),
    {
        if request.config_id != self.config_id {
            return;
        }
        if request.rnd != self.crnd {
            return;
        }
        let rnd = request.rnd;
        let ghost before = self.phase_1b_messages@;
        let ghost rv = request@;
        self.phase_1b_messages.push(request);
        proof {
            assert(self.phase_1b_messages@.map_values(|m: Phase1bMessage| m@) =~= before.map_values(
                |m: Phase1bMessage| m@,
            ).push(rv));
        }
        if self.phase_1b_messages.len() > self.size / 2 {
            let chosen_proposal = select_proposal(self.phase_1b_messages.as_slice(), self.size);
            if self.crnd == rnd && self.cval.len() == 0 && chosen_proposal.len() > 0 {
                self.cval = clone_endpoints(&chosen_proposal);
                let kind = RequestKind::Consensus(
                    Consensus::Phase2aMessage(
                        Phase2aMessage {
                            sender: self.my_addr.clone(),
                            config_id: self.config_id,
                            rnd: self.crnd,
                            vval: chosen_proposal,
                        },
                    ),
                );
                self.enqueue(None, Message::Request(kind));
            }
        }
    }

    /// At acceptor, accept a phase 2a message.
    pub fn handle_phase_2a(&mut self, request: Phase2aMessage)
        requires
            old(self).wf(),
        ensures
            final(self).wf(),
            final(self)@ == handle_phase_2a_spec(old(self)@, request@),
    {
        let Phase2aMessage { config_id, rnd, vval, sender } = request;
        if config_id != self.config_id {
            return;
        }
        if self.rnd.le_rank(&rnd) && self.vrnd != rnd {
            self.rnd = rnd;
            self.vrnd = rnd;
            self.vval = clone_endpoints(&vval);
            let kind = RequestKind::Consensus(
                Consensus::Phase2bMessage(
                    Phase2bMessage { config_id, rnd, sender: self.my_addr.clone(), endpoints: vval },
                ),
            );
            self.enqueue(Some(sender), Message::Request(kind));
        }
    }

    /// At coordinator, record a Phase 2b vote for its round, one per sender;
    /// returns the value voted for the first time more than half the members
    /// have voted in that round.
    pub fn handle_phase_2b(&mut self, request: Phase2bMessage) -> (r: Option<Vec<Endpoint>>)
        requires
            old(self).wf(),
        ensures
            final(self).wf(),
            (final(self)@, match r {
                Some(v) => Some(str_views(v@)),
                None => None,
            }) == handle_phase_2b_spec(old(self)@, request@),
    {
        let ghost s = self@;
        let ghost rv = request@;
        if request.config_id != self.config_id {
            return None;
        }
        let rnd = request.rnd;
        proof {
            lemma_assoc(accept_view(self.accept_responses@));
        }
        let found = find_round(&self.accept_responses, rnd);
        if found.is_none() {
            proof {
                assert(!s.accept_responses.dom().contains(rnd)) by {
                    if s.accept_responses.dom().contains(rnd) {
                        let j = choose|j: int| 0 <= j < accept_view(self.accept_responses@).len() && accept_view(self.accept_responses@)[j].0 == rnd;
                        assert(self.accept_responses@[j].0 == rnd);
                    }
                }
            }
            let ghost before = self.accept_responses@;
            self.accept_responses.push((rnd, Vec::new()));
            proof {
                let e: (Rank, Vec<(Endpoint, Phase2bMessage)>) = self.accept_responses@.last();
                assert(votes_view(e.1@) =~= Seq::empty());
                assert(accept_view(self.accept_responses@) =~= accept_view(before).push((rnd, Map::empty())));
                lemma_assoc_push(accept_view(before), rnd, Map::<Seq<char>, Phase2bView>::empty());
                assert forall|i: int| 0 <= i < self.accept_responses@.len() implies keys_distinct(
                    votes_view((#[trigger] self.accept_responses@[i]).1@),
                ) by {
                    if i < before.len() {
                        assert(self.accept_responses@[i] == before[i]);
                    }
                }
            }
        }
        let idx = match found {
            Some(i) => i,
            None => self.accept_responses.len() - 1,
        };
        let ghost outer = self.accept_responses@;
        let ghost ar = assoc(accept_view(outer));
        proof {
            lemma_assoc(accept_view(outer));
            if found.is_some() {
                assert(accept_view(outer)[idx as int].0 == rnd);
                assert(s.accept_responses.dom().contains(rnd));
            }
            assert(ar == if s.accept_responses.dom().contains(rnd) {
                s.accept_responses
            } else {
                s.accept_responses.insert(rnd, Map::empty())
            });
            assert(accept_view(outer)[idx as int].0 == rnd);
            assert(ar[rnd] == assoc(votes_view(outer[idx as int].1@)));
        }
        let mut entry = self.accept_responses.remove(idx);
        let ghost inner0 = entry.1@;
        assert(inner0 == outer[idx as int].1@);
        assert(keys_distinct(votes_view(inner0)));
        proof {
            lemma_assoc(votes_view(inner0));
        }
        let pos = find_sender(&entry.1, &request.sender);
        let sender = request.sender.clone();
        let endpoints = clone_endpoints(&request.endpoints);
        match pos {
            Some(j) => {
                entry.1.set(j, (sender, request));
                proof {
                    assert(votes_view(entry.1@) =~= votes_view(inner0).update(j as int, (votes_view(inner0)[j as int].0, rv)));
                    lemma_assoc_update(votes_view(inner0), j as int, rv);
                }
            },
            None => {
                entry.1.push((sender, request));
                proof {
                    assert(!assoc(votes_view(inner0)).dom().contains(rv.sender)) by {
                        if assoc(votes_view(inner0)).dom().contains(rv.sender) {
                            let k = choose|k: int| 0 <= k < votes_view(inner0).len() && votes_view(inner0)[k].0 == rv.sender;
                            assert(inner0[k].0@ == rv.sender);
                        }
                    }
                    assert(votes_view(entry.1@) =~= votes_view(inner0).push((rv.sender, rv)));
                    lemma_assoc_push(votes_view(inner0), rv.sender, rv);
                }
            },
        }
        let ghost votes = assoc(votes_view(entry.1@));
        proof {
            lemma_assoc(votes_view(entry.1@));
            assert(votes == ar[rnd].insert(rv.sender, rv));
            assert(votes.len() == entry.1@.len());
        }
        let count = entry.1.len();
        let ghost new_entry = entry;
        self.accept_responses.insert(idx, entry);
        proof {
            assert(self.accept_responses@ =~= outer.update(idx as int, new_entry));
            assert(accept_view(self.accept_responses@) =~= accept_view(outer).update(
                idx as int,
                (accept_view(outer)[idx as int].0, votes),
            ));
            lemma_assoc_update(accept_view(outer), idx as int, votes);
            assert(assoc(accept_view(self.accept_responses@)) =~= s.accept_responses.insert(rnd, votes));
            assert(str_views(endpoints@) == rv.endpoints);
            assert forall|i: int| 0 <= i < self.accept_responses@.len() implies keys_distinct(
                votes_view((#[trigger] self.accept_responses@[i]).1@),
            ) by {
                if i != idx {
                    assert(self.accept_responses@[i] == outer[i]);
                }
            }
        }
        if count > self.size / 2 && !self.decided {
            self.decided = true;
            Some(endpoints)
        } else {
            None
        }
    }

    /// Hand out every queued message, in order, and empty the queue.
    pub fn drain_messages(&mut self) -> (r: Vec<(Option<Endpoint>, Message)>)
        requires
            old(self).wf(),
        ensures
            final(self).wf(),
            outbox_view(r@) == old(self)@.messages,
            final(self)@ == (PaxosView { messages: Seq::empty(), ..old(self)@ }),
    {
        let mut queue: VecDeque<(Option<Endpoint>, Message)> = VecDeque::new();
        std::mem::swap(&mut queue, &mut self.messages);
        let ghost q = queue@;
        let mut out: Vec<(Option<Endpoint>, Message)> = Vec::new();
        while queue.len() > 0
            invariant
                out@ + queue@ == q,
            decreases queue@.len(),
        {
            match queue.pop_front() {
                Some(m) => {
                    out.push(m);
                    assert(out@ + queue@ =~= q);
                },
                None => {},
            }
        }
        assert(out@ =~= q);
        assert(outbox_view(self.messages@) =~= Seq::empty());
        out
    }

    /// Whether this instance has decided.
    pub fn is_decided(&self) -> (b: bool)
        ensures
            b == self@.decided,
    {
        self.decided
    }
}

/// One rank is at most another.
pub open spec fn rank_le(a: Rank, b: Rank) -> bool {
    rank_lt(a, b) || a == b
}

/// Starting a classic round never lowers the coordinator's rank, except when a
/// rank of the same round with a higher node index was already adopted: the
/// round number is kept and the node index becomes this member's own.
pub proof fn lemma_start_phase_1a_rank(s: PaxosView, round: u32)
    requires
        !(s.crnd.round == round && str_hash(s.my_addr) < s.crnd.node_index),
    ensures
        rank_le(s.crnd, start_phase_1a_spec(s, round).crnd),
{
}

/// An acceptor's promised rank never goes down.
pub proof fn lemma_phase_1a_rank_monotone(s: PaxosView, req: Phase1aView)
    ensures
        rank_le(s.crnd, handle_phase_1a_spec(s, req).crnd),
{
}

/// An acceptor's voted round never goes down, and it votes at most once per
/// round.
pub proof fn lemma_phase_2a_round_monotone(s: PaxosView, req: Phase2aView)
    ensures
        rank_le(s.rnd, handle_phase_2a_spec(s, req).rnd),
        s.vrnd == req.rnd ==> handle_phase_2a_spec(s, req) == s,
{
}

/// Messages of another configuration change nothing.
pub proof fn lemma_other_config_ignored(
    s: PaxosView,
    a: Phase1aView,
    b: Phase1bView,
    c: Phase2aView,
    d: Phase2bView,
)
    ensures
        a.config_id != s.config_id ==> handle_phase_1a_spec(s, a) == s,
        b.config_id != s.config_id ==> handle_phase_1b_spec(s, b) == s,
        c.config_id != s.config_id ==> handle_phase_2a_spec(s, c) == s,
        d.config_id != s.config_id ==> handle_phase_2b_spec(s, d) == (s, None::<Seq<Seq<char>>>),
{
}

/// Once decided, a Phase 2b vote decides nothing more.
pub proof fn lemma_decides_once(s: PaxosView, req: Phase2bView)
    requires
        s.decided,
    ensures
        handle_phase_2b_spec(s, req).1 is None,
        handle_phase_2b_spec(s, req).0.decided,
{
}

/// The round a selection starts from is the highest voting rank among the
/// promises, in the full order of ranks: no promise voted in a higher rank, and
/// some promise voted in it.
pub proof fn lemma_max_vrnd_is_highest(msgs: Seq<Phase1bView>)
    requires
        msgs.len() > 0,
    ensures
        forall|i: int| 0 <= i < msgs.len() ==> rank_le(#[trigger] msgs[i].vrnd, max_vrnd(msgs)),
        exists|i: int| 0 <= i < msgs.len() && #[trigger] msgs[i].vrnd == max_vrnd(msgs),
    decreases msgs.len(),
{
    if msgs.len() > 1 {
        let p = msgs.drop_last();
        lemma_max_vrnd_is_highest(p);
        let m = max_vrnd(p);
        assert forall|i: int| 0 <= i < msgs.len() implies rank_le(#[trigger] msgs[i].vrnd, max_vrnd(msgs)) by {
            if i < msgs.len() - 1 {
                assert(msgs[i] == p[i]);
                assert(rank_le(p[i].vrnd, m));
            }
        }
        if rank_lt(m, msgs.last().vrnd) {
            assert(msgs[msgs.len() - 1].vrnd == max_vrnd(msgs));
        } else {
            let j = choose|j: int| 0 <= j < p.len() && p[j].vrnd == m;
            assert(msgs[j] == p[j]);
        }
    } else {
        assert(msgs[0].vrnd == max_vrnd(msgs));
    }
}

/// Once a first vote is found among the first `n` promises, its value is the
/// value of the first promise that voted.
proof fn lemma_first_vote_only(msgs: Seq<Phase1bView>, k: Option<Rank>, i: int, n: nat)
    requires
        0 <= i < n <= msgs.len(),
        voted(msgs[i], k),
        forall|j: int| 0 <= j < n && j != i ==> !voted(#[trigger] msgs[j], k),
    ensures
        first_vote(msgs, k, n) == Some(msgs[i].vval),
    decreases n,
{
    if n - 1 > i {
        lemma_first_vote_only(msgs, k, i, (n - 1) as nat);
    } else {
        lemma_first_vote_none(msgs, k, i as nat);
    }
}

proof fn lemma_first_vote_none(msgs: Seq<Phase1bView>, k: Option<Rank>, n: nat)
    requires
        n <= msgs.len(),
        forall|j: int| 0 <= j < n ==> !voted(#[trigger] msgs[j], k),
    ensures
        first_vote(msgs, k, n) is None,
    decreases n,
{
    if n > 0 {
        lemma_first_vote_none(msgs, k, (n - 1) as nat);
    }
}

/// A value voted for in the one highest rank among the promises is the value
/// the coordinator proposes: a value that may have been chosen there is
/// proposed again.
pub proof fn lemma_highest_vote_chosen(msgs: Seq<Phase1bView>, size: nat, i: int)
    requires
        0 <= i < msgs.len(),
        msgs[i].vval.len() > 0,
        forall|j: int| 0 <= j < msgs.len() && j != i ==> rank_lt(#[trigger] msgs[j].vrnd, msgs[i].vrnd),
    ensures
        chosen_value(msgs, size) == msgs[i].vval,
{
    lemma_max_vrnd_is_highest(msgs);
    let k = max_vrnd(msgs);
    assert(rank_le(msgs[i].vrnd, k));
    let w = choose|w: int| 0 <= w < msgs.len() && #[trigger] msgs[w].vrnd == k;
    if w != i {
        assert(rank_lt(msgs[w].vrnd, msgs[i].vrnd));
    }
    assert(msgs[i].vrnd == k);
    assert forall|j: int| 0 <= j < msgs.len() && j != i implies !voted(#[trigger] msgs[j], Some(k)) by {
        assert(rank_lt(msgs[j].vrnd, msgs[i].vrnd));
    }
    lemma_first_vote_only(msgs, Some(k), i, msgs.len());
    assert(only_value(msgs, k, msgs[i].vval));
}

/// A promise answers a Phase 1a message of a higher rank with the acceptor's
/// current vote: the rank and value it last voted for.
pub proof fn lemma_promise_carries_vote(s: PaxosView, req: Phase1aView)
    requires
        req.config_id == s.config_id,
        rank_lt(s.crnd, req.rank),
    ensures
        ({
            let s2 = handle_phase_1a_spec(s, req);
            &&& s2.messages.len() == s.messages.len() + 1
            &&& s2.messages.last().0 == Some(req.sender)
            &&& s2.messages.last().1 matches MessageView::Request(
                RequestKindView::Consensus(ConsensusView::Phase1bMessage(p)),
            ) && p.vrnd == s.vrnd && p.vval == s.vval && p.rnd == s.rnd && p.sender == s.my_addr
            &&& s2.crnd == req.rank
        }),
{
}

/// A Phase 1a message whose rank is not above every round begun here changes
/// nothing and is not answered.
pub proof fn lemma_lower_prepare_ignored(s: PaxosView, req: Phase1aView)
    requires
        !rank_lt(s.crnd, req.rank),
    ensures
        handle_phase_1a_spec(s, req) == s,
{
}

/// What a coordinator proposes is a value some acceptor voted for; it is empty
/// exactly when no acceptor voted.
pub proof fn lemma_chosen_is_voted(msgs: Seq<Phase1bView>, size: nat)
    ensures
        chosen_value(msgs, size).len() > 0 ==> exists|i: int| 0 <= i < msgs.len() && #[trigger] msgs[i].vval == chosen_value(msgs, size),
        chosen_value(msgs, size).len() == 0 <==> forall|i: int| 0 <= i < msgs.len() ==> (#[trigger] msgs[i]).vval.len() == 0,
{
    if msgs.len() > 0 {
        let k = max_vrnd(msgs);
        lemma_first_vote_found(msgs, Some(k), msgs.len());
        lemma_first_vote_found(msgs, None, msgs.len());
        if exists|i: int| 0 <= i < msgs.len() && (#[trigger] msgs[i]).vval.len() > 0 {
            let i = choose|i: int| 0 <= i < msgs.len() && (#[trigger] msgs[i]).vval.len() > 0;
            assert(voted(msgs[i], None));
        }
    }
}

/// The first vote among the first `n` promises, when there is one, is the
/// non-empty value of one of them; there is none exactly when none of them
/// voted.
proof fn lemma_first_vote_found(msgs: Seq<Phase1bView>, k: Option<Rank>, n: nat)
    requires
        n <= msgs.len(),
    ensures
        first_vote(msgs, k, n) matches Some(v) ==> v.len() > 0 && exists|i: int| 0 <= i < n && #[trigger] msgs[i].vval == v,
        first_vote(msgs, k, n) is None <==> forall|i: int| 0 <= i < n ==> !voted(#[trigger] msgs[i], k),
    decreases n,
{
    if n > 0 {
        lemma_first_vote_found(msgs, k, (n - 1) as nat);
        if first_vote(msgs, k, (n - 1) as nat) is None && voted(msgs[n - 1], k) {
            assert(msgs[n - 1].vval == first_vote(msgs, k, n)->0);
        }
    }
}

/// After an acceptor votes for a Phase 2a value, its next promise to a
/// coordinator of a higher rank reports that vote: the value and its round.
pub proof fn lemma_vote_then_promise(s: PaxosView, a: Phase2aView, b: Phase1aView)
    requires
        a.config_id == s.config_id,
        rank_le(s.rnd, a.rnd),
        s.vrnd != a.rnd,
        b.config_id == s.config_id,
        rank_lt(s.crnd, b.rank),
    ensures
        ({
            let s2 = handle_phase_1a_spec(handle_phase_2a_spec(s, a), b);
            s2.messages.last().1 matches MessageView::Request(
                RequestKindView::Consensus(ConsensusView::Phase1bMessage(p)),
            ) && p.vval == a.vval && p.vrnd == a.rnd
        }),
{
}

} // verus!
