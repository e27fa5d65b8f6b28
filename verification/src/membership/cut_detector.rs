//! The multi-node cut detector.
//!
//! Observers report edges to their subjects. A subject with at least `low`
//! reports is "in flux"; one with `high` reports is ready to be proposed. A
//! proposal is only released once no subject is in flux, so that a cut that
//! involves several nodes is proposed as one.
use crate::assoc::{assoc, keys_distinct, lemma_assoc, lemma_assoc_push, lemma_assoc_update};
use crate::common::{Endpoint, RingNumber};
use crate::membership::ring::ring_hash;
use crate::membership::view::{predecessor_or_last, successor_or_first};
use crate::order::{contains_endpoint, remove_endpoint, str_views};
use crate::transport::proto::{Alert, EdgeStatus};
use vstd::prelude::*;
use vstd::set_lib::lemma_len_subset;

verus! {

/// The smallest number of observers per subject.
pub const NUM_MIN: usize = 3;

/// The abstract state of a cut detector.
pub struct CutDetectorView {
    pub num: nat,
    pub high: nat,
    pub low: nat,
    pub proposal_count: nat,
    pub updates_in_progress: nat,
    /// For each subject, the observer that reported it on each ring.
    pub reports: Map<Seq<char>, Map<RingNumber, Seq<char>>>,
    pub proposal: Seq<Seq<char>>,
    pub pre_proposal: Set<Seq<char>>,
    pub seen_down_link_events: bool,
}

/// The reports held about `dst`.
pub open spec fn reports_for(s: CutDetectorView, dst: Seq<char>) -> Map<RingNumber, Seq<char>> {
    if s.reports.dom().contains(dst) {
        s.reports[dst]
    } else {
        Map::empty()
    }
}

/// The subjects with at least `low` and fewer than `high` reports.
pub open spec fn in_flux(s: CutDetectorView) -> Set<Seq<char>> {
    s.reports.dom().filter(|h: Seq<char>| s.low <= s.reports[h].len() && s.reports[h].len() < s.high)
}

/// The subjects with at least `high` reports.
pub open spec fn stable_hosts(s: CutDetectorView) -> Set<Seq<char>> {
    s.reports.dom().filter(|h: Seq<char>| s.reports[h].len() >= s.high)
}

/// What every cut detector state satisfies.
pub open spec fn cut_inv(s: CutDetectorView) -> bool {
    &&& 0 < s.low <= s.high <= s.num
    &&& s.num >= NUM_MIN
    &&& s.reports.dom().finite()
    &&& forall|h: Seq<char>| #[trigger] s.reports.dom().contains(h) ==> s.reports[h].dom().finite()
    &&& s.pre_proposal == in_flux(s)
    &&& s.updates_in_progress == s.pre_proposal.len()
    &&& s.proposal.no_duplicates()
    &&& forall|i: int|
        0 <= i < s.proposal.len() ==> #[trigger] stable_hosts(s).contains(s.proposal[i])
    &&& s.proposal_count + s.proposal.len() <= stable_hosts(s).len()
}

/// The effect of one report that `src` sees its edge to `dst` on ring `ring` as
/// `status`: the next state and the proposal released, if any.
pub open spec fn aggregate_spec(
    s: CutDetectorView,
    src: Seq<char>,
    dst: Seq<char>,
    status: EdgeStatus,
    ring: RingNumber,
) -> (CutDetectorView, Seq<Seq<char>>) {
    let seen = s.seen_down_link_events || status == EdgeStatus::Down;
    let r = reports_for(s, dst);
    if r.dom().contains(ring) {
        (CutDetectorView { seen_down_link_events: seen, ..s }, Seq::empty())
    } else {
        let r2 = r.insert(ring, src);
        let n = r2.len();
        let reports = s.reports.insert(dst, r2);
        let updates1: nat = if n == s.low {
            s.updates_in_progress + 1
        } else {
            s.updates_in_progress
        };
        let pre1 = if n == s.low {
            s.pre_proposal.insert(dst)
        } else {
            s.pre_proposal
        };
        if n == s.high {
            let updates2: nat = (updates1 - 1) as nat;
            let proposal2 = s.proposal.push(dst);
            let pre2 = pre1.remove(dst);
            if updates2 == 0 {
                (
                    CutDetectorView {
                        seen_down_link_events: seen,
                        reports,
                        updates_in_progress: updates2,
                        pre_proposal: pre2,
                        proposal: Seq::empty(),
                        proposal_count: s.proposal_count + 1,
                        ..s
                    },
                    proposal2,
                )
            } else {
                (
                    CutDetectorView {
                        seen_down_link_events: seen,
                        reports,
                        updates_in_progress: updates2,
                        pre_proposal: pre2,
                        proposal: proposal2,
                        ..s
                    },
                    Seq::empty(),
                )
            }
        } else {
            (
                CutDetectorView {
                    seen_down_link_events: seen,
                    reports,
                    updates_in_progress: updates1,
                    pre_proposal: pre1,
                    ..s
                },
                Seq::empty(),
            )
        }
    }
}

/// The effect of the reports for the first `n` rings of `rings`.
pub open spec fn aggregate_rings(
    s: CutDetectorView,
    src: Seq<char>,
    dst: Seq<char>,
    status: EdgeStatus,
    rings: Seq<RingNumber>,
    n: nat,
) -> (CutDetectorView, Seq<Seq<char>>)
    decreases n,
{
    if n == 0 {
        (s, Seq::empty())
    } else {
        let (s1, out1) = aggregate_rings(s, src, dst, status, rings, (n - 1) as nat);
        let (s2, out2) = aggregate_spec(s1, src, dst, status, rings[n - 1]);
        (s2, out1 + out2)
    }
}

/// The observers of `node` that the view would use: its observers when it is a
/// member, else the observers it would have on joining.
pub open spec fn flux_observers(view: super::view::View, node: Seq<char>) -> Seq<Seq<char>> {
    if view.host_present(node) {
        if view.ring_view(0).len() <= 1 {
            Seq::empty()
        } else {
            Seq::new(view.k_spec() as nat, |i: int| successor_or_first(view.ring_view(i), ring_hash(i as u64, node)))
        }
    } else {
        if view.ring_view(0).len() == 0 {
            Seq::empty()
        } else {
            Seq::new(view.k_spec() as nat, |i: int| predecessor_or_last(view.ring_view(i), ring_hash(i as u64, node)))
        }
    }
}

/// The implicit reports from the first `n` of `obs` about `node`, for each
/// observer that is itself proposed or in flux.
pub open spec fn scan_observers(
    s: CutDetectorView,
    node: Seq<char>,
    status: EdgeStatus,
    obs: Seq<Seq<char>>,
    n: nat,
) -> (CutDetectorView, Seq<Seq<char>>)
    decreases n,
{
    if n == 0 {
        (s, Seq::empty())
    } else {
        let (s1, out1) = scan_observers(s, node, status, obs, (n - 1) as nat);
        if s1.proposal.contains(obs[n - 1]) || s1.pre_proposal.contains(obs[n - 1]) {
            let (s2, out2) = aggregate_spec(s1, obs[n - 1], node, status, (n - 1) as RingNumber);
            (s2, out1 + out2)
        } else {
            (s1, out1)
        }
    }
}

/// The implicit reports for the first `n` of the nodes in flux, taken in the
/// order `nodes`.
pub open spec fn scan_nodes(s: CutDetectorView, view: super::view::View, nodes: Seq<Seq<char>>, n: nat) -> (
    CutDetectorView,
    Seq<Seq<char>>,
)
    decreases n,
{
    if n == 0 {
        (s, Seq::empty())
    } else {
        let (s1, out1) = scan_nodes(s, view, nodes, (n - 1) as nat);
        let node = nodes[n - 1];
        let obs = flux_observers(view, node);
        let status = if view.host_present(node) {
            EdgeStatus::Up
        } else {
            EdgeStatus::Down
        };
        let (s2, out2) = scan_observers(s1, node, status, obs, obs.len());
        (s2, out1 + out2)
    }
}

/// The state after `clear`.
pub open spec fn cleared(s: CutDetectorView) -> CutDetectorView {
    CutDetectorView {
        proposal_count: 0,
        updates_in_progress: 0,
        reports: Map::empty(),
        proposal: Seq::empty(),
        pre_proposal: Set::empty(),
        seen_down_link_events: false,
        ..s
    }
}

/// The reports of one subject, as ring numbers and reporters.
pub open spec fn ring_reports_view(v: Seq<(RingNumber, Endpoint)>) -> Seq<(RingNumber, Seq<char>)> {
    v.map_values(|e: (RingNumber, Endpoint)| (e.0, e.1@))
}

/// The reports of every subject.
pub open spec fn host_reports_view(v: Seq<(Endpoint, Vec<(RingNumber, Endpoint)>)>) -> Seq<
    (Seq<char>, Map<RingNumber, Seq<char>>),
> {
    v.map_values(|e: (Endpoint, Vec<(RingNumber, Endpoint)>)| (e.0@, assoc(ring_reports_view(e.1@))))
}

/// Detects cuts: sets of nodes that enough observers agree have joined or
/// failed.
pub struct MultiNodeCutDetector {
    /// Number of observers per subject and vice versa
    num: usize,
    /// High water mark
    high: usize,
    /// Low water mark
    low: usize,
    proposal_count: usize,
    updates_in_progress: usize,
    reports_per_host: Vec<(Endpoint, Vec<(RingNumber, Endpoint)>)>,
    proposal: Vec<Endpoint>,
    pre_proposal: Vec<Endpoint>,
    seen_down_link_events: bool,
}

impl View for MultiNodeCutDetector {
    type V = CutDetectorView;

    closed spec fn view(&self) -> CutDetectorView {
        CutDetectorView {
            num: self.num as nat,
            high: self.high as nat,
            low: self.low as nat,
            proposal_count: self.proposal_count as nat,
            updates_in_progress: self.updates_in_progress as nat,
            reports: assoc(host_reports_view(self.reports_per_host@)),
            proposal: str_views(self.proposal@),
            pre_proposal: str_views(self.pre_proposal@).to_set(),
            seen_down_link_events: self.seen_down_link_events,
        }
    }
}

/// Position of the subject `dst` in `v`, if it has an entry.
fn find_host(v: &Vec<(Endpoint, Vec<(RingNumber, Endpoint)>)>, dst: &Endpoint) -> (r: Option<usize>)
    ensures
        r matches Some(i) ==> i < v@.len() && v@[i as int].0@ == dst@,
        r is None ==> forall|i: int| 0 <= i < v@.len() ==> (#[trigger] v@[i]).0@ != dst@,
{
    let mut i: usize = 0;
    while i < v.len()
        invariant
            i <= v@.len(),
            forall|j: int| 0 <= j < i ==> (#[trigger] v@[j]).0@ != dst@,
        decreases v@.len() - i,
    {
        if v[i].0 == *dst {
            return Some(i);
        }
        i += 1;
    }
    None
}

/// Whether ring `ring` has a report in `v`.
fn has_ring(v: &Vec<(RingNumber, Endpoint)>, ring: RingNumber) -> (b: bool)
    ensures
        b == exists|i: int| 0 <= i < v@.len() && v@[i].0 == ring,
{
    let mut i: usize = 0;
    while i < v.len()
        invariant
            i <= v@.len(),
            forall|j: int| 0 <= j < i ==> (#[trigger] v@[j]).0 != ring,
        decreases v@.len() - i,
    {
        if v[i].0 == ring {
            return true;
        }
        i += 1;
    }
    false
}


impl MultiNodeCutDetector {
    pub closed spec fn wf(&self) -> bool {
        &&& keys_distinct(host_reports_view(self.reports_per_host@))
        &&& forall|i: int|
            0 <= i < self.reports_per_host@.len() ==> keys_distinct(
                ring_reports_view(#[trigger] self.reports_per_host@[i].1@),
            )
        &&& str_views(self.pre_proposal@).no_duplicates()
        &&& self.updates_in_progress == self.pre_proposal@.len()
        &&& cut_inv(self@)
    }

    /// A well-formed cut detector keeps the invariant of its view: the laws
    /// stated of `cut_inv` apply to it.
    pub proof fn lemma_wf_inv(&self)
        requires
            self.wf(),
        ensures
            cut_inv(self@),
    {
    }

    /// A cut detector with `num` observers per subject and the watermarks `high`
    /// and `low`.
    pub fn new(num: usize, high: usize, low: usize) -> (c: Self)
        requires
            !(high > num || low > high || num < NUM_MIN || low <= 0 || high <= 0),
        ensures
            c.wf(),
            c@ == cleared(
                CutDetectorView {
                    num: num as nat,
                    high: high as nat,
                    low: low as nat,
                    proposal_count: 0,
                    updates_in_progress: 0,
                    reports: Map::empty(),
                    proposal: Seq::empty(),
                    pre_proposal: Set::empty(),
                    seen_down_link_events: false,
                },
            ),
    {
        let c = Self {
            num,
            high,
            low,
            proposal_count: 0,
            updates_in_progress: 0,
            reports_per_host: Vec::new(),
            proposal: Vec::new(),
            pre_proposal: Vec::new(),
            seen_down_link_events: false,
        };
        proof {
            assert(host_reports_view(c.reports_per_host@) =~= Seq::empty());
            assert(str_views(c.proposal@) =~= Seq::empty());
            assert(str_views(c.pre_proposal@) =~= Seq::empty());
            assert(c@.reports =~= Map::empty());
            assert(c@.pre_proposal =~= Set::empty());
            assert(in_flux(c@) =~= Set::empty());
            assert(stable_hosts(c@) =~= Set::empty());
        }
        c
    }

    /// The number of proposals released since the last `clear`.
    pub fn get_proposal_count(&mut self) -> (n: usize)
        ensures
            *final(self) == *old(self),
            n == old(self)@.proposal_count,
    {
        self.proposal_count
    }

    /// Forget every report and proposal.
    pub fn clear(&mut self)
        requires
            old(self).wf(),
        ensures
            final(self).wf(),
            final(self)@ == cleared(old(self)@),
    {
        self.reports_per_host = Vec::new();
        self.proposal = Vec::new();
        self.updates_in_progress = 0;
        self.proposal_count = 0;
        self.pre_proposal = Vec::new();
        self.seen_down_link_events = false;
        proof {
            assert(host_reports_view(self.reports_per_host@) =~= Seq::empty());
            assert(str_views(self.proposal@) =~= Seq::empty());
            assert(str_views(self.pre_proposal@) =~= Seq::empty());
            assert(self@.reports =~= Map::empty());
            assert(self@.pre_proposal =~= Set::empty());
            assert(in_flux(self@) =~= Set::empty());
            assert(stable_hosts(self@) =~= Set::empty());
            assert(self@ == cleared(old(self)@));
        }
    }

    /// The number of observers per subject.
    pub fn num(&self) -> (n: usize)
        ensures
            n == self@.num,
    {
        self.num
    }

    /// Take the report that `link_src` sees its edge to `link_dst` as
    /// `edge_status` on ring `ring_number`, and return the proposal it
    /// completes, if any.
    #[verifier::spinoff_prover]
    pub fn aggregate_for_proposal(
        &mut self,
        link_src: Endpoint,
        link_dst: Endpoint,
        edge_status: EdgeStatus,
        ring_number: RingNumber,
    ) -> (r: Vec<Endpoint>)
        requires
            old(self).wf(),
            ring_number as int <= old(self)@.num as i32 as int,
        ensures
            final(self).wf(),
            (final(self)@, str_views(r@)) == aggregate_spec(
                old(self)@,
                link_src@,
                link_dst@,
                edge_status,
                ring_number,
            ),
    {
        let ghost s = self@;
        proof {
            lemma_assoc(host_reports_view(self.reports_per_host@));
        }
        if edge_status == EdgeStatus::Down {
            self.seen_down_link_events = true;
        }
        let ghost seen = s.seen_down_link_events || edge_status == EdgeStatus::Down;
        let found = find_host(&self.reports_per_host, &link_dst);
        let idx = match found {
            Some(i) => {
                proof {
                    assert(host_reports_view(self.reports_per_host@)[i as int].0 == link_dst@);
                }
                i
            },
            None => {
                proof {
                    assert forall|i: int| 0 <= i < host_reports_view(self.reports_per_host@).len() implies
                        host_reports_view(self.reports_per_host@)[i].0 != link_dst@ by {
                        assert(host_reports_view(self.reports_per_host@)[i].0 == self.reports_per_host@[i].0@);
                    }
                    assert(!s.reports.dom().contains(link_dst@));
                }
                let ghost before = self.reports_per_host@;
                self.reports_per_host.push((link_dst.clone(), Vec::new()));
                proof {
                    let hv = host_reports_view(before);
                    assert(host_reports_view(self.reports_per_host@) =~= hv.push(
                        (link_dst@, Map::<RingNumber, Seq<char>>::empty()),
                    )) by {
                        assert(ring_reports_view(Seq::<(RingNumber, Endpoint)>::empty()) =~= Seq::empty());
                    }
                    lemma_assoc_push(hv, link_dst@, Map::<RingNumber, Seq<char>>::empty());
                    assert(ring_reports_view(self.reports_per_host@.last().1@) =~= Seq::empty());
                    assert forall|i: int| 0 <= i < self.reports_per_host@.len() implies keys_distinct(
                        ring_reports_view(#[trigger] self.reports_per_host@[i].1@),
                    ) by {
                        if i < before.len() {
                            assert(self.reports_per_host@[i] == before[i]);
                        }
                    }
                }
                self.reports_per_host.len() - 1
            },
        };
        let ghost hv = host_reports_view(self.reports_per_host@);
        let ghost cur = self.reports_per_host@[idx as int];
        proof {
            lemma_assoc(hv);
            assert(hv[idx as int].0 == link_dst@);
            assert(assoc(hv)[link_dst@] == assoc(ring_reports_view(cur.1@)));
            assert(reports_for(s, link_dst@) == assoc(ring_reports_view(cur.1@))) by {
                if !s.reports.dom().contains(link_dst@) {
                    assert(ring_reports_view(cur.1@) =~= Seq::empty());
                }
            }
            lemma_assoc(ring_reports_view(cur.1@));
        }
        if has_ring(&self.reports_per_host[idx].1, ring_number) {
            proof {
                let i = choose|i: int| 0 <= i < cur.1@.len() && cur.1@[i].0 == ring_number;
                assert(ring_reports_view(cur.1@)[i].0 == ring_number);
                assert(s.reports.dom().contains(link_dst@));
                assert(self@.reports =~= s.reports);
            }
            let empty: Vec<Endpoint> = Vec::new();
            assert(str_views(empty@) =~= Seq::empty());
            return empty;
        }
        proof {
            assert(!assoc(ring_reports_view(cur.1@)).dom().contains(ring_number)) by {
                if assoc(ring_reports_view(cur.1@)).dom().contains(ring_number) {
                    let i = choose|i: int| 0 <= i < ring_reports_view(cur.1@).len() && ring_reports_view(cur.1@)[i].0 == ring_number;
                    assert(cur.1@[i].0 == ring_number);
                }
            }
        }
        let ghost pre_seq = self.reports_per_host@;
        let mut entry = self.reports_per_host.remove(idx);
        let ghost src_view = link_src@;
        entry.1.push((ring_number, link_src));
        let n = entry.1.len();
        let ghost r2 = assoc(ring_reports_view(entry.1@));
        proof {
            assert(ring_reports_view(entry.1@) =~= ring_reports_view(cur.1@).push((ring_number, src_view)));
            lemma_assoc_push(ring_reports_view(cur.1@), ring_number, src_view);
            lemma_assoc(ring_reports_view(entry.1@));
            assert(r2 == reports_for(s, link_dst@).insert(ring_number, src_view));
            assert(r2.len() == n);
        }
        let ghost entry_val = entry;
        self.reports_per_host.insert(idx, entry);
        assert(self.reports_per_host@ =~= pre_seq.update(idx as int, entry_val));
        let ghost reports = s.reports.insert(link_dst@, r2);
        proof {
            assert(host_reports_view(self.reports_per_host@) =~= hv.update(idx as int, (link_dst@, r2)));
            lemma_assoc_update(hv, idx as int, r2);
            assert(self@.reports == reports) by {
                if !s.reports.dom().contains(link_dst@) {
                    assert(assoc(hv) == s.reports.insert(link_dst@, Map::<RingNumber, Seq<char>>::empty()));
                    assert(assoc(hv).insert(link_dst@, r2) =~= reports);
                } else {
                    assert(assoc(hv) =~= s.reports);
                }
            }
            assert forall|i: int| 0 <= i < self.reports_per_host@.len() implies keys_distinct(
                ring_reports_view(#[trigger] self.reports_per_host@[i].1@),
            ) by {
                if i != idx {
                    assert(self.reports_per_host@[i] == pre_seq[i]);
                }
            }
        }
        let ghost res = aggregate_spec(s, link_src@, link_dst@, edge_status, ring_number);
        proof {
            lemma_aggregate_inv(s, link_src@, link_dst@, edge_status, ring_number);
            lemma_inv_bounds(s);
            lemma_inv_bounds(res.0);
            lemma_assoc(host_reports_view(self.reports_per_host@));
            assert(self@.reports.dom().len() == self.reports_per_host@.len());
            assert(res.0.reports == reports);
            assert(str_views(self.pre_proposal@).to_set() == s.pre_proposal);
            str_views(self.pre_proposal@).unique_seq_to_set();
        }
        let hosts = self.reports_per_host.len();
        if n == self.low {
            proof {
                assert(!s.pre_proposal.contains(link_dst@)) by {
                    if s.pre_proposal.contains(link_dst@) {
                        assert(in_flux(s).contains(link_dst@));
                        assert(s.reports[link_dst@].len() + 1 == n);
                    }
                }
                assert(s.pre_proposal.insert(link_dst@).subset_of(reports.dom()));
                lemma_len_subset(s.pre_proposal.insert(link_dst@), reports.dom());
                assert(s.pre_proposal.insert(link_dst@).len() == s.pre_proposal.len() + 1);
                assert(reports.dom().len() == hosts);
                assert(self.updates_in_progress == s.pre_proposal.len());
            }
            self.updates_in_progress = self.updates_in_progress + 1;
            let ghost before = str_views(self.pre_proposal@);
            self.pre_proposal.push(link_dst.clone());
            proof {
                assert(str_views(self.pre_proposal@) =~= before.push(link_dst@));
                before.lemma_push_to_set_commute(link_dst@);
                assert(str_views(self.pre_proposal@).no_duplicates()) by {
                    let t = str_views(self.pre_proposal@);
                    assert forall|a: int, b: int| 0 <= a < b < t.len() implies t[a] != t[b] by {
                        if b == t.len() - 1 {
                            assert(before.contains(before[a]));
                        } else {
                            assert(t[a] == before[a] && t[b] == before[b]);
                        }
                    }
                }
            }
        }
        if n == self.high {
            proof {
                assert(str_views(self.pre_proposal@).contains(link_dst@)) by {
                    if n != self.low {
                        assert(in_flux(s).contains(link_dst@));
                        assert(s.pre_proposal.contains(link_dst@));
                    } else {
                        assert(str_views(self.pre_proposal@).last() == link_dst@);
                    }
                }
            }
            remove_endpoint(&mut self.pre_proposal, &link_dst);
            self.updates_in_progress = self.updates_in_progress - 1;
            let ghost before = str_views(self.proposal@);
            self.proposal.push(link_dst);
            proof {
                assert(str_views(self.proposal@) =~= before.push(res.1.last()) || true);
            }
            if self.updates_in_progress == 0 {
                proof {
                    assert(res.0.proposal_count == self.proposal_count + 1);
                    assert(res.0.proposal.len() == 0);
                    assert(res.0.reports.dom().len() == hosts);
                }
                self.proposal_count = self.proposal_count + 1;
                let mut ret: Vec<Endpoint> = Vec::new();
                std::mem::swap(&mut ret, &mut self.proposal);
                proof {
                    assert(str_views(self.proposal@) =~= Seq::empty());
                    assert(self@.pre_proposal =~= res.0.pre_proposal);
                    assert(str_views(ret@) =~= res.1);
                    assert(self@ == res.0);
                }
                return ret;
            }
            proof {
                assert(self@.pre_proposal =~= res.0.pre_proposal);
                assert(self@.proposal =~= res.0.proposal);
                assert(self@ == res.0);
            }
        } else {
            proof {
                assert(self@.pre_proposal =~= res.0.pre_proposal);
                assert(self@ == res.0);
            }
        }
        let empty: Vec<Endpoint> = Vec::new();
        assert(str_views(empty@) =~= Seq::empty());
        empty
    }

    /// Take every ring of an alert, in order, and return the proposals released.
    pub fn aggregate(&mut self, message: Alert) -> (r: Vec<Endpoint>)
        requires
            old(self).wf(),
            forall|i: int|
                0 <= i < message.ring_number@.len() ==> (#[trigger] message.ring_number@[i]) as int
                    <= old(self)@.num as i32 as int,
        ensures
            final(self).wf(),
            final(self)@.num == old(self)@.num,
            (final(self)@, str_views(r@)) == aggregate_rings(
                old(self)@,
                message.src@,
                message.dst@,
                message.edge_status,
                message.ring_number@,
                message.ring_number@.len(),
            ),
    {
        let mut out: Vec<Endpoint> = Vec::new();
        let mut i: usize = 0;
        let ghost s0 = self@;
        assert(str_views(out@) =~= Seq::empty());
        while i < message.ring_number.len()
            invariant
                self.wf(),
                self@.num == s0.num,
                i <= message.ring_number@.len(),
                forall|j: int|
                    0 <= j < message.ring_number@.len() ==> (#[trigger] message.ring_number@[j]) as int
                        <= s0.num as i32 as int,
                (self@, str_views(out@)) == aggregate_rings(
                    s0,
                    message.src@,
                    message.dst@,
                    message.edge_status,
                    message.ring_number@,
                    i as nat,
                ),
            decreases message.ring_number@.len() - i,
        {
            let ring = message.ring_number[i];
            let mut found = self.aggregate_for_proposal(
                message.src.clone(),
                message.dst.clone(),
                message.edge_status,
                ring,
            );
            let ghost before = str_views(out@);
            let ghost add = str_views(found@);
            out.append(&mut found);
            assert(str_views(out@) =~= before + add);
            i += 1;
        }
        out
    }

    /// Complete the reports that are implied between nodes that are themselves
    /// changing: for every node in flux, each of its observers that is proposed
    /// or in flux reports it, up if the node is a member and down if not. Only
    /// done once a down edge has been reported.
    ///
    /// The nodes in flux are taken in some order; the result is the one that
    /// order gives.
    pub fn invalidate_failing_edges(&mut self, view: &mut super::view::View) -> (r: Vec<Endpoint>)
        requires
            old(self).wf(),
            old(view).wf(),
            old(view).populated(),
            old(view).k_spec() - 1 <= old(self)@.num as i32 as int,
        ensures
            final(self).wf(),
            final(self)@.num == old(self)@.num,
            *final(view) == *old(view),
            !old(self)@.seen_down_link_events ==> final(self)@ == old(self)@ && r@.len() == 0,
            old(self)@.seen_down_link_events ==> exists|order: Seq<Seq<char>>|
                {
                    &&& order.no_duplicates()
                    &&& order.to_set() == old(self)@.pre_proposal
                    &&& (final(self)@, str_views(r@)) == scan_nodes(
                        old(self)@,
                        *old(view),
                        order,
                        order.len(),
                    )
                },
            old(self)@.seen_down_link_events && observers_pending(old(self)@, *old(view)) ==> {
                &&& final(self)@.pre_proposal.len() == 0
                &&& old(self)@.pre_proposal.len() > 0 ==> r@.len() > 0 && final(self)@.proposal.len() == 0
                &&& old(self)@.pre_proposal.len() > 0 ==> forall|x: Seq<char>|
                    pending(old(self)@, x) ==> #[trigger] str_views(r@).contains(x)
            },
    {
        if !self.seen_down_link_events {
            return Vec::new();
        }
        let ghost s0 = self@;
        let ghost v0 = *view;
        let nodes = crate::transport::proto::clone_endpoints(&self.pre_proposal);
        let ghost order = str_views(nodes@);
        let mut out: Vec<Endpoint> = Vec::new();
        assert(str_views(out@) =~= Seq::empty());
        let mut i: usize = 0;
        while i < nodes.len()
            invariant
                self.wf(),
                self@.num == s0.num,
                *view == v0,
                view.wf(),
                view.populated(),
                view.k_spec() - 1 <= s0.num as i32 as int,
                order == str_views(nodes@),
                i <= nodes@.len(),
                (self@, str_views(out@)) == scan_nodes(s0, v0, order, i as nat),
            decreases nodes@.len() - i,
        {
            let node = &nodes[i];
            let present = view.is_host_present(node);
            let observers = if present {
                match view.get_observers(node) {
                    Ok(v) => v,
                    Err(_) => Vec::new(),
                }
            } else {
                view.get_expected_observers(node)
            };
            let ghost obs = str_views(observers@);
            assert(obs =~= flux_observers(v0, node@));
            assert(observers@.len() == obs.len());
            proof {
                view.lemma_wf();
            }
            assert(flux_observers(v0, node@).len() <= v0.k_spec());
            let status = if present {
                EdgeStatus::Up
            } else {
                EdgeStatus::Down
            };
            let ghost s1 = self@;
            let ghost out1 = str_views(out@);
            let mut acc: Vec<Endpoint> = Vec::new();
            assert(str_views(acc@) =~= Seq::empty());
            let mut j: usize = 0;
            while j < observers.len()
                invariant
                    self.wf(),
                    self@.num == s0.num,
                    view.k_spec() - 1 <= s0.num as i32 as int,
                    obs == str_views(observers@),
                    observers@.len() <= view.k_spec(),
                    j <= observers@.len(),
                    (self@, str_views(acc@)) == scan_observers(s1, node@, status, obs, j as nat),
                decreases observers@.len() - j,
            {
                let observer = &observers[j];
                if contains_endpoint(&self.proposal, observer) || contains_endpoint(&self.pre_proposal, observer) {
                    proof {
                        str_views(self.pre_proposal@).lemma_push_to_set_commute(observer@);
                    }
                    let mut found = self.aggregate_for_proposal(observer.clone(), node.clone(), status, j as i32);
                    let ghost before = str_views(acc@);
                    let ghost add = str_views(found@);
                    acc.append(&mut found);
                    assert(str_views(acc@) =~= before + add);
                } else {
                    proof {
                        if self@.pre_proposal.contains(obs[j as int]) {
                            assert(str_views(self.pre_proposal@).contains(obs[j as int]));
                        }
                    }
                }
                j += 1;
            }
            assert(obs.len() == observers@.len());
            let ghost before = str_views(out@);
            let ghost add = str_views(acc@);
            out.append(&mut acc);
            assert(str_views(out@) =~= before + add);
            i += 1;
        }
        proof {
            assert(order.to_set() == s0.pre_proposal);
            assert(order.no_duplicates());
            assert(v0.wf());
            assert(s0 == old(self)@);
            assert(v0 == *old(view));
            assert(str_views(out@) == scan_nodes(s0, v0, order, order.len()).1);
            if observers_pending(s0, v0) {
                assert forall|i: int| 0 <= i < order.len() implies s0.high <= (#[trigger] flux_observers(v0, order[i])).len()
                    <= 0x8000_0000 by {
                    assert(order.to_set().contains(order[i]));
                    assert(s0.pre_proposal.contains(order[i]));
                    let x = order[i];
                    let fo = flux_observers(v0, x);
                    v0.lemma_k_bound();
                    v0.lemma_wf();
                    assert(fo.len() <= v0.k_spec());
                    assert(s0.pre_proposal.contains(x) && flux_observers(v0, x)[0] == fo[0]);
                    assert(s0.high <= flux_observers(v0, x).len());
                }
                assert forall|i: int, jj: int|
                    0 <= i < order.len() && 0 <= jj < flux_observers(v0, order[i]).len() implies pending(
                    s0,
                    #[trigger] flux_observers(v0, order[i])[jj],
                ) by {
                    assert(order.to_set().contains(order[i]));
                    assert(s0.pre_proposal.contains(order[i]));
                }
                lemma_invalidation_releases(s0, v0, order);
                assert(self@ == scan_nodes(s0, v0, order, order.len()).0);
                assert(self@.pre_proposal.len() == 0);
                if s0.pre_proposal.len() > 0 {
                    assert(out@.len() > 0);
                    assert(self@.proposal.len() == 0);
                    assert forall|x: Seq<char>| pending(s0, x) implies #[trigger] str_views(out@).contains(x) by {
                        assert(scan_nodes(s0, v0, order, order.len()).1.contains(x));
                    }
                }
            }
        }
        out
    }
}

/// Bounds that every cut detector state satisfies.
pub proof fn lemma_inv_bounds(s: CutDetectorView)
    requires
        cut_inv(s),
    ensures
        s.pre_proposal.finite(),
        s.updates_in_progress <= s.reports.dom().len(),
        s.proposal_count + s.proposal.len() <= s.reports.dom().len(),
{
    lemma_len_subset(in_flux(s), s.reports.dom());
    lemma_len_subset(stable_hosts(s), s.reports.dom());
}

/// Every report keeps the invariant of the cut detector.
pub proof fn lemma_aggregate_inv(
    s: CutDetectorView,
    src: Seq<char>,
    dst: Seq<char>,
    status: EdgeStatus,
    ring: RingNumber,
)
    requires
        cut_inv(s),
    ensures
        cut_inv(aggregate_spec(s, src, dst, status, ring).0),
{
    let s2 = aggregate_spec(s, src, dst, status, ring).0;
    let r = reports_for(s, dst);
    if r.dom().contains(ring) {
        assert(in_flux(s2) =~= in_flux(s));
        assert(stable_hosts(s2) =~= stable_hosts(s));
    } else {
        let r2 = r.insert(ring, src);
        let n = r2.len();
        assert(r.dom().finite());
        assert(n == r.len() + 1);
        assert(s2.reports == s.reports.insert(dst, r2));
        assert forall|h: Seq<char>| #[trigger] in_flux(s2).contains(h) <==> (if h == dst {
            s.low <= n && n < s.high
        } else {
            in_flux(s).contains(h)
        }) by {}
        assert forall|h: Seq<char>| #[trigger] stable_hosts(s2).contains(h) <==> (if h == dst {
            n >= s.high
        } else {
            stable_hosts(s).contains(h)
        }) by {}
        assert(in_flux(s).contains(dst) <==> (s.low <= n - 1 && n - 1 < s.high)) by {
            if !s.reports.dom().contains(dst) {
                assert(r.len() == 0);
            }
        }
        assert(stable_hosts(s).contains(dst) <==> n - 1 >= s.high) by {
            if !s.reports.dom().contains(dst) {
                assert(r.len() == 0);
            }
        }
        assert(in_flux(s2).finite()) by {
            assert(in_flux(s2).subset_of(s2.reports.dom()));
            lemma_len_subset(in_flux(s2), s2.reports.dom());
        }
        if n == s.low {
            if n == s.high {
                assert(s2.pre_proposal =~= in_flux(s2));
            } else {
                assert(s2.pre_proposal =~= in_flux(s2));
            }
        } else {
            if n == s.high {
                assert(s2.pre_proposal =~= in_flux(s2));
            } else {
                assert(s2.pre_proposal =~= in_flux(s2));
            }
        }
        if n == s.high {
            assert(stable_hosts(s2) =~= stable_hosts(s).insert(dst));
            assert(!s.proposal.contains(dst));
            assert forall|i: int| 0 <= i < s2.proposal.len() implies #[trigger] stable_hosts(s2).contains(
                s2.proposal[i],
            ) by {
                if s2.proposal.len() > 0 && i < s.proposal.len() {
                    assert(stable_hosts(s).contains(s.proposal[i]));
                    assert(s.proposal[i] != dst);
                }
            }
            if s2.proposal.len() > 0 {
                assert(s2.proposal.no_duplicates()) by {
                    assert forall|a: int, b: int| 0 <= a < b < s2.proposal.len() implies s2.proposal[a] != s2.proposal[b] by {
                        if b == s.proposal.len() {
                            assert(s.proposal.contains(s.proposal[a]));
                        }
                    }
                }
            }
        } else {
            assert(stable_hosts(s2) =~= stable_hosts(s));
            assert forall|i: int| 0 <= i < s2.proposal.len() implies #[trigger] stable_hosts(s2).contains(
                s2.proposal[i],
            ) by {
                assert(stable_hosts(s).contains(s.proposal[i]));
            }
        }
    }
}

/// A report on a ring already reported for the subject changes nothing but
/// the record that a down edge was seen, and releases nothing.
pub proof fn lemma_duplicate_report_ignored(
    s: CutDetectorView,
    src: Seq<char>,
    dst: Seq<char>,
    status: EdgeStatus,
    ring: RingNumber,
)
    requires
        reports_for(s, dst).dom().contains(ring),
    ensures
        aggregate_spec(s, src, dst, status, ring).0 == (CutDetectorView {
            seen_down_link_events: s.seen_down_link_events || status == EdgeStatus::Down,
            ..s
        }),
        aggregate_spec(s, src, dst, status, ring).1.len() == 0,
{
}

/// A report releases a proposal only when no subject is left in flux; every
/// subject released has reached the high watermark, and the count of
/// proposals goes up by one exactly when one is released.
pub proof fn lemma_release_only_when_stable(
    s: CutDetectorView,
    src: Seq<char>,
    dst: Seq<char>,
    status: EdgeStatus,
    ring: RingNumber,
)
    requires
        cut_inv(s),
    ensures
        ({
            let (s2, out) = aggregate_spec(s, src, dst, status, ring);
            &&& out.len() > 0 ==> {
                &&& in_flux(s2) == Set::<Seq<char>>::empty()
                &&& forall|i: int| 0 <= i < out.len() ==> #[trigger] stable_hosts(s2).contains(out[i])
                &&& s2.proposal.len() == 0
            }
            &&& s2.proposal_count == s.proposal_count + if out.len() > 0 {
                1int
            } else {
                0int
            }
        }),
{
    lemma_aggregate_inv(s, src, dst, status, ring);
    let (s2, out) = aggregate_spec(s, src, dst, status, ring);
    if out.len() > 0 {
        lemma_inv_bounds(s2);
        assert(s2.pre_proposal.len() == 0);
        assert(in_flux(s2) =~= Set::<Seq<char>>::empty()) by {
            assert(s2.pre_proposal.finite());
            if in_flux(s2).len() == 0 {
                in_flux(s2).lemma_len0_is_empty();
            }
        }
        let r = reports_for(s, dst);
        let r2 = r.insert(ring, src);
        assert(stable_hosts(s2).contains(dst)) by {
            assert(r.dom().finite());
            assert(s2.reports[dst] == r2);
        }
        assert forall|i: int| 0 <= i < out.len() implies #[trigger] stable_hosts(s2).contains(out[i]) by {
            if i < s.proposal.len() {
                assert(out[i] == s.proposal[i]);
                assert(stable_hosts(s).contains(s.proposal[i]));
                assert(s.proposal[i] != dst) by {
                    if s.proposal[i] == dst {
                        assert(s.reports[dst].len() >= s.high);
                        assert(r.len() + 1 == s.high);
                    }
                }
            }
        }
    }
}

/// A subject is released once: once it has reached the high watermark and is
/// not waiting in the proposal being built, no later report releases it or
/// puts it back there, and its reports stay at or above the watermark.
pub proof fn lemma_released_once(
    s: CutDetectorView,
    src: Seq<char>,
    dst: Seq<char>,
    status: EdgeStatus,
    ring: RingNumber,
    x: Seq<char>,
)
    requires
        cut_inv(s),
        reports_for(s, x).len() >= s.high,
        !s.proposal.contains(x),
    ensures
        ({
            let (s2, out) = aggregate_spec(s, src, dst, status, ring);
            &&& reports_for(s2, x).len() >= s.high
            &&& !out.contains(x)
            &&& !s2.proposal.contains(x)
        }),
{
    let (s2, out) = aggregate_spec(s, src, dst, status, ring);
    let r = reports_for(s, dst);
    assert(s.reports.dom().contains(x));
    if !r.dom().contains(ring) {
        if s.reports.dom().contains(dst) {
            assert(r.dom().finite());
        } else {
            assert(r.dom() =~= Set::<RingNumber>::empty());
        }
        let r2 = r.insert(ring, src);
        assert(r2.len() == r.len() + 1);
        if dst == x {
            assert(r2.len() > s.high);
        }
        if r2.len() == s.high {
            assert(dst != x);
            assert(!s.proposal.push(dst).contains(x)) by {
                if s.proposal.push(dst).contains(x) {
                    let i = choose|i: int| 0 <= i < s.proposal.push(dst).len() && s.proposal.push(dst)[i] == x;
                    assert(i < s.proposal.len());
                }
            }
        }
    }
}

/// Reports taken one after another, each an observer, a subject, the edge's
/// status and a ring: the state after the first `n` and every subject
/// released on the way, in order.
pub open spec fn aggregate_all(
    s: CutDetectorView,
    reports: Seq<(Seq<char>, Seq<char>, EdgeStatus, RingNumber)>,
    n: nat,
) -> (CutDetectorView, Seq<Seq<char>>)
    decreases n,
{
    if n == 0 {
        (s, Seq::empty())
    } else {
        let (s1, out1) = aggregate_all(s, reports, (n - 1) as nat);
        let r = reports[n - 1];
        let (s2, out2) = aggregate_spec(s1, r.0, r.1, r.2, r.3);
        (s2, out1 + out2)
    }
}

proof fn lemma_aggregate_all_step(
    s: CutDetectorView,
    reports: Seq<(Seq<char>, Seq<char>, EdgeStatus, RingNumber)>,
    n: nat,
)
    requires
        cut_inv(s),
        n <= reports.len(),
    ensures
        ({
            let (s2, out) = aggregate_all(s, reports, n);
            &&& cut_inv(s2)
            &&& s2.high == s.high
            &&& out.no_duplicates()
            &&& forall|i: int| 0 <= i < out.len() ==> !s2.proposal.contains(#[trigger] out[i])
            &&& forall|i: int| 0 <= i < out.len() ==> reports_for(s2, #[trigger] out[i]).len() >= s.high
        }),
    decreases n,
{
    if n > 0 {
        lemma_aggregate_all_step(s, reports, (n - 1) as nat);
        let (s1, out1) = aggregate_all(s, reports, (n - 1) as nat);
        let r = reports[n - 1];
        let (s2, out2) = aggregate_spec(s1, r.0, r.1, r.2, r.3);
        let out = out1 + out2;
        lemma_aggregate_inv(s1, r.0, r.1, r.2, r.3);
        lemma_release_only_when_stable(s1, r.0, r.1, r.2, r.3);
        assert forall|i: int| 0 <= i < out1.len() implies !out2.contains(#[trigger] out1[i]) && !s2.proposal.contains(
            out1[i],
        ) && reports_for(s2, out1[i]).len() >= s.high by {
            lemma_released_once(s1, r.0, r.1, r.2, r.3, out1[i]);
        }
        if out2.len() > 0 {
            let rd = reports_for(s1, r.1);
            assert(!rd.dom().contains(r.3));
            assert(out2 == s1.proposal.push(r.1));
            if s1.reports.dom().contains(r.1) {
                assert(rd.dom().finite());
            } else {
                assert(rd.dom() =~= Set::<RingNumber>::empty());
            }
            assert(rd.insert(r.3, r.0).len() == rd.len() + 1);
            assert(!s1.proposal.contains(r.1)) by {
                if s1.proposal.contains(r.1) {
                    let k = choose|k: int| 0 <= k < s1.proposal.len() && s1.proposal[k] == r.1;
                    assert(stable_hosts(s1).contains(s1.proposal[k]));
                }
            }
            assert forall|a: int, b: int| 0 <= a < b < out2.len() implies out2[a] != out2[b] by {
                if b == out2.len() - 1 {
                    assert(s1.proposal.contains(out2[a]));
                }
            }
            assert forall|i: int| 0 <= i < out2.len() implies reports_for(s2, #[trigger] out2[i]).len() >= s.high by {
                assert(stable_hosts(s2).contains(out2[i]));
            }
        }
        assert forall|a: int, b: int| 0 <= a < b < out.len() implies out[a] != out[b] by {
            if b >= out1.len() && a < out1.len() {
                assert(out2.contains(out[b]));
                assert(out[b] == out2[b - out1.len()]);
            } else if a >= out1.len() {
                assert(out[a] == out2[a - out1.len()] && out[b] == out2[b - out1.len()]);
            }
        }
        assert forall|i: int| 0 <= i < out.len() implies !s2.proposal.contains(#[trigger] out[i]) && reports_for(
            s2,
            out[i],
        ).len() >= s.high by {
            if i >= out1.len() {
                assert(out[i] == out2[i - out1.len()]);
                assert(s2.proposal.len() == 0);
            }
        }
    }
}

/// Taking reports one after another releases each subject at most once: no
/// subject occurs twice among all that is released, and each has reached the
/// high watermark.
pub proof fn lemma_released_at_most_once(
    s: CutDetectorView,
    reports: Seq<(Seq<char>, Seq<char>, EdgeStatus, RingNumber)>,
)
    requires
        cut_inv(s),
    ensures
        aggregate_all(s, reports, reports.len()).1.no_duplicates(),
        forall|i: int|
            0 <= i < aggregate_all(s, reports, reports.len()).1.len() ==> reports_for(
                aggregate_all(s, reports, reports.len()).0,
                #[trigger] aggregate_all(s, reports, reports.len()).1[i],
            ).len() >= s.high,
{
    lemma_aggregate_all_step(s, reports, reports.len());
}

/// Whether `x` is in flux or waits in the proposal being built.
pub open spec fn pending(s: CutDetectorView, x: Seq<char>) -> bool {
    s.pre_proposal.contains(x) || s.proposal.contains(x)
}

proof fn lemma_agg_effect(s: CutDetectorView, src: Seq<char>, dst: Seq<char>, status: EdgeStatus, ring: RingNumber)
    requires
        cut_inv(s),
    ensures
        ({
            let (s2, out) = aggregate_spec(s, src, dst, status, ring);
            &&& cut_inv(s2)
            &&& s2.high == s.high && s2.low == s.low && s2.num == s.num
            &&& forall|x: Seq<char>| x != dst ==> #[trigger] reports_for(s2, x) == reports_for(s, x)
            &&& forall|x: Seq<char>| pending(s, x) ==> #[trigger] pending(s2, x) || out.contains(x)
            &&& out.len() > 0 ==> s2.pre_proposal.len() == 0 && s2.proposal.len() == 0
            &&& settled(s, dst) ==> s2.pre_proposal == s.pre_proposal && s2.proposal == s.proposal && out.len() == 0
                && settled(s2, dst)
            &&& s.pre_proposal.len() > 0 && s2.pre_proposal.len() == 0 ==> out.len() > 0
            &&& s.pre_proposal.contains(dst) ==> s2.pre_proposal.contains(dst) || settled(s2, dst)
        }),
{
    let (s2, out) = aggregate_spec(s, src, dst, status, ring);
    lemma_aggregate_inv(s, src, dst, status, ring);
    lemma_inv_bounds(s);
    lemma_inv_bounds(s2);
    let r = reports_for(s, dst);
    if s.reports.dom().contains(dst) {
        assert(r.dom().finite());
    } else {
        assert(r.dom() =~= Set::<RingNumber>::empty());
    }
    if !r.dom().contains(ring) {
        let r2 = r.insert(ring, src);
        assert(r2.dom() =~= r.dom().insert(ring));
        assert(r2.len() == r.len() + 1);
        assert(s2.reports[dst] == r2);
        if s.pre_proposal.len() > 0 {
            let y = s.pre_proposal.choose();
            if s.pre_proposal.len() != 0 {
                assert(s.pre_proposal.contains(y)) by {
                    if !s.pre_proposal.contains(y) {
                        s.pre_proposal.lemma_len0_is_empty();
                    }
                }
            }
            if r2.len() != s.high {
                assert(s2.pre_proposal.contains(y));
                assert(s2.pre_proposal.len() > 0) by {
                    if s2.pre_proposal.len() == 0 {
                        s2.pre_proposal.lemma_len0_is_empty();
                    }
                }
            }
        }
        if out.len() > 0 {
            assert forall|x: Seq<char>| pending(s, x) implies #[trigger] pending(s2, x) || out.contains(x) by {
                if s.pre_proposal.contains(x) && x != dst {
                    assert(s2.pre_proposal.contains(x));
                    assert(s2.pre_proposal.len() > 0) by {
                        if s2.pre_proposal.len() == 0 {
                            s2.pre_proposal.lemma_len0_is_empty();
                        }
                    }
                }
                if s.proposal.contains(x) {
                    let k = choose|k: int| 0 <= k < s.proposal.len() && s.proposal[k] == x;
                    assert(out[k] == x);
                }
                if x == dst {
                    assert(out[out.len() - 1] == x);
                }
            }
        } else if r2.len() == s.high {
            assert forall|x: Seq<char>| pending(s, x) implies #[trigger] pending(s2, x) || out.contains(x) by {
                if s.proposal.contains(x) {
                    let k = choose|k: int| 0 <= k < s.proposal.len() && s.proposal[k] == x;
                    assert(s2.proposal[k] == x);
                }
                if x == dst {
                    assert(s2.proposal[s2.proposal.len() - 1] == x);
                }
            }
        }
    }
}

proof fn lemma_scan_effect(s: CutDetectorView, node: Seq<char>, status: EdgeStatus, obs: Seq<Seq<char>>, k: nat)
    requires
        cut_inv(s),
        k <= obs.len(),
        s.pre_proposal.contains(node) || settled(s, node),
    ensures
        ({
            let (sk, out) = scan_observers(s, node, status, obs, k);
            &&& cut_inv(sk)
            &&& sk.high == s.high && sk.low == s.low && sk.num == s.num
            &&& sk.pre_proposal.contains(node) || settled(sk, node)
            &&& forall|x: Seq<char>| x != node ==> #[trigger] reports_for(sk, x) == reports_for(s, x)
            &&& forall|x: Seq<char>| pending(s, x) ==> #[trigger] pending(sk, x) || out.contains(x)
            &&& out.len() > 0 ==> sk.pre_proposal.len() == 0 && sk.proposal.len() == 0
            &&& settled(s, node) ==> sk.pre_proposal == s.pre_proposal && sk.proposal == s.proposal && out.len() == 0
            &&& s.pre_proposal.len() > 0 && sk.pre_proposal.len() == 0 ==> out.len() > 0
        }),
    decreases k,
{
    if k > 0 {
        lemma_scan_effect(s, node, status, obs, (k - 1) as nat);
        let (s1, out1) = scan_observers(s, node, status, obs, (k - 1) as nat);
        let o = obs[k - 1];
        let ring = (k - 1) as RingNumber;
        if s1.proposal.contains(o) || s1.pre_proposal.contains(o) {
            lemma_agg_effect(s1, o, node, status, ring);
            let (s2, out2) = aggregate_spec(s1, o, node, status, ring);
            let out = out1 + out2;
            assert(scan_observers(s, node, status, obs, k) == (s2, out));
            if out1.len() > 0 {
                lemma_inv_bounds(s1);
                assert(!s1.pre_proposal.contains(node)) by {
                    if s1.pre_proposal.contains(node) {
                        s1.pre_proposal.lemma_len0_is_empty();
                    }
                }
            }
            assert forall|x: Seq<char>| pending(s, x) implies #[trigger] pending(s2, x) || out.contains(x) by {
                if pending(s1, x) {
                    if !pending(s2, x) {
                        let q = choose|q: int| 0 <= q < out2.len() && out2[q] == x;
                        assert(out[out1.len() + q] == x);
                    }
                } else {
                    let q = choose|q: int| 0 <= q < out1.len() && out1[q] == x;
                    assert(out[q] == x);
                }
            }
        }
    }
}

/// Implicit reports from proposed or in-flux observers settle every node in
/// flux: when each node in flux has at least as many observers as the high
/// watermark, each of them proposed or in flux, completing their reports in
/// any order leaves no node in flux, and releases the proposal with every
/// node that was proposed or in flux.
pub proof fn lemma_invalidation_releases(s: CutDetectorView, view: super::view::View, order: Seq<Seq<char>>)
    requires
        cut_inv(s),
        order.to_set() == s.pre_proposal,
        forall|i: int|
            0 <= i < order.len() ==> s.high <= (#[trigger] flux_observers(view, order[i])).len() <= 0x8000_0000,
        forall|i: int, j: int|
            0 <= i < order.len() && 0 <= j < flux_observers(view, order[i]).len() ==> pending(
                s,
                #[trigger] flux_observers(view, order[i])[j],
            ),
    ensures
        scan_nodes(s, view, order, order.len()).0.pre_proposal.len() == 0,
        s.pre_proposal.len() > 0 ==> scan_nodes(s, view, order, order.len()).1.len() > 0
            && scan_nodes(s, view, order, order.len()).0.proposal.len() == 0,
        s.pre_proposal.len() > 0 ==> forall|x: Seq<char>| pending(s, x) ==> #[trigger] scan_nodes(s, view, order, order.len()).1.contains(x),
{
    lemma_nodes_step(s, view, order, order.len());
    let (r, out) = scan_nodes(s, view, order, order.len());
    lemma_inv_bounds(r);
    assert(r.pre_proposal =~= Set::<Seq<char>>::empty()) by {
        assert forall|x: Seq<char>| !r.pre_proposal.contains(x) by {
            if r.pre_proposal.contains(x) {
                if order.contains(x) {
                    let i = choose|i: int| 0 <= i < order.len() && order[i] == x;
                    assert(settled(r, order[i]));
                } else {
                    assert(in_flux(r).contains(x));
                    assert(reports_for(r, x) == reports_for(s, x));
                    assert(r.reports.dom().contains(x));
                    assert(reports_for(s, x).len() > 0);
                    assert(s.reports.dom().contains(x)) by {
                        if !s.reports.dom().contains(x) {
                            assert(reports_for(s, x).dom() =~= Set::<RingNumber>::empty());
                        }
                    }
                    assert(in_flux(s).contains(x));
                    assert(order.to_set().contains(x));
                }
            }
        }
    }
    if s.pre_proposal.len() > 0 {
        assert forall|x: Seq<char>| pending(s, x) implies #[trigger] out.contains(x) by {
            assert(!pending(r, x));
        }
    }
}

proof fn lemma_nodes_step(s: CutDetectorView, view: super::view::View, order: Seq<Seq<char>>, j: nat)
    requires
        cut_inv(s),
        j <= order.len(),
        order.to_set() == s.pre_proposal,
        forall|i: int|
            0 <= i < order.len() ==> s.high <= (#[trigger] flux_observers(view, order[i])).len() <= 0x8000_0000,
        forall|i: int, jj: int|
            0 <= i < order.len() && 0 <= jj < flux_observers(view, order[i]).len() ==> pending(
                s,
                #[trigger] flux_observers(view, order[i])[jj],
            ),
    ensures
        ({
            let (sj, out) = scan_nodes(s, view, order, j);
            &&& cut_inv(sj)
            &&& sj.high == s.high && sj.low == s.low
            &&& forall|x: Seq<char>| !order.contains(x) ==> #[trigger] reports_for(sj, x) == reports_for(s, x)
            &&& forall|i: int| 0 <= i < order.len() ==> sj.pre_proposal.contains(#[trigger] order[i]) || settled(sj, order[i])
            &&& forall|i: int| 0 <= i < j ==> settled(sj, #[trigger] order[i])
            &&& forall|x: Seq<char>| pending(s, x) ==> #[trigger] pending(sj, x) || out.contains(x)
            &&& out.len() > 0 ==> sj.pre_proposal.len() == 0 && sj.proposal.len() == 0
            &&& s.pre_proposal.len() > 0 && sj.pre_proposal.len() == 0 ==> out.len() > 0
        }),
    decreases j,
{
    if j == 0 {
        assert forall|i: int| 0 <= i < order.len() implies s.pre_proposal.contains(#[trigger] order[i]) by {
            assert(order.to_set().contains(order[i]));
        }
    } else {
        lemma_nodes_step(s, view, order, (j - 1) as nat);
        let (s1, out1) = scan_nodes(s, view, order, (j - 1) as nat);
        let node = order[j - 1];
        let obs = flux_observers(view, node);
        let status = if view.host_present(node) {
            EdgeStatus::Up
        } else {
            EdgeStatus::Down
        };
        assert(s1.pre_proposal.contains(node) || settled(s1, node));
        lemma_scan_effect(s1, node, status, obs, obs.len());
        let (s2, out2) = scan_observers(s1, node, status, obs, obs.len());
        let out = out1 + out2;
        assert(scan_nodes(s, view, order, j) == (s2, out));
        lemma_inv_bounds(s1);
        if !settled(s1, node) {
            assert(s1.pre_proposal.contains(node));
            assert(out1.len() == 0) by {
                if out1.len() > 0 {
                    s1.pre_proposal.lemma_len0_is_empty();
                }
            }
            assert forall|q: int| 0 <= q < obs.len() implies s1.proposal.contains(#[trigger] obs[q])
                || s1.pre_proposal.contains(obs[q]) by {
                assert(pending(s, flux_observers(view, order[j - 1])[q]));
                assert(pending(s1, obs[q]) || out1.contains(obs[q]));
            }
            lemma_flux_node_settles(s1, node, status, obs);
        }
        assert(settled(s2, node));
        // Other nodes keep their reports, and so whether they are in flux.
        assert forall|i: int| 0 <= i < order.len() implies s2.pre_proposal.contains(#[trigger] order[i]) || settled(
            s2,
            order[i],
        ) by {
            let x = order[i];
            if x != node {
                assert(reports_for(s2, x) == reports_for(s1, x));
                if settled(s1, x) {
                    assert(!in_flux(s2).contains(x));
                } else {
                    assert(in_flux(s1).contains(x));
                    assert(reports_for(s1, x).len() > 0);
                    assert(s2.reports.dom().contains(x)) by {
                        if !s2.reports.dom().contains(x) {
                            assert(reports_for(s2, x).dom() =~= Set::<RingNumber>::empty());
                        }
                    }
                    assert(in_flux(s2).contains(x));
                }
            }
        }
        assert forall|i: int| 0 <= i < j implies settled(s2, #[trigger] order[i]) by {
            let x = order[i];
            if x != node {
                assert(settled(s1, x));
                assert(reports_for(s2, x) == reports_for(s1, x));
                assert(!in_flux(s2).contains(x));
            }
        }
        assert forall|x: Seq<char>| !order.contains(x) implies #[trigger] reports_for(s2, x) == reports_for(s, x) by {
            assert(x != node);
        }
        assert forall|x: Seq<char>| pending(s, x) implies #[trigger] pending(s2, x) || out.contains(x) by {
            if pending(s1, x) {
                if !pending(s2, x) {
                    let q = choose|q: int| 0 <= q < out2.len() && out2[q] == x;
                    assert(out[out1.len() + q] == x);
                }
            } else {
                let q = choose|q: int| 0 <= q < out1.len() && out1[q] == x;
                assert(out[q] == x);
            }
        }
        if out1.len() > 0 && out2.len() == 0 {
            assert(settled(s1, node)) by {
                if !settled(s1, node) {
                    s1.pre_proposal.lemma_len0_is_empty();
                }
            }
        }
    }
}

/// Every node in flux has at least as many observers as the high watermark,
/// and each of them is in flux or waits in the proposal.
pub open spec fn observers_pending(s: CutDetectorView, view: super::view::View) -> bool {
    forall|x: Seq<char>, j: int|
        #![trigger s.pre_proposal.contains(x), flux_observers(view, x)[j]]
        s.pre_proposal.contains(x) ==> s.high <= flux_observers(view, x).len() && (0 <= j < flux_observers(view, x).len()
            ==> pending(s, flux_observers(view, x)[j]))
}

/// A set holding the ring numbers below `k` has at least `k` members.
proof fn lemma_rings_counted(d: Set<RingNumber>, k: nat)
    requires
        d.finite(),
        k <= 0x8000_0000,
        forall|j: int| 0 <= j < k ==> d.contains(#[trigger] (j as RingNumber)),
    ensures
        d.len() >= k,
    decreases k,
{
    if k > 0 {
        let top = (k - 1) as RingNumber;
        let d2 = d.remove(top);
        assert forall|j: int| 0 <= j < k - 1 implies d2.contains(#[trigger] (j as RingNumber)) by {
            assert(d.contains(j as RingNumber));
            assert((j as RingNumber) != top);
        }
        lemma_rings_counted(d2, (k - 1) as nat);
        assert(d.contains(top));
    }
}

/// Whether `node` has reached the high watermark and left the nodes in flux.
pub open spec fn settled(s: CutDetectorView, node: Seq<char>) -> bool {
    reports_for(s, node).len() >= s.high && !s.pre_proposal.contains(node)
}

proof fn lemma_scan_step(
    s: CutDetectorView,
    node: Seq<char>,
    status: EdgeStatus,
    obs: Seq<Seq<char>>,
    k: nat,
)
    requires
        cut_inv(s),
        s.pre_proposal.contains(node),
        k <= obs.len() <= 0x8000_0000,
        forall|i: int| 0 <= i < obs.len() ==> s.proposal.contains(#[trigger] obs[i]) || s.pre_proposal.contains(obs[i]),
    ensures
        ({
            let sk = scan_observers(s, node, status, obs, k).0;
            &&& cut_inv(sk)
            &&& sk.high == s.high
            &&& sk.low == s.low
            &&& settled(sk, node) || {
                &&& sk.pre_proposal.contains(node)
                &&& forall|j: int| 0 <= j < k ==> reports_for(sk, node).dom().contains(#[trigger] (j as RingNumber))
                &&& forall|x: Seq<char>| s.proposal.contains(x) ==> #[trigger] sk.proposal.contains(x)
                &&& forall|x: Seq<char>| s.pre_proposal.contains(x) ==> #[trigger] sk.pre_proposal.contains(x)
            }
        }),
    decreases k,
{
    if k > 0 {
        lemma_scan_step(s, node, status, obs, (k - 1) as nat);
        let s1 = scan_observers(s, node, status, obs, (k - 1) as nat).0;
        let o = obs[k - 1];
        let ring = (k - 1) as RingNumber;
        let qualifies = s1.proposal.contains(o) || s1.pre_proposal.contains(o);
        if qualifies {
            let s2 = aggregate_spec(s1, o, node, status, ring).0;
            lemma_aggregate_inv(s1, o, node, status, ring);
            let r = reports_for(s1, node);
            assert(s1.reports.dom().contains(node)) by {
                if !settled(s1, node) {
                    assert(in_flux(s1).contains(node));
                } else {
                    assert(r.len() >= s1.high);
                    if !s1.reports.dom().contains(node) {
                        assert(r.dom() =~= Set::<RingNumber>::empty());
                    }
                }
            }
            assert(r.dom().finite());
            if !r.dom().contains(ring) {
                let r2 = r.insert(ring, o);
                assert(r2.dom() =~= r.dom().insert(ring));
                assert(r2.len() == r.len() + 1);
                assert(s2.reports[node] == r2);
                if settled(s1, node) {
                    assert(!s2.pre_proposal.contains(node));
                } else {
                    assert(in_flux(s1).contains(node));
                    assert(s1.low <= r.len() < s1.high);
                    if r2.len() < s1.high {
                        assert forall|j: int| 0 <= j < k implies reports_for(s2, node).dom().contains(
                            #[trigger] (j as RingNumber),
                        ) by {
                            if j < k - 1 {
                                assert(r.dom().contains(j as RingNumber));
                            }
                        }
                    }
                }
            } else {
                assert(s2.reports == s1.reports);
                if !settled(s1, node) {
                    assert forall|j: int| 0 <= j < k implies reports_for(s2, node).dom().contains(
                        #[trigger] (j as RingNumber),
                    ) by {
                        if j < k - 1 {
                            assert(r.dom().contains(j as RingNumber));
                        }
                    }
                }
            }
        } else {
            assert(settled(s1, node)) by {
                if !settled(s1, node) {
                    assert(s.proposal.contains(o) || s.pre_proposal.contains(o));
                }
            }
        }
    }
}

/// A node in flux whose observers are each proposed or in flux gets an
/// implicit report from every one of them: scanning its observers, at least
/// as many as the high watermark, takes it to the watermark, and it leaves the
/// nodes in flux.
pub proof fn lemma_flux_node_settles(s: CutDetectorView, node: Seq<char>, status: EdgeStatus, obs: Seq<Seq<char>>)
    requires
        cut_inv(s),
        s.pre_proposal.contains(node),
        s.high <= obs.len() <= 0x8000_0000,
        forall|i: int| 0 <= i < obs.len() ==> s.proposal.contains(#[trigger] obs[i]) || s.pre_proposal.contains(obs[i]),
    ensures
        settled(scan_observers(s, node, status, obs, obs.len()).0, node),
{
    lemma_scan_step(s, node, status, obs, obs.len());
    let sk = scan_observers(s, node, status, obs, obs.len()).0;
    if !settled(sk, node) {
        assert(in_flux(sk).contains(node));
        assert(sk.reports.dom().contains(node));
        lemma_rings_counted(reports_for(sk, node).dom(), obs.len());
    }
}

/// Clearing keeps the invariant of the cut detector.
pub proof fn lemma_cleared_inv(s: CutDetectorView)
    requires
        0 < s.low <= s.high <= s.num,
        s.num >= NUM_MIN,
    ensures
        cut_inv(cleared(s)),
{
    let c = cleared(s);
    assert(in_flux(c) =~= Set::<Seq<char>>::empty());
    assert(stable_hosts(c) =~= Set::<Seq<char>>::empty());
}

} // verus!
