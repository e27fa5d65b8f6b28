//! The joiner's side of the join protocol: what it sends and what it makes of
//! the answers. Sending and waiting are the caller's part.
//!
//! A joiner first asks a seed; the seed answers with the observers it would
//! have. The joiner then asks each observer, once, listing the rings on which
//! it observes the joiner, and waits for an answer from the configuration it
//! asked about.
use crate::common::{ConfigId, Endpoint, NodeId, RingNumber};
use crate::error::{Error, ErrorKind, Result};
use crate::membership::view::matching_rings;
use crate::order::str_views;
use crate::transport::proto::{
    JoinMessage, JoinMessageView, JoinResponse, JoinStatus, PreJoinMessage, RequestKind, RequestKindView,
    ResponseKind,
};
use crate::transport::Message;
use vstd::prelude::*;

verus! {

/// The configuration a joiner names when it has none to name.
pub const NO_CONFIG: ConfigId = -1;

/// The distinct elements of `s`, in the order of their first occurrence.
pub open spec fn distinct_in_order(s: Seq<Seq<char>>) -> Seq<Seq<char>>
    decreases s.len(),
{
    if s.len() == 0 {
        Seq::empty()
    } else {
        let d = distinct_in_order(s.drop_last());
        if d.contains(s.last()) {
            d
        } else {
            d.push(s.last())
        }
    }
}

/// Whether a seed's answer lets the joiner go on: it may join, or its address
/// is already a member.
pub open spec fn seed_admits(status: JoinStatus) -> bool {
    status == JoinStatus::SafeToJoin || status == JoinStatus::HostnameAlreadyInRing
}

/// Whether an observer's answer ends the wait for the configuration
/// `config_id`: every answer does, except one that admits the joiner into
/// another configuration.
pub open spec fn ends_wait(status: JoinStatus, answer_config: ConfigId, config_id: ConfigId) -> bool {
    !(status == JoinStatus::SafeToJoin && answer_config != config_id)
}

/// The request a joiner sends a seed: its address and its identifier.
pub fn pre_join_request(endpoint: &Endpoint, node_id: NodeId) -> (r: RequestKind)
    ensures
        r matches RequestKind::PreJoin(m) && m.sender@ == endpoint@ && m.node_id == node_id && m.ring_number == 0
            && m.config_id == NO_CONFIG,
{
    RequestKind::PreJoin(PreJoinMessage { sender: endpoint.clone(), node_id, ring_number: 0, config_id: NO_CONFIG })
}

/// What the joiner makes of the seed's answer: the answer itself when it lets
/// the joiner go on, else `JoinPhase1`.
pub fn seed_response(msg: Message) -> (r: Result<JoinResponse>)
    ensures
        r is Ok <==> (msg matches Message::Response(ResponseKind::Join(res)) && seed_admits(res.status)),
        r matches Ok(res) ==> msg matches Message::Response(ResponseKind::Join(j)) && res@ == j@,
        r matches Err(e) ==> e.kind_spec() == ErrorKind::JoinPhase1,
{
    match msg {
        Message::Response(ResponseKind::Join(res)) => {
            if res.status != JoinStatus::SafeToJoin && res.status != JoinStatus::HostnameAlreadyInRing {
                return Err(Error::new_join_phase1());
            }
            Ok(res)
        },
        _ => Err(Error::new_join_phase1()),
    }
}

/// The configuration the joiner joins: none when its address is already a
/// member, else the one the seed answered for.
pub fn config_to_join(res: &JoinResponse) -> (c: ConfigId)
    ensures
        c == if res.status == JoinStatus::HostnameAlreadyInRing {
            NO_CONFIG
        } else {
            res.config_id
        },
{
    if res.status == JoinStatus::HostnameAlreadyInRing {
        NO_CONFIG
    } else {
        res.config_id
    }
}

/// The requests to join sent after the seed's answer: one per distinct
/// observer, in the order of first occurrence, listing the rings on which it
/// observes the joiner.
pub fn join_requests(endpoint: &Endpoint, node_id: NodeId, join_res: &JoinResponse) -> (r: Vec<
    (Endpoint, RequestKind),
>)
    requires
        join_res.endpoints@.len() <= i32::MAX,
    ensures
        ({
            let eps = str_views(join_res.endpoints@);
            let obs = distinct_in_order(eps);
            &&& r@.len() == obs.len()
            &&& forall|i: int|
                0 <= i < r@.len() ==> (#[trigger] r@[i]).0@ == obs[i] && r@[i].1@ == RequestKindView::Join(
                    JoinMessageView {
                        sender: endpoint@,
                        node_id,
                        ring_number: matching_rings(eps, obs[i], eps.len()),
                        config_id: join_res.config_id,
                    },
                )
        }),
{
    let ghost eps = str_views(join_res.endpoints@);
    let mut groups: Vec<(Endpoint, Vec<RingNumber>)> = Vec::new();
    let mut k: usize = 0;
    while k < join_res.endpoints.len()
        invariant
            eps == str_views(join_res.endpoints@),
            eps.len() <= i32::MAX,
            k <= eps.len(),
            groups@.len() == distinct_in_order(eps.take(k as int)).len(),
            forall|i: int|
                0 <= i < groups@.len() ==> (#[trigger] groups@[i]).0@ == distinct_in_order(eps.take(k as int))[i]
                    && groups@[i].1@ == matching_rings(eps, groups@[i].0@, k as nat),
        decreases eps.len() - k,
    {
        let obs = &join_res.endpoints[k];
        let ghost d = distinct_in_order(eps.take(k as int));
        proof {
            assert(eps.take(k + 1).drop_last() =~= eps.take(k as int));
            assert(eps.take(k + 1).last() == obs@);
        }
        let place = find_group(&groups, obs);
        if let Some(g) = place {
            proof {
                assert(d[g as int] == obs@);
                assert(d.contains(obs@));
            }
            let ghost old_groups = groups@;
            let mut entry = groups.remove(g);
            entry.1.push(k as i32);
            groups.insert(g, entry);
            proof {
                assert forall|i: int| 0 <= i < groups@.len() implies (#[trigger] groups@[i]).0@ == distinct_in_order(
                    eps.take(k + 1),
                )[i] && groups@[i].1@ == matching_rings(eps, groups@[i].0@, (k + 1) as nat) by {
                    if i != g {
                        assert(groups@[i] == old_groups[i]);
                        assert(old_groups[i].0@ != obs@) by {
                            lemma_distinct_no_dup(eps.take(k as int));
                            if old_groups[i].0@ == obs@ {
                                assert(d[i] == d[g as int]);
                            }
                        }
                    }
                }
            }
        } else {
            proof {
                assert(!d.contains(obs@)) by {
                    if d.contains(obs@) {
                        let i = choose|i: int| 0 <= i < d.len() && d[i] == obs@;
                        assert(groups@[i].0@ == obs@);
                    }
                }
            }
            let ghost old_groups = groups@;
            let mut rings: Vec<RingNumber> = Vec::new();
            rings.push(k as i32);
            groups.push((obs.clone(), rings));
            proof {
                assert forall|i: int| 0 <= i < groups@.len() implies (#[trigger] groups@[i]).0@ == distinct_in_order(
                    eps.take(k + 1),
                )[i] && groups@[i].1@ == matching_rings(eps, groups@[i].0@, (k + 1) as nat) by {
                    if i < old_groups.len() {
                        assert(groups@[i] == old_groups[i]);
                        assert(old_groups[i].0@ != obs@) by {
                            if old_groups[i].0@ == obs@ {
                                assert(d.contains(obs@));
                            }
                        }
                    } else {
                        lemma_no_match_before(eps, obs@, k as nat, d);
                        assert(matching_rings(eps, obs@, k as nat) =~= Seq::<RingNumber>::empty());
                        assert(rings@ =~= seq![k as i32]);
                    }
                }
            }
        }
        k += 1;
    }
    proof {
        assert(eps.take(eps.len() as int) =~= eps);
    }
    let mut out: Vec<(Endpoint, RequestKind)> = Vec::new();
    let mut i: usize = 0;
    while i < groups.len()
        invariant
            i <= groups@.len(),
            out@.len() == i,
            forall|j: int|
                0 <= j < i ==> (#[trigger] out@[j]).0@ == groups@[j].0@ && out@[j].1@ == RequestKindView::Join(
                    JoinMessageView {
                        sender: endpoint@,
                        node_id,
                        ring_number: groups@[j].1@,
                        config_id: join_res.config_id,
                    },
                ),
        decreases groups@.len() - i,
    {
        let mut ring_number: Vec<RingNumber> = Vec::new();
        let mut m: usize = 0;
        while m < groups[i].1.len()
            invariant
                i < groups@.len(),
                m <= groups@[i as int].1@.len(),
                ring_number@ == groups@[i as int].1@.take(m as int),
            decreases groups@[i as int].1@.len() - m,
        {
            ring_number.push(groups[i].1[m]);
            assert(groups@[i as int].1@.take(m + 1) =~= groups@[i as int].1@.take(m as int).push(groups@[i as int].1@[m as int]));
            m += 1;
        }
        assert(groups@[i as int].1@.take(groups@[i as int].1@.len() as int) =~= groups@[i as int].1@);
        let join = RequestKind::Join(
            JoinMessage { sender: endpoint.clone(), node_id, ring_number, config_id: join_res.config_id },
        );
        out.push((groups[i].0.clone(), join));
        i += 1;
    }
    out
}

/// Position of the group of `obs`, if it has one.
fn find_group(groups: &Vec<(Endpoint, Vec<RingNumber>)>, obs: &Endpoint) -> (r: Option<usize>)
    ensures
        r matches Some(g) ==> g < groups@.len() && groups@[g as int].0@ == obs@,
        r is None ==> forall|i: int| 0 <= i < groups@.len() ==> (#[trigger] groups@[i]).0@ != obs@,
{
    let mut g: usize = 0;
    while g < groups.len()
        invariant
            g <= groups@.len(),
            forall|i: int| 0 <= i < g ==> (#[trigger] groups@[i]).0@ != obs@,
        decreases groups@.len() - g,
    {
        if groups[g].0 == *obs {
            return Some(g);
        }
        g += 1;
    }
    None
}

/// Before `x` first occurs, no ring lists it.
pub proof fn lemma_no_match_before(eps: Seq<Seq<char>>, x: Seq<char>, n: nat, d: Seq<Seq<char>>)
    requires
        n <= eps.len(),
        d == distinct_in_order(eps.take(n as int)),
        !d.contains(x),
    ensures
        matching_rings(eps, x, n) == Seq::<RingNumber>::empty(),
    decreases n,
{
    if n > 0 {
        let p = eps.take(n - 1);
        assert(eps.take(n as int).drop_last() =~= p);
        assert(eps.take(n as int).last() == eps[n - 1]);
        let dp = distinct_in_order(p);
        assert(!dp.contains(x)) by {
            if dp.contains(x) {
                let i = choose|i: int| 0 <= i < dp.len() && dp[i] == x;
                if dp.contains(eps[n - 1]) {
                    assert(d == dp);
                } else {
                    assert(d[i] == dp[i]);
                }
            }
        }
        assert(eps[n - 1] != x) by {
            if eps[n - 1] == x {
                if dp.contains(eps[n - 1]) {
                } else {
                    assert(d[dp.len() as int] == x);
                }
            }
        }
        lemma_no_match_before(eps, x, (n - 1) as nat, dp);
    }
}

/// The distinct elements in order have no repetition.
pub proof fn lemma_distinct_no_dup(s: Seq<Seq<char>>)
    ensures
        distinct_in_order(s).no_duplicates(),
    decreases s.len(),
{
    if s.len() > 0 {
        lemma_distinct_no_dup(s.drop_last());
        let d = distinct_in_order(s.drop_last());
        if !d.contains(s.last()) {
            assert forall|a: int, b: int| 0 <= a < b < d.push(s.last()).len() implies d.push(s.last())[a] != d.push(s.last())[b] by {
                if b == d.len() {
                    assert(d.contains(d[a]));
                }
            }
        }
    }
}

/// Every ring of the seed's answer reaches its observer: the observer is among
/// those asked, and its request lists the ring.
pub proof fn lemma_every_ring_requested(eps: Seq<Seq<char>>, k: int)
    requires
        0 <= k < eps.len(),
        eps.len() <= i32::MAX,
    ensures
        distinct_in_order(eps).contains(eps[k]),
        matching_rings(eps, eps[k], eps.len()).contains(k as RingNumber),
{
    lemma_distinct_contains(eps, k);
    lemma_rings_contain(eps, eps[k], eps.len(), k);
}

/// Each element has its place among the distinct elements.
pub proof fn lemma_distinct_contains(s: Seq<Seq<char>>, k: int)
    requires
        0 <= k < s.len(),
    ensures
        distinct_in_order(s).contains(s[k]),
    decreases s.len(),
{
    let p = s.drop_last();
    let d = distinct_in_order(p);
    if k < s.len() - 1 {
        lemma_distinct_contains(p, k);
        assert(p[k] == s[k]);
        if !d.contains(s.last()) {
            let i = choose|i: int| 0 <= i < d.len() && d[i] == s[k];
            assert(d.push(s.last())[i] == s[k]);
        }
    } else {
        if !d.contains(s.last()) {
            assert(d.push(s.last())[d.len() as int] == s[k]);
        }
    }
}

/// A ring that holds `x` is listed for `x`.
pub proof fn lemma_rings_contain(eps: Seq<Seq<char>>, x: Seq<char>, n: nat, k: int)
    requires
        0 <= k < n <= eps.len(),
        eps.len() <= i32::MAX,
        eps[k] == x,
    ensures
        matching_rings(eps, x, n).contains(k as RingNumber),
    decreases n,
{
    if k < n - 1 {
        lemma_rings_contain(eps, x, (n - 1) as nat, k);
        let m = matching_rings(eps, x, (n - 1) as nat);
        let i = choose|i: int| 0 <= i < m.len() && m[i] == k as RingNumber;
        if eps[n - 1] == x {
            assert(m.push((n - 1) as RingNumber)[i] == k as RingNumber);
        }
    } else {
        let m = matching_rings(eps, x, (n - 1) as nat);
        assert(m.push((n - 1) as RingNumber)[m.len() as int] == k as RingNumber);
    }
}

/// What the joiner makes of an answer while it waits for the configuration
/// `config_id`: a join answer ends the wait unless it admits the joiner into
/// another configuration.
pub fn observer_response(msg: Message, config_id: ConfigId) -> (r: Option<JoinResponse>)
    ensures
        r is Some <==> (msg matches Message::Response(ResponseKind::Join(j)) && ends_wait(
            j.status,
            j.config_id,
            config_id,
        )),
        r matches Some(res) ==> msg matches Message::Response(ResponseKind::Join(j)) && res@ == j@,
{
    match msg {
        Message::Response(ResponseKind::Join(join)) => {
            if join.status == JoinStatus::SafeToJoin && join.config_id != config_id {
                return None;
            }
            Some(join)
        },
        _ => None,
    }
}

} // verus!
