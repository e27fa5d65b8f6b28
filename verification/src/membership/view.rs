//! The current view of membership.
use crate::common::{be_bytes, ConfigId, Endpoint, NodeId, RingNumber};
use crate::error::{Error, ErrorKind, Result};
use crate::hashing::{xxhash64, xxhash64_bytes};
use crate::membership::ring::{
    first_key, is_max_key, is_min_key, is_predecessor, is_successor, keys_hashed, last_key, predecessor, ring_hash,
    successor, Ring,
};
use crate::order::{
    insert_sorted_endpoint, insert_sorted_id, lemma_sorted_ids_unique, lemma_sorted_str_unique, str_views,
    strictly_sorted_ids, strictly_sorted_str,
};
use crate::transport::proto::JoinStatus;
use vstd::prelude::*;
use vstd::view::View as _;
use vstd::utf8::encode_utf8;

verus! {

/// The bytes of a list of identifiers, one after the other.
pub open spec fn ids_bytes(ids: Seq<NodeId>) -> Seq<u8>
    decreases ids.len(),
{
    if ids.len() == 0 {
        Seq::empty()
    } else {
        ids_bytes(ids.drop_last()) + be_bytes(ids.last().id())
    }
}

/// The UTF-8 bytes of a list of endpoints, one after the other.
pub open spec fn endpoints_bytes(eps: Seq<Seq<char>>) -> Seq<u8>
    decreases eps.len(),
{
    if eps.len() == 0 {
        Seq::empty()
    } else {
        endpoints_bytes(eps.drop_last()) + encode_utf8(eps.last())
    }
}

/// The identifier of a configuration: the xxHash64 digest, seeded with zero, of
/// its node identifiers' bytes followed by its endpoints' bytes, read as a
/// signed integer.
pub open spec fn config_id_of(ids: Seq<NodeId>, eps: Seq<Seq<char>>) -> ConfigId {
    xxhash64(0, ids_bytes(ids) + endpoints_bytes(eps)) as i64
}

/// Represents the current configuration of the view: its node identifiers and
/// its endpoints, each sorted and without repetition.
#[derive(Debug, Clone)]
pub struct Configuration {
    node_ids: Vec<NodeId>,
    endpoints: Vec<Endpoint>,
}

impl Configuration {
    pub closed spec fn node_ids_view(self) -> Seq<NodeId> {
        self.node_ids@
    }

    pub closed spec fn endpoints_view(self) -> Seq<Seq<char>> {
        str_views(self.endpoints@)
    }

    /// Both lists are strictly increasing.
    pub open spec fn wf(self) -> bool {
        &&& strictly_sorted_ids(self.node_ids_view())
        &&& strictly_sorted_str(self.endpoints_view())
    }

    /// The identifier of this configuration.
    pub open spec fn id_spec(self) -> ConfigId {
        config_id_of(self.node_ids_view(), self.endpoints_view())
    }

    /// The configuration of the given endpoints and identifiers: both sorted, with
    /// repetitions removed.
    pub fn new(endpoints: Vec<Endpoint>, node_ids: Vec<NodeId>) -> (c: Self)
        ensures
            c.wf(),
            c.endpoints_view().to_set() == str_views(endpoints@).to_set(),
            c.node_ids_view().to_set() == node_ids@.to_set(),
    {
        let mut eps: Vec<Endpoint> = Vec::new();
        let mut i: usize = 0;
        assert(str_views(eps@).to_set() =~= str_views(endpoints@.take(0)).to_set());
        while i < endpoints.len()
            invariant
                i <= endpoints@.len(),
                strictly_sorted_str(str_views(eps@)),
                str_views(eps@).to_set() == str_views(endpoints@.take(i as int)).to_set(),
            decreases endpoints@.len() - i,
        {
            let ghost before = str_views(eps@).to_set();
            insert_sorted_endpoint(&mut eps, endpoints[i].clone());
            assert(str_views(endpoints@.take(i + 1)) =~= str_views(endpoints@.take(i as int)).push(
                endpoints@[i as int]@,
            ));
            proof {
                str_views(endpoints@.take(i as int)).lemma_push_to_set_commute(endpoints@[i as int]@);
            }
            i += 1;
        }
        assert(endpoints@.take(endpoints@.len() as int) =~= endpoints@);
        let mut ids: Vec<NodeId> = Vec::new();
        let mut j: usize = 0;
        assert(ids@.to_set() =~= node_ids@.take(0).to_set());
        while j < node_ids.len()
            invariant
                j <= node_ids@.len(),
                strictly_sorted_ids(ids@),
                ids@.to_set() == node_ids@.take(j as int).to_set(),
            decreases node_ids@.len() - j,
        {
            insert_sorted_id(&mut ids, node_ids[j]);
            assert(node_ids@.take(j + 1) =~= node_ids@.take(j as int).push(node_ids@[j as int]));
            proof {
                node_ids@.take(j as int).lemma_push_to_set_commute(node_ids@[j as int]);
            }
            j += 1;
        }
        assert(node_ids@.take(node_ids@.len() as int) =~= node_ids@);
        Configuration { node_ids: ids, endpoints: eps }
    }

    /// The empty configuration.
    pub fn empty() -> (c: Self)
        ensures
            c.wf(),
            c.node_ids_view() == Seq::<NodeId>::empty(),
            c.endpoints_view() == Seq::<Seq<char>>::empty(),
    {
        let c = Configuration { node_ids: Vec::new(), endpoints: Vec::new() };
        assert(c.endpoints_view() =~= Seq::<Seq<char>>::empty());
        c
    }

    /// The node identifiers, sorted.
    pub fn node_ids(&self) -> (v: &Vec<NodeId>)
        ensures
            v@ == self.node_ids_view(),
    {
        &self.node_ids
    }

    /// The endpoints, sorted.
    pub fn endpoints(&self) -> (v: &Vec<Endpoint>)
        ensures
            str_views(v@) == self.endpoints_view(),
    {
        &self.endpoints
    }

    /// The identifier of this configuration.
    pub fn config_id(&self) -> (id: ConfigId)
        ensures
            id == self.id_spec(),
    {
        let mut data: Vec<u8> = Vec::new();
        let mut i: usize = 0;
        while i < self.node_ids.len()
            invariant
                i <= self.node_ids@.len(),
                data@ == ids_bytes(self.node_ids@.take(i as int)),
            decreases self.node_ids@.len() - i,
        {
            let mut b = self.node_ids[i].as_bytes();
            data.append(&mut b);
            assert(self.node_ids@.take(i + 1).drop_last() =~= self.node_ids@.take(i as int));
            i += 1;
        }
        assert(self.node_ids@.take(self.node_ids@.len() as int) =~= self.node_ids@);
        let ghost id_part = data@;
        let mut j: usize = 0;
        while j < self.endpoints.len()
            invariant
                id_part == ids_bytes(self.node_ids@),
                j <= self.endpoints@.len(),
                data@ == id_part + endpoints_bytes(str_views(self.endpoints@).take(j as int)),
            decreases self.endpoints@.len() - j,
        {
            let bytes = self.endpoints[j].as_str().as_bytes();
            let ghost start = data@;
            let mut k: usize = 0;
            while k < bytes.len()
                invariant
                    k <= bytes@.len(),
                    data@ == start + bytes@.take(k as int),
                decreases bytes@.len() - k,
            {
                data.push(bytes[k]);
                assert(bytes@.take(k + 1) =~= bytes@.take(k as int).push(bytes@[k as int]));
                k += 1;
            }
            assert(bytes@.take(bytes@.len() as int) =~= bytes@);
            assert(str_views(self.endpoints@).take(j + 1).drop_last() =~= str_views(
                self.endpoints@,
            ).take(j as int));
            assert(data@ =~= id_part + endpoints_bytes(str_views(self.endpoints@).take(j + 1)));
            j += 1;
        }
        assert(str_views(self.endpoints@).take(self.endpoints@.len() as int) =~= str_views(
            self.endpoints@,
        ));
        let h = xxhash64_bytes(0, data.as_slice());
        h as i64
    }
}

impl Default for Configuration {
    fn default() -> (c: Self)
        ensures
            c.wf(),
            c.node_ids_view() == Seq::<NodeId>::empty(),
            c.endpoints_view() == Seq::<Seq<char>>::empty(),
    {
        Configuration::empty()
    }
}

/// The key at the first position after `h`, or at the first position of the ring
/// when none lies after it: the observer on that ring.
pub open spec fn successor_or_first(m: Map<u64, Seq<char>>, h: u64) -> Seq<char> {
    match successor(m, h) {
        Some(k) => k,
        None => first_key(m)->0,
    }
}

/// The key at the last position before `h`, or at the last position of the ring
/// when none lies before it: the subject on that ring.
pub open spec fn predecessor_or_last(m: Map<u64, Seq<char>>, h: u64) -> Seq<char> {
    match predecessor(m, h) {
        Some(k) => k,
        None => last_key(m)->0,
    }
}

/// The observers `node` would have in `v` if it joined: its predecessor on each
/// ring, when the view has a member.
pub open spec fn expected_observers(v: View, node: Seq<char>) -> Seq<Seq<char>> {
    if v.ring_view(0).len() == 0 {
        Seq::empty()
    } else {
        Seq::new(v.k_spec() as nat, |i: int| predecessor_or_last(v.ring_view(i), ring_hash(i as u64, node)))
    }
}

/// The subjects of `node` in `v`: its predecessor on each ring, when the view
/// has more than one member.
pub open spec fn subjects_of(v: View, node: Seq<char>) -> Seq<Seq<char>> {
    if v.ring_view(0).len() <= 1 {
        Seq::empty()
    } else {
        Seq::new(v.k_spec() as nat, |i: int| predecessor_or_last(v.ring_view(i), ring_hash(i as u64, node)))
    }
}

/// The positions among the first `n` of `subjects` that hold `subject`.
pub open spec fn matching_rings(subjects: Seq<Seq<char>>, subject: Seq<char>, n: nat) -> Seq<RingNumber>
    decreases n,
{
    if n == 0 {
        Seq::empty()
    } else if subjects[n - 1] == subject {
        matching_rings(subjects, subject, (n - 1) as nat).push((n - 1) as RingNumber)
    } else {
        matching_rings(subjects, subject, (n - 1) as nat)
    }
}

/// The ring `m` after `key` is inserted with `seed`: unchanged when its position is
/// taken.
pub open spec fn ring_insert(seed: u64, m: Map<u64, Seq<char>>, key: Seq<char>) -> Map<u64, Seq<char>> {
    if m.dom().contains(ring_hash(seed, key)) {
        m
    } else {
        m.insert(ring_hash(seed, key), key)
    }
}

/// The ring `m` after each of `keys` is inserted in turn.
pub open spec fn ring_insert_all(seed: u64, m: Map<u64, Seq<char>>, keys: Seq<Seq<char>>) -> Map<
    u64,
    Seq<char>,
>
    decreases keys.len(),
{
    if keys.len() == 0 {
        m
    } else {
        ring_insert(seed, ring_insert_all(seed, m, keys.drop_last()), keys.last())
    }
}

/// The configuration of a membership and of the identifiers seen: both lists
/// sorted.
pub open spec fn config_of_sets(members: Set<Seq<char>>, seen: Set<NodeId>) -> Configuration {
    choose|c: Configuration| c.wf() && c.endpoints_view().to_set() == members && c.node_ids_view().to_set() == seen
}

/// Represents the current view of membership.
///
/// The `View` holds an edge expander graph approximation that allows for a
/// strongly connected topology of groups of observers and subjects.
///
/// The topology is set up as `K` rings, each with its own seed. A node has one
/// observer and one subject in each ring: its successor and its predecessor.
#[derive(Debug, Clone)]
pub struct View {
    k: i32,
    rings: Vec<Ring>,
    seen: Vec<NodeId>,
    current_config: Configuration,
    current_config_id: ConfigId,
    should_update_configuration_id: bool,
}

impl View {
    /// The number of rings.
    pub closed spec fn k_spec(self) -> int {
        self.k as int
    }

    /// The number of rings is a 32-bit count.
    pub proof fn lemma_k_bound(self)
        ensures
            self.k_spec() <= 0x7fff_ffff,
    {
    }

    /// Ring `i`, as a map from position to endpoint.
    pub closed spec fn ring_view(self, i: int) -> Map<u64, Seq<char>> {
        self.rings@[i]@
    }

    /// The node identifiers ever added to this view.
    pub closed spec fn seen_view(self) -> Set<NodeId> {
        self.seen@.to_set()
    }

    /// Every ring holds the members of the first. Adding a node whose
    /// positions are free, and deleting a member, keep this; a node whose
    /// position on some ring is taken by another (a hash collision) is left out
    /// of that ring, so this is not part of `wf`.
    pub open spec fn rings_agree(self) -> bool {
        forall|i: int| 0 <= i < self.k_spec() ==> (#[trigger] self.ring_view(i)).values() == self.ring_view(0).values()
    }

    /// The endpoints present in the first ring, which decides membership.
    pub open spec fn members(self) -> Set<Seq<char>> {
        self.ring_view(0).values()
    }

    /// Whether `node` takes a position on the first ring.
    pub open spec fn host_present(self, node: Seq<char>) -> bool {
        self.ring_view(0).dom().contains(ring_hash(0, node))
    }

    /// The current configuration, as the view would compute it now.
    pub open spec fn config_matches(self, c: Configuration) -> bool {
        &&& c.wf()
        &&& c.endpoints_view().to_set() == self.members()
        &&& c.node_ids_view().to_set() == self.seen_view()
    }

    /// The current configuration: the one configuration that matches the view.
    pub open spec fn config_spec(self) -> Configuration {
        config_of_sets(self.members(), self.seen_view())
    }

    /// A configuration that matches the view agrees with `config_spec` on both of
    /// its lists, and so on its identifier.
    pub proof fn lemma_config_unique(self, c: Configuration)
        requires
            self.config_matches(c),
        ensures
            self.config_matches(self.config_spec()),
            c.node_ids_view() == self.config_spec().node_ids_view(),
            c.endpoints_view() == self.config_spec().endpoints_view(),
            c.id_spec() == self.config_spec().id_spec(),
    {
        let d = self.config_spec();
        lemma_sorted_str_unique(c.endpoints_view(), d.endpoints_view());
        lemma_sorted_ids_unique(c.node_ids_view(), d.node_ids_view());
    }

    pub closed spec fn wf(self) -> bool {
        &&& self.k > 0
        &&& self.rings@.len() == self.k
        &&& forall|i: int|
            0 <= i < self.rings@.len() ==> (#[trigger] self.rings@[i]).wf() && self.rings@[i].seed_spec()
                == i
        &&& self.seen@.no_duplicates()
        &&& !self.should_update_configuration_id ==> {
            &&& self.config_matches(self.current_config)
            &&& self.current_config_id == self.current_config.id_spec()
        }
    }

    /// Whenever the first ring has a member, every ring has one: the condition
    /// under which observers and subjects exist on every ring.
    pub open spec fn populated(self) -> bool {
        self.ring_view(0).len() > 0 ==> forall|i: int| 0 <= i < self.k_spec() ==> #[trigger] self.ring_view(i).len() > 0
    }

    /// The facts that hold of every well-formed view.
    pub proof fn lemma_wf(&self)
        requires
            self.wf(),
        ensures
            self.k_spec() > 0,
            forall|i: int| 0 <= i < self.k_spec() ==> keys_hashed(i as u64, #[trigger] self.ring_view(i)),
            self.seen_view().finite(),
    {
        assert forall|i: int| 0 <= i < self.k_spec() implies keys_hashed(i as u64, #[trigger] self.ring_view(i)) by {
            self.rings@[i].lemma_view();
        }
    }

    /// Create a new `View` with `k` empty rings.
    pub fn new(k: i32) -> (v: Self)
        requires
            k > 0,
        ensures
            v.wf(),
            v.k_spec() == k,
            forall|i: int| 0 <= i < k ==> #[trigger] v.ring_view(i) == Map::<u64, Seq<char>>::empty(),
            v.seen_view() == Set::<NodeId>::empty(),
            v.rings_agree(),
    {
        let mut rings: Vec<Ring> = Vec::with_capacity(k as usize);
        let mut i: i32 = 0;
        while i < k
            invariant
                0 <= i <= k,
                rings@.len() == i,
                forall|j: int|
                    0 <= j < i ==> (#[trigger] rings@[j]).wf() && rings@[j].seed_spec() == j && rings@[j]@
                        == Map::<u64, Seq<char>>::empty(),
            decreases k - i,
        {
            rings.push(Ring::new(i as u64));
            i += 1;
        }
        let v = View {
            k,
            rings,
            seen: Vec::new(),
            current_config_id: -1,
            current_config: Configuration::empty(),
            should_update_configuration_id: true,
        };
        assert(v.seen_view() =~= Set::<NodeId>::empty());
        v
    }

    /// Insert `node` into every ring.
    fn insert_everywhere(&mut self, node: &Endpoint)
        requires
            old(self).wf(),
        ensures
            final(self).k == old(self).k,
            final(self).seen == old(self).seen,
            final(self).rings@.len() == old(self).rings@.len(),
            forall|i: int|
                0 <= i < final(self).rings@.len() ==> (#[trigger] final(self).rings@[i]).wf()
                    && final(self).rings@[i].seed_spec() == i,
            forall|i: int|
                0 <= i < old(self).k_spec() ==> #[trigger] final(self).ring_view(i) == ring_insert(
                    i as u64,
                    old(self).ring_view(i),
                    node@,
                ),
    {
        let mut rings: Vec<Ring> = Vec::new();
        std::mem::swap(&mut rings, &mut self.rings);
        let ghost old_rings = rings@;
        let mut done: Vec<Ring> = Vec::new();
        let mut i: usize = 0;
        let n = rings.len();
        while rings.len() > 0
            invariant
                rings@ == old_rings.skip(i as int),
                n == old_rings.len(),
                i + rings@.len() == n,
                done@.len() == i,
                forall|j: int| 0 <= j < old_rings.len() ==> (#[trigger] old_rings[j]).wf() && old_rings[j].seed_spec() == j,
                forall|j: int|
                    0 <= j < i ==> (#[trigger] done@[j]).wf() && done@[j].seed_spec() == j && done@[j]@
                        == ring_insert(j as u64, old_rings[j]@, node@),
            decreases rings@.len(),
        {
            let mut r = rings.remove(0);
            assert(r == old_rings[i as int]);
            assert(rings@ =~= old_rings.skip(i + 1));
            r.insert(node.clone());
            done.push(r);
            i += 1;
        }
        self.rings = done;
    }

    /// Bootstrap a view with the provided node ids and endpoints.
    pub fn bootstrap(k: i32, node_ids: Vec<NodeId>, endpoints: Vec<Endpoint>) -> (v: Self)
        requires
            k > 0,
        ensures
            v.wf(),
            v.k_spec() == k,
            forall|i: int|
                0 <= i < k ==> #[trigger] v.ring_view(i) == ring_insert_all(
                    i as u64,
                    Map::empty(),
                    str_views(endpoints@),
                ),
            v.seen_view() == node_ids@.to_set(),
    {
        let mut view = View::new(k);
        let ghost v0 = view;
        let mut seen: Vec<NodeId> = Vec::new();
        let mut j: usize = 0;
        while j < node_ids.len()
            invariant
                j <= node_ids@.len(),
                seen@.no_duplicates(),
                seen@.to_set() == node_ids@.take(j as int).to_set(),
            decreases node_ids@.len() - j,
        {
            let id = node_ids[j];
            let ghost before = seen@;
            if !contains_id(&seen, &id) {
                seen.push(id);
                proof {
                    before.lemma_push_to_set_commute(id);
                    assert forall|a: int, b: int| 0 <= a < b < seen@.len() implies seen@[a] != seen@[b] by {
                        if b == seen@.len() - 1 {
                            assert(before.contains(before[a]));
                        } else {
                            assert(before[a] == seen@[a] && before[b] == seen@[b]);
                        }
                    }
                }
            } else {
                assert(before.to_set().insert(id) =~= before.to_set());
            }
            assert(node_ids@.take(j + 1) =~= node_ids@.take(j as int).push(id));
            proof {
                node_ids@.take(j as int).lemma_push_to_set_commute(id);
            }
            j += 1;
        }
        assert(node_ids@.take(node_ids@.len() as int) =~= node_ids@);
        view.seen = seen;
        view.should_update_configuration_id = true;
        assert(str_views(endpoints@).take(0) =~= Seq::<Seq<char>>::empty());
        assert forall|i: int| 0 <= i < k implies #[trigger] view.ring_view(i) == ring_insert_all(
            i as u64,
            Map::empty(),
            str_views(endpoints@).take(0),
        ) by {
            assert(v0.ring_view(i) == Map::<u64, Seq<char>>::empty());
            assert(view.rings == v0.rings);
        }
        let mut e: usize = 0;
        while e < endpoints.len()
            invariant
                view.wf(),
                view.k_spec() == k,
                view.seen_view() == node_ids@.to_set(),
                e <= endpoints@.len(),
                forall|i: int|
                    0 <= i < k ==> #[trigger] view.ring_view(i) == ring_insert_all(
                        i as u64,
                        Map::empty(),
                        str_views(endpoints@).take(e as int),
                    ),
            decreases endpoints@.len() - e,
        {
            let ghost before = view;
            view.insert_everywhere(&endpoints[e]);
            let ghost mid = view;
            view.should_update_configuration_id = true;
            assert(str_views(endpoints@).take(e + 1).last() == endpoints@[e as int]@);
            assert forall|i: int| 0 <= i < k implies #[trigger] view.ring_view(i) == ring_insert_all(
                i as u64,
                Map::empty(),
                str_views(endpoints@).take(e + 1),
            ) by {
                assert(str_views(endpoints@).take(e + 1).drop_last() =~= str_views(endpoints@).take(
                    e as int,
                ));
                assert(before.ring_view(i) == ring_insert_all(
                    i as u64,
                    Map::empty(),
                    str_views(endpoints@).take(e as int),
                ));
                assert(mid.ring_view(i) == ring_insert(i as u64, before.ring_view(i), endpoints@[e as int]@));
                assert(view.rings == mid.rings);
            }
            e += 1;
        }
        assert(str_views(endpoints@).take(endpoints@.len() as int) =~= str_views(endpoints@));
        view
    }

    /// Checks if a node with the accompanying `NodeId` is safe to add to the network.
    pub fn is_safe_to_join(&self, node: &Endpoint, node_id: &NodeId) -> (s: JoinStatus)
        requires
            self.wf(),
        ensures
            s == (if self.host_present(node@) {
                JoinStatus::HostnameAlreadyInRing
            } else if self.seen_view().contains(*node_id) {
                JoinStatus::NodeIdAlreadyInRing
            } else {
                JoinStatus::SafeToJoin
            }),
    {
        if self.rings[0].contains(node.clone()) {
            JoinStatus::HostnameAlreadyInRing
        } else if contains_id(&self.seen, node_id) {
            JoinStatus::NodeIdAlreadyInRing
        } else {
            JoinStatus::SafeToJoin
        }
    }

    /// Add a node to the rings.
    ///
    /// # Errors
    ///
    /// Returns `UuidAlreadySeen` if the `NodeId` has already been seen and returns
    /// `NodeAlreadyInRing` if the node being added already exists.
    pub fn ring_add(&mut self, node: Endpoint, node_id: NodeId) -> (r: Result<()>)
        requires
            old(self).wf(),
        ensures
            final(self).wf(),
            final(self).k_spec() == old(self).k_spec(),
            old(self).seen_view().contains(node_id) ==> (r matches Err(e) && e.kind_spec()
                == ErrorKind::UuidAlreadySeen),
            !old(self).seen_view().contains(node_id) && old(self).host_present(node@) ==> (r matches Err(
                e,
            ) && e.kind_spec() == ErrorKind::NodeAlreadyInRing),
            r is Ok <==> !old(self).seen_view().contains(node_id) && !old(self).host_present(node@),
            r is Err ==> final(self).seen_view() == old(self).seen_view() && forall|i: int|
                #![trigger final(self).ring_view(i)]
                0 <= i < old(self).k_spec() ==> final(self).ring_view(i) == old(self).ring_view(i),
            r is Ok ==> final(self).seen_view() == old(self).seen_view().insert(node_id) && forall|i: int|
                #![trigger final(self).ring_view(i)]
                0 <= i < old(self).k_spec() ==> final(self).ring_view(i) == ring_insert(
                    i as u64,
                    old(self).ring_view(i),
                    node@,
                ),
            r is Ok && old(self).rings_agree() && (forall|i: int|
                0 <= i < old(self).k_spec() ==> !(#[trigger] old(self).ring_view(i)).dom().contains(
                    ring_hash(i as u64, node@),
                )) ==> final(self).rings_agree() && final(self).members() == old(self).members().insert(node@),
    {
        if contains_id(&self.seen, &node_id) {
            return Err(Error::new_uuid_already_seen());
        }
        if self.rings[0].contains(node.clone()) {
            return Err(Error::new_node_already_in_ring());
        }
        let ghost before = *self;
        self.insert_everywhere(&node);
        let ghost mid = *self;
        let ghost old_seen = self.seen@;
        self.seen.push(node_id);
        proof {
            old_seen.lemma_push_to_set_commute(node_id);
            assert forall|a: int, b: int| 0 <= a < b < self.seen@.len() implies self.seen@[a] != self.seen@[b] by {
                if b == self.seen@.len() - 1 {
                    assert(old_seen.contains(old_seen[a]));
                } else {
                    assert(old_seen[a] == self.seen@[a] && old_seen[b] == self.seen@[b]);
                }
            }
        }
        self.should_update_configuration_id = true;
        assert forall|i: int| 0 <= i < before.k_spec() implies #[trigger] self.ring_view(i) == ring_insert(
            i as u64,
            before.ring_view(i),
            node@,
        ) by {
            assert(self.ring_view(i) == mid.ring_view(i));
        }
        proof {
            if before.rings_agree() && (forall|i: int|
                0 <= i < before.k_spec() ==> !(#[trigger] before.ring_view(i)).dom().contains(ring_hash(i as u64, node@))) {
                before.lemma_wf();
                lemma_add_agrees(before, *self, node@);
            }
        }
        Ok(())
    }

    /// Delete a node from the view.
    ///
    /// # Errors
    ///
    /// Returns `NodeNotInRing` if the node doesn't exist in the view already.
    pub fn ring_delete(&mut self, node: &Endpoint) -> (r: Result<()>)
        requires
            old(self).wf(),
        ensures
            final(self).wf(),
            final(self).k_spec() == old(self).k_spec(),
            final(self).seen_view() == old(self).seen_view(),
            r is Ok <==> old(self).host_present(node@),
            r matches Err(e) ==> e.kind_spec() == ErrorKind::NodeNotInRing,
            r is Err ==> forall|i: int|
                #![trigger final(self).ring_view(i)]
                0 <= i < old(self).k_spec() ==> final(self).ring_view(i) == old(self).ring_view(i),
            r is Ok ==> forall|i: int|
                #![trigger final(self).ring_view(i)]
                0 <= i < old(self).k_spec() ==> final(self).ring_view(i) == old(self).ring_view(i).remove(
                    ring_hash(i as u64, node@),
                ),
            r is Ok && old(self).rings_agree() && old(self).members().contains(node@) ==> final(self).rings_agree()
                && final(self).members() == old(self).members().remove(node@),
    {
        if !self.rings[0].contains(node.clone()) {
            return Err(Error::new_node_not_in_ring());
        }
        let mut rings: Vec<Ring> = Vec::new();
        std::mem::swap(&mut rings, &mut self.rings);
        let ghost old_rings = rings@;
        let mut done: Vec<Ring> = Vec::new();
        let mut i: usize = 0;
        let n = rings.len();
        while rings.len() > 0
            invariant
                rings@ == old_rings.skip(i as int),
                n == old_rings.len(),
                i + rings@.len() == n,
                done@.len() == i,
                forall|j: int| 0 <= j < old_rings.len() ==> (#[trigger] old_rings[j]).wf() && old_rings[j].seed_spec() == j,
                forall|j: int|
                    0 <= j < i ==> (#[trigger] done@[j]).wf() && done@[j].seed_spec() == j && done@[j]@
                        == old_rings[j]@.remove(ring_hash(j as u64, node@)),
            decreases rings@.len(),
        {
            let mut r = rings.remove(0);
            assert(r == old_rings[i as int]);
            assert(rings@ =~= old_rings.skip(i + 1));
            r.remove(node.clone());
            done.push(r);
            i += 1;
        }
        self.rings = done;
        self.should_update_configuration_id = true;
        proof {
            let before = *old(self);
            if before.rings_agree() && before.members().contains(node@) {
                assert(old_rings == before.rings@);
                assert forall|j: int| 0 <= j < before.k_spec() implies #[trigger] self.ring_view(j) == before.ring_view(j).remove(
                    ring_hash(j as u64, node@),
                ) by {
                    assert(done@[j]@ == old_rings[j]@.remove(ring_hash(j as u64, node@)));
                }
                lemma_delete_agrees(before, *self, node@);
            }
        }
        Ok(())
    }

    /// Get a list of `K` observers for the provided node: its successor on each
    /// ring.
    ///
    /// # Errors
    ///
    /// Returns `NodeNotInRing` if the provided node doesn't exist already.
    pub fn get_observers(&self, node: &Endpoint) -> (r: Result<Vec<Endpoint>>)
        requires
            self.wf(),
            self.populated(),
        ensures
            r is Err <==> !self.host_present(node@),
            r matches Err(e) ==> e.kind_spec() == ErrorKind::NodeNotInRing,
            r matches Ok(v) ==> if self.ring_view(0).len() <= 1 {
                v@.len() == 0
            } else {
                &&& v@.len() == self.k_spec()
                &&& forall|i: int|
                    0 <= i < self.k_spec() ==> (#[trigger] v@[i])@ == successor_or_first(
                        self.ring_view(i),
                        ring_hash(i as u64, node@),
                    )
            },
            self.rings_agree() && self.ring_view(0).len() > 1 ==> (r matches Ok(v) ==> forall|i: int|
                0 <= i < v@.len() ==> self.members().contains((#[trigger] v@[i])@) && v@[i]@ != node@),
    {
        if !self.rings[0].contains(node.clone()) {
            return Err(Error::new_node_not_in_ring());
        }
        if self.rings[0].len() <= 1 {
            return Ok(Vec::new());
        }
        proof {
            self.lemma_wf();
        }
        let mut observers: Vec<Endpoint> = Vec::new();
        let mut i: usize = 0;
        while i < self.rings.len()
            invariant
                self.wf(),
                self.populated(),
                self.ring_view(0).len() > 1,
                i <= self.rings@.len(),
                observers@.len() == i,
                forall|j: int|
                    0 <= j < i ==> (#[trigger] observers@[j])@ == successor_or_first(
                        self.ring_view(j),
                        ring_hash(j as u64, node@),
                    ),
            decreases self.rings@.len() - i,
        {
            let ring = &self.rings[i];
            assert(ring.wf() && ring.seed_spec() == i);
            let next = ring.higher(node.clone());
            match next {
                Some(successor) => {
                    observers.push(successor.clone());
                },
                None => {
                    assert(self.ring_view(i as int).len() > 0);
                    let first = ring.first();
                    observers.push(first.unwrap().clone());
                },
            }
            i += 1;
        }
        proof {
            if self.rings_agree() {
                let (a, b) = lemma_two_members(0, self.ring_view(0));
                assert forall|i: int| 0 <= i < observers@.len() implies self.members().contains(
                    (#[trigger] observers@[i])@,
                ) && observers@[i]@ != node@ by {
                    assert(self.ring_view(i).values() == self.ring_view(0).values());
                    lemma_successor_or_first_other(i as u64, self.ring_view(i), node@, a, b);
                }
            }
        }
        Ok(observers)
    }

    /// Get a list of `K` subjects for the provided node: its predecessor on each
    /// ring.
    ///
    /// # Errors
    ///
    /// Returns `NodeNotInRing` if the provided node doesn't exist already.
    pub fn get_subjects(&self, node: &Endpoint) -> (r: Result<Vec<Endpoint>>)
        requires
            self.wf(),
            self.populated(),
        ensures
            r is Err <==> !self.host_present(node@),
            r matches Err(e) ==> e.kind_spec() == ErrorKind::NodeNotInRing,
            r matches Ok(v) ==> if self.ring_view(0).len() <= 1 {
                v@.len() == 0
            } else {
                &&& v@.len() == self.k_spec()
                &&& forall|i: int|
                    0 <= i < self.k_spec() ==> (#[trigger] v@[i])@ == predecessor_or_last(
                        self.ring_view(i),
                        ring_hash(i as u64, node@),
                    )
            },
            self.rings_agree() && self.ring_view(0).len() > 1 ==> (r matches Ok(v) ==> forall|i: int|
                0 <= i < v@.len() ==> self.members().contains((#[trigger] v@[i])@) && v@[i]@ != node@),
    {
        if !self.rings[0].contains(node.clone()) {
            return Err(Error::new_node_not_in_ring());
        }
        if self.rings[0].len() <= 1 {
            return Ok(Vec::new());
        }
        let predecessors = self.get_predecessors(node);
        proof {
            self.lemma_wf();
            if self.rings_agree() {
                let (a, b) = lemma_two_members(0, self.ring_view(0));
                assert forall|i: int| 0 <= i < predecessors@.len() implies self.members().contains(
                    (#[trigger] predecessors@[i])@,
                ) && predecessors@[i]@ != node@ by {
                    assert(self.ring_view(i).values() == self.ring_view(0).values());
                    lemma_predecessor_or_last_other(i as u64, self.ring_view(i), node@, a, b);
                }
            }
        }
        Ok(predecessors)
    }

    /// Get the observers that the node would have if it were in the view already.
    pub fn get_expected_observers(&self, node: &Endpoint) -> (v: Vec<Endpoint>)
        requires
            self.wf(),
            self.populated(),
        ensures
            str_views(v@) == expected_observers(*self, node@),
            self.ring_view(0).len() == 0 ==> v@.len() == 0,
            self.ring_view(0).len() > 0 ==> v@.len() == self.k_spec() && forall|i: int|
                0 <= i < self.k_spec() ==> (#[trigger] v@[i])@ == predecessor_or_last(
                    self.ring_view(i),
                    ring_hash(i as u64, node@),
                ),
    {
        let v = self.get_predecessors(node);
        assert(str_views(v@) =~= expected_observers(*self, node@));
        v
    }

    /// Get the `k`th ring.
    pub fn get_ring(&self, k: i32) -> (r: Option<&Ring>)
        requires
            self.wf(),
        ensures
            0 <= k < self.k_spec() ==> (r matches Some(ring) && ring.wf() && ring@ == self.ring_view(
                k as int,
            ) && ring.seed_spec() == k),
            !(0 <= k < self.k_spec()) ==> r is None,
    {
        if k < 0 || k >= self.k {
            None
        } else {
            Some(&self.rings[k as usize])
        }
    }

    /// Get the current configuration.
    pub fn get_config(&mut self) -> (c: &Configuration)
        requires
            old(self).wf(),
        ensures
            final(self).wf(),
            final(self).k_spec() == old(self).k_spec(),
            final(self).seen_view() == old(self).seen_view(),
            forall|i: int| #![trigger final(self).ring_view(i)] final(self).ring_view(i) == old(self).ring_view(i),
            old(self).config_matches(*c),
            c.node_ids_view() == old(self).config_spec().node_ids_view(),
            c.endpoints_view() == old(self).config_spec().endpoints_view(),
            c.id_spec() == old(self).config_spec().id_spec(),
    {
        if self.should_update_configuration_id {
            let endpoints = self.rings[0].keys();
            let seen = self.seen.clone();
            let new_conf = Configuration::new(endpoints, seen);
            proof {
                let m = self.ring_view(0);
                assert(str_views(endpoints@).to_set() =~= m.values()) by {
                    assert forall|x: Seq<char>| str_views(endpoints@).to_set().contains(x) <==> m.values().contains(x) by {
                        if str_views(endpoints@).contains(x) {
                            let i = choose|i: int| 0 <= i < str_views(endpoints@).len() && str_views(endpoints@)[i] == x;
                            assert(m.contains_value(endpoints@[i]@));
                        }
                        if m.values().contains(x) {
                            let h = choose|h: u64| m.dom().contains(h) && m[h] == x;
                            let i = choose|i: int| 0 <= i < endpoints@.len() && endpoints@[i]@ == m[h];
                            assert(str_views(endpoints@)[i] == x);
                        }
                    }
                }
            }
            self.current_config_id = new_conf.config_id();
            self.current_config = new_conf;
            self.should_update_configuration_id = false;
        }
        proof {
            old(self).lemma_config_unique(self.current_config);
        }
        &self.current_config
    }

    /// The identifier of the current configuration.
    pub fn get_current_config_id(&mut self) -> (id: ConfigId)
        requires
            old(self).wf(),
        ensures
            final(self).wf(),
            final(self).k_spec() == old(self).k_spec(),
            final(self).seen_view() == old(self).seen_view(),
            forall|i: int| #![trigger final(self).ring_view(i)] final(self).ring_view(i) == old(self).ring_view(i),
            id == old(self).config_spec().id_spec(),
    {
        let c = self.get_config();
        c.config_id()
    }

    /// Get the current size of the membership.
    pub fn get_membership_size(&self) -> (n: usize)
        requires
            self.wf(),
        ensures
            n == self.ring_view(0).len(),
    {
        self.rings[0].len()
    }

    /// Check if the node id has been seen.
    pub fn is_node_id_present(&self, node_id: &NodeId) -> (b: bool)
        requires
            self.wf(),
        ensures
            b == self.seen_view().contains(*node_id),
    {
        contains_id(&self.seen, node_id)
    }

    /// Check if the node is present.
    pub fn is_host_present(&self, node: &Endpoint) -> (b: bool)
        requires
            self.wf(),
        ensures
            b == self.host_present(node@),
    {
        self.rings[0].contains(node.clone())
    }

    /// The number of rings.
    pub fn k(&self) -> (k: i32)
        ensures
            k == self.k_spec(),
    {
        self.k
    }

    /// Whether every ring has a member whenever the first ring has one.
    pub fn rings_populated(&self) -> (b: bool)
        requires
            self.wf(),
        ensures
            b == self.populated(),
    {
        if self.rings[0].len() == 0 {
            return true;
        }
        let mut i: usize = 0;
        while i < self.rings.len()
            invariant
                self.wf(),
                self.ring_view(0).len() > 0,
                i <= self.rings@.len(),
                forall|j: int| 0 <= j < i ==> #[trigger] self.ring_view(j).len() > 0,
            decreases self.rings@.len() - i,
        {
            if self.rings[i].len() == 0 {
                assert(self.ring_view(i as int).len() == 0);
                return false;
            }
            i += 1;
        }
        true
    }

    /// The rings on which `subject` is a subject of `observer`, in increasing
    /// order; none when `observer` is not a member.
    pub fn get_ring_numbers(&self, observer: &Endpoint, subject: &Endpoint) -> (r: Vec<RingNumber>)
        requires
            self.wf(),
            self.populated(),
        ensures
            !self.host_present(observer@) ==> r@.len() == 0,
            self.host_present(observer@) ==> r@ == matching_rings(
                subjects_of(*self, observer@),
                subject@,
                subjects_of(*self, observer@).len(),
            ),
    {
        match self.get_subjects(observer) {
            Ok(subjects) => {
                let ghost sv = str_views(subjects@);
                assert(sv =~= subjects_of(*self, observer@));
                let mut out: Vec<RingNumber> = Vec::new();
                let mut i: usize = 0;
                while i < subjects.len()
                    invariant
                        sv == str_views(subjects@),
                        subjects@.len() <= self.k_spec(),
                        self.k_spec() <= i32::MAX,
                        i <= subjects@.len(),
                        out@ == matching_rings(sv, subject@, i as nat),
                    decreases subjects@.len() - i,
                {
                    if subjects[i] == *subject {
                        out.push(i as i32);
                    }
                    i += 1;
                }
                out
            },
            Err(_) => Vec::new(),
        }
    }

    fn get_predecessors(&self, node: &Endpoint) -> (v: Vec<Endpoint>)
        requires
            self.wf(),
            self.populated(),
        ensures
            self.ring_view(0).len() == 0 ==> v@.len() == 0,
            self.ring_view(0).len() > 0 ==> v@.len() == self.k_spec() && forall|i: int|
                0 <= i < self.k_spec() ==> (#[trigger] v@[i])@ == predecessor_or_last(
                    self.ring_view(i),
                    ring_hash(i as u64, node@),
                ),
    {
        if self.rings[0].is_empty() {
            return Vec::new();
        }
        let mut predecessors: Vec<Endpoint> = Vec::new();
        let mut i: usize = 0;
        while i < self.rings.len()
            invariant
                self.wf(),
                self.populated(),
                self.ring_view(0).len() > 0,
                i <= self.rings@.len(),
                predecessors@.len() == i,
                forall|j: int|
                    0 <= j < i ==> (#[trigger] predecessors@[j])@ == predecessor_or_last(
                        self.ring_view(j),
                        ring_hash(j as u64, node@),
                    ),
            decreases self.rings@.len() - i,
        {
            let ring = &self.rings[i];
            assert(ring.wf() && ring.seed_spec() == i);
            let prev = ring.lower(node.clone());
            match prev {
                Some(p) => {
                    predecessors.push(p.clone());
                },
                None => {
                    assert(self.ring_view(i as int).len() > 0);
                    let last = ring.last();
                    predecessors.push(last.unwrap().clone());
                },
            }
            i += 1;
        }
        predecessors
    }
}

/// Whether `id` occurs in `v`.
pub(crate) fn contains_id(v: &Vec<NodeId>, id: &NodeId) -> (b: bool)
    ensures
        b == v@.contains(*id),
{
    let mut i: usize = 0;
    while i < v.len()
        invariant
            i <= v@.len(),
            forall|j: int| 0 <= j < i ==> v@[j] != *id,
        decreases v@.len() - i,
    {
        if v[i].as_u128() == id.as_u128() {
            proof {
                NodeId::lemma_id_injective(v@[i as int], *id);
            }
            return true;
        }
        proof {
            NodeId::lemma_id_injective(v@[i as int], *id);
        }
        i += 1;
    }
    false
}

/// The configuration, and so its identifier, depends on the membership and
/// the identifiers seen alone: two views that agree on both have the same.
pub proof fn lemma_config_determined(v1: View, v2: View)
    requires
        v1.members() == v2.members(),
        v1.seen_view() == v2.seen_view(),
    ensures
        v1.config_spec() == v2.config_spec(),
        v1.config_spec().id_spec() == v2.config_spec().id_spec(),
{
}

/// Two configurations of the same endpoints and identifiers are the same lists,
/// whatever order they were built from, and have the same identifier.
pub proof fn lemma_config_canonical(c1: Configuration, c2: Configuration)
    requires
        c1.wf(),
        c2.wf(),
        c1.endpoints_view().to_set() == c2.endpoints_view().to_set(),
        c1.node_ids_view().to_set() == c2.node_ids_view().to_set(),
    ensures
        c1.endpoints_view() == c2.endpoints_view(),
        c1.node_ids_view() == c2.node_ids_view(),
        c1.id_spec() == c2.id_spec(),
{
    lemma_sorted_str_unique(c1.endpoints_view(), c2.endpoints_view());
    lemma_sorted_ids_unique(c1.node_ids_view(), c2.node_ids_view());
}

/// A node added to a ring takes its position there, and a node taken out leaves
/// it; inserting a node whose position is taken changes nothing.
pub proof fn lemma_ring_insert_remove(seed: u64, m: Map<u64, Seq<char>>, node: Seq<char>)
    ensures
        ring_insert(seed, m, node).dom().contains(ring_hash(seed, node)),
        !m.remove(ring_hash(seed, node)).dom().contains(ring_hash(seed, node)),
        m.dom().contains(ring_hash(seed, node)) ==> ring_insert(seed, m, node) == m,
        !m.dom().contains(ring_hash(seed, node)) ==> ring_insert(seed, m, node).remove(ring_hash(seed, node)) == m,
{
    if !m.dom().contains(ring_hash(seed, node)) {
        assert(ring_insert(seed, m, node).remove(ring_hash(seed, node)) =~= m);
    }
}

/// Every ring holds the same members as the first.
pub open spec fn same_members(rings: Seq<Map<u64, Seq<char>>>) -> bool {
    forall|i: int| 0 <= i < rings.len() ==> (#[trigger] rings[i]).values() == rings[0].values()
}

/// A node put at a free position joins the members.
proof fn lemma_insert_values(m: Map<u64, Seq<char>>, k: u64, v: Seq<char>)
    requires
        !m.dom().contains(k),
    ensures
        m.insert(k, v).values() == m.values().insert(v),
{
    let n = m.insert(k, v);
    assert forall|x: Seq<char>| #[trigger] n.values().contains(x) implies m.values().insert(v).contains(x) by {
        let h = choose|h: u64| n.dom().contains(h) && n[h] == x;
        if h != k {
            assert(m.dom().contains(h) && m[h] == x);
        }
    }
    assert forall|x: Seq<char>| #[trigger] m.values().insert(v).contains(x) implies n.values().contains(x) by {
        if x == v {
            assert(n.dom().contains(k) && n[k] == v);
        } else {
            let h = choose|h: u64| m.dom().contains(h) && m[h] == x;
            assert(n.dom().contains(h) && n[h] == x);
        }
    }
    assert(n.values() =~= m.values().insert(v));
}

/// A member taken from its position leaves the members, and only it.
proof fn lemma_remove_values(seed: u64, m: Map<u64, Seq<char>>, node: Seq<char>)
    requires
        keys_hashed(seed, m),
        m.values().contains(node),
    ensures
        m.remove(ring_hash(seed, node)).values() == m.values().remove(node),
{
    let k = ring_hash(seed, node);
    let hn = choose|h: u64| m.dom().contains(h) && m[h] == node;
    assert(hn == k);
    let n = m.remove(k);
    assert forall|x: Seq<char>| #[trigger] n.values().contains(x) implies m.values().remove(node).contains(x) by {
        let h = choose|h: u64| n.dom().contains(h) && n[h] == x;
        assert(m.dom().contains(h) && m[h] == x);
        if x == node {
            assert(ring_hash(seed, m[h]) == h);
        }
    }
    assert forall|x: Seq<char>| #[trigger] m.values().remove(node).contains(x) implies n.values().contains(x) by {
        let h = choose|h: u64| m.dom().contains(h) && m[h] == x;
        assert(h != k);
        assert(n.dom().contains(h) && n[h] == x);
    }
    assert(n.values() =~= m.values().remove(node));
}

/// Adding a node whose position is free on every ring keeps the rings'
/// members the same: the node joins each of them.
pub proof fn lemma_add_keeps_same_members(rings: Seq<Map<u64, Seq<char>>>, node: Seq<char>)
    requires
        rings.len() > 0,
        same_members(rings),
        forall|i: int| 0 <= i < rings.len() ==> !(#[trigger] rings[i]).dom().contains(ring_hash(i as u64, node)),
    ensures
        same_members(Seq::new(rings.len(), |i: int| ring_insert(i as u64, rings[i], node))),
        ring_insert(0, rings[0], node).values() == rings[0].values().insert(node),
{
    let after = Seq::new(rings.len(), |i: int| ring_insert(i as u64, rings[i], node));
    assert forall|i: int| 0 <= i < after.len() implies (#[trigger] after[i]).values() == after[0].values() by {
        assert(!rings[i].dom().contains(ring_hash(i as u64, node)));
        lemma_insert_values(rings[i], ring_hash(i as u64, node), node);
        lemma_insert_values(rings[0], ring_hash(0, node), node);
    }
    lemma_insert_values(rings[0], ring_hash(0, node), node);
}

/// Deleting a member from every ring keeps the rings' members the same: it
/// leaves each of them, and nothing else does.
pub proof fn lemma_delete_keeps_same_members(rings: Seq<Map<u64, Seq<char>>>, node: Seq<char>)
    requires
        rings.len() > 0,
        same_members(rings),
        forall|i: int| 0 <= i < rings.len() ==> keys_hashed(i as u64, #[trigger] rings[i]),
        rings[0].values().contains(node),
    ensures
        same_members(Seq::new(rings.len(), |i: int| rings[i].remove(ring_hash(i as u64, node)))),
        rings[0].remove(ring_hash(0, node)).values() == rings[0].values().remove(node),
{
    let after = Seq::new(rings.len(), |i: int| rings[i].remove(ring_hash(i as u64, node)));
    assert forall|i: int| 0 <= i < after.len() implies (#[trigger] after[i]).values() == after[0].values() by {
        assert(rings[i].values() == rings[0].values());
        lemma_remove_values(i as u64, rings[i], node);
        lemma_remove_values(0, rings[0], node);
    }
    lemma_remove_values(0, rings[0], node);
}

/// On a ring of two members or more, a member that holds its own position is
/// the observer of its subject: the first member after its predecessor's
/// position is itself.
pub proof fn lemma_subject_observed_by(seed: u64, m: Map<u64, Seq<char>>, node: Seq<char>)
    requires
        keys_hashed(seed, m),
        m.dom().contains(ring_hash(seed, node)),
        m[ring_hash(seed, node)] == node,
        m.dom().len() >= 2,
    ensures
        successor_or_first(m, ring_hash(seed, predecessor_or_last(m, ring_hash(seed, node)))) == node,
{
    let h = ring_hash(seed, node);
    let rest = m.dom().remove(h);
    assert(rest.len() >= 1);
    if rest.len() == 0 {
        rest.lemma_len0_is_empty();
    }
    assert(rest.finite());
    let other = rest.choose();
    assert(rest.contains(other));
    let k = if exists|hk: u64| is_predecessor(m, h, hk) {
        choose|hk: u64| is_predecessor(m, h, hk)
    } else {
        if other < h {
            lemma_predecessor_exists(m, h, other);
        }
        lemma_ends_exist(m);
        choose|hk: u64| is_max_key(m, hk)
    };
    assert(m.dom().contains(k));
    assert(k != h) by {
        if !(exists|hk: u64| is_predecessor(m, h, hk)) {
            assert(other > h);
            assert(other <= k);
        }
    }
    let sub = predecessor_or_last(m, h);
    assert(sub == m[k]);
    assert(ring_hash(seed, sub) == k);
    assert(sub != node);
    lemma_observer_subject_dual(seed, m, node, sub);
}

/// On a ring with two members or more, the member after the position of `node`
/// (or the first, past the end) is a member other than `node`.
proof fn lemma_successor_or_first_other(seed: u64, m: Map<u64, Seq<char>>, node: Seq<char>, a: Seq<char>, b: Seq<char>)
    requires
        keys_hashed(seed, m),
        m.values().contains(a),
        m.values().contains(b),
        a != b,
    ensures
        m.values().contains(successor_or_first(m, ring_hash(seed, node))),
        successor_or_first(m, ring_hash(seed, node)) != node,
{
    let h = ring_hash(seed, node);
    let ka = choose|k: u64| m.dom().contains(k) && m[k] == a;
    let kb = choose|k: u64| m.dom().contains(k) && m[k] == b;
    assert(ka != kb);
    let other = if ka != h { ka } else { kb };
    assert(m.dom().contains(other) && other != h);
    let k = if exists|hk: u64| is_successor(m, h, hk) {
        choose|hk: u64| is_successor(m, h, hk)
    } else {
        if other > h {
            lemma_successor_exists(m, h, other);
        }
        assert(m.dom().len() > 0) by {
            if m.dom().len() == 0 {
                m.dom().lemma_len0_is_empty();
            }
        }
        lemma_ends_exist(m);
        choose|hk: u64| is_min_key(m, hk)
    };
    assert(m.dom().contains(k));
    assert(k != h) by {
        if !(exists|hk: u64| is_successor(m, h, hk)) {
            assert(other < h);
            assert(k <= other);
        }
    }
    assert(successor_or_first(m, h) == m[k]);
    assert(ring_hash(seed, m[k]) == k);
}

/// On a ring with two members or more, the member before the position of
/// `node` (or the last, before the start) is a member other than `node`.
proof fn lemma_predecessor_or_last_other(seed: u64, m: Map<u64, Seq<char>>, node: Seq<char>, a: Seq<char>, b: Seq<char>)
    requires
        keys_hashed(seed, m),
        m.values().contains(a),
        m.values().contains(b),
        a != b,
    ensures
        m.values().contains(predecessor_or_last(m, ring_hash(seed, node))),
        predecessor_or_last(m, ring_hash(seed, node)) != node,
{
    let h = ring_hash(seed, node);
    let ka = choose|k: u64| m.dom().contains(k) && m[k] == a;
    let kb = choose|k: u64| m.dom().contains(k) && m[k] == b;
    assert(ka != kb);
    let other = if ka != h { ka } else { kb };
    assert(m.dom().contains(other) && other != h);
    let k = if exists|hk: u64| is_predecessor(m, h, hk) {
        choose|hk: u64| is_predecessor(m, h, hk)
    } else {
        if other < h {
            lemma_predecessor_exists(m, h, other);
        }
        assert(m.dom().len() > 0) by {
            if m.dom().len() == 0 {
                m.dom().lemma_len0_is_empty();
            }
        }
        lemma_ends_exist(m);
        choose|hk: u64| is_max_key(m, hk)
    };
    assert(m.dom().contains(k));
    assert(k != h) by {
        if !(exists|hk: u64| is_predecessor(m, h, hk)) {
            assert(other > h);
            assert(other <= k);
        }
    }
    assert(predecessor_or_last(m, h) == m[k]);
    assert(ring_hash(seed, m[k]) == k);
}

/// A ring with two positions holds two different members.
proof fn lemma_two_members(seed: u64, m: Map<u64, Seq<char>>) -> (r: (Seq<char>, Seq<char>))
    requires
        keys_hashed(seed, m),
        m.dom().len() >= 2,
    ensures
        m.values().contains(r.0),
        m.values().contains(r.1),
        r.0 != r.1,
{
    let k1 = m.dom().choose();
    assert(m.dom().contains(k1)) by {
        if m.dom().len() == 0 {
            m.dom().lemma_len0_is_empty();
        }
    }
    let rest = m.dom().remove(k1);
    assert(rest.len() >= 1);
    assert(rest.contains(rest.choose())) by {
        if rest.len() == 0 {
            rest.lemma_len0_is_empty();
        }
    }
    let k2 = rest.choose();
    assert(m.values().contains(m[k1]));
    assert(m.values().contains(m[k2]));
    assert(ring_hash(seed, m[k1]) == k1 && ring_hash(seed, m[k2]) == k2);
    (m[k1], m[k2])
}

/// A view whose rings agree still agrees after a node whose position is free on
/// every ring is added to each: the node joins the members.
pub proof fn lemma_add_agrees(v1: View, v2: View, node: Seq<char>)
    requires
        v1.k_spec() > 0,
        v2.k_spec() == v1.k_spec(),
        v1.rings_agree(),
        forall|i: int| 0 <= i < v1.k_spec() ==> !(#[trigger] v1.ring_view(i)).dom().contains(ring_hash(i as u64, node)),
        forall|i: int| 0 <= i < v1.k_spec() ==> #[trigger] v2.ring_view(i) == ring_insert(i as u64, v1.ring_view(i), node),
    ensures
        v2.rings_agree(),
        v2.members() == v1.members().insert(node),
{
    let rs = Seq::new(v1.k_spec() as nat, |i: int| v1.ring_view(i));
    assert forall|i: int| 0 <= i < rs.len() implies !(#[trigger] rs[i]).dom().contains(ring_hash(i as u64, node)) by {
        assert(rs[i] == v1.ring_view(i));
    }
    assert(same_members(rs)) by {
        assert forall|i: int| 0 <= i < rs.len() implies (#[trigger] rs[i]).values() == rs[0].values() by {
            assert(rs[i] == v1.ring_view(i));
        }
    }
    lemma_add_keeps_same_members(rs, node);
    let after = Seq::new(rs.len(), |i: int| ring_insert(i as u64, rs[i], node));
    assert(v2.ring_view(0) == after[0]);
    assert forall|i: int| 0 <= i < v2.k_spec() implies (#[trigger] v2.ring_view(i)).values() == v2.ring_view(0).values() by {
        assert(v2.ring_view(i) == after[i]);
    }
}

/// A view whose rings agree still agrees after a member is deleted from each
/// ring: the node leaves the members, and nothing else does.
pub proof fn lemma_delete_agrees(v1: View, v2: View, node: Seq<char>)
    requires
        v1.wf(),
        v2.k_spec() == v1.k_spec(),
        v1.rings_agree(),
        v1.members().contains(node),
        forall|i: int| 0 <= i < v1.k_spec() ==> #[trigger] v2.ring_view(i) == v1.ring_view(i).remove(ring_hash(i as u64, node)),
    ensures
        v2.rings_agree(),
        v2.members() == v1.members().remove(node),
{
    v1.lemma_wf();
    let rs = Seq::new(v1.k_spec() as nat, |i: int| v1.ring_view(i));
    assert forall|i: int| 0 <= i < rs.len() implies keys_hashed(i as u64, #[trigger] rs[i]) by {
        assert(rs[i] == v1.ring_view(i));
    }
    assert(same_members(rs)) by {
        assert forall|i: int| 0 <= i < rs.len() implies (#[trigger] rs[i]).values() == rs[0].values() by {
            assert(rs[i] == v1.ring_view(i));
        }
    }
    lemma_delete_keeps_same_members(rs, node);
    let after = Seq::new(rs.len(), |i: int| rs[i].remove(ring_hash(i as u64, node)));
    assert(v2.ring_view(0) == after[0]);
    assert forall|i: int| 0 <= i < v2.k_spec() implies (#[trigger] v2.ring_view(i)).values() == v2.ring_view(0).values() by {
        assert(v2.ring_view(i) == after[i]);
    }
}

/// A finite ring with a member has a first and a last position.
pub proof fn lemma_ends_exist(m: Map<u64, Seq<char>>)
    requires
        m.dom().finite(),
        m.dom().len() > 0,
    ensures
        exists|hk: u64| is_min_key(m, hk),
        exists|hk: u64| is_max_key(m, hk),
    decreases m.dom().len(),
{
    let x = m.dom().choose();
    assert(m.dom().contains(x));
    let m2 = m.remove(x);
    assert(m2.dom() =~= m.dom().remove(x));
    if m2.dom().len() == 0 {
        assert forall|h: u64| #[trigger] m.dom().contains(h) implies h == x by {
            if h != x {
                assert(m2.dom().contains(h));
            }
        }
        assert(is_min_key(m, x));
        assert(is_max_key(m, x));
    } else {
        lemma_ends_exist(m2);
        let lo = choose|hk: u64| is_min_key(m2, hk);
        let hi = choose|hk: u64| is_max_key(m2, hk);
        let lo2 = if x < lo { x } else { lo };
        let hi2 = if x > hi { x } else { hi };
        assert forall|h: u64| #[trigger] m.dom().contains(h) implies lo2 <= h && h <= hi2 by {
            if h != x {
                assert(m2.dom().contains(h));
            }
        }
        assert(is_min_key(m, lo2));
        assert(is_max_key(m, hi2));
    }
}

/// On a ring, `a` observes `b` exactly when `b` is the subject of `a`, for two
/// members that hold their own positions: the first member after `b`'s
/// position (or the first member, past the end) is `a` exactly when the last
/// member before `a`'s position (or the last member, before the start) is `b`.
pub proof fn lemma_observer_subject_dual(seed: u64, m: Map<u64, Seq<char>>, a: Seq<char>, b: Seq<char>)
    requires
        keys_hashed(seed, m),
        m.dom().contains(ring_hash(seed, a)),
        m.dom().contains(ring_hash(seed, b)),
        m[ring_hash(seed, a)] == a,
        m[ring_hash(seed, b)] == b,
        a != b,
    ensures
        (successor_or_first(m, ring_hash(seed, b)) == a) <==> (predecessor_or_last(m, ring_hash(seed, a)) == b),
{
    let ha = ring_hash(seed, a);
    let hb = ring_hash(seed, b);
    assert(ha != hb);
    assert(m.dom().len() > 0) by {
        if m.dom().len() == 0 {
            m.dom().lemma_len0_is_empty();
        }
    }
    lemma_ends_exist(m);
    let lo = choose|hk: u64| is_min_key(m, hk);
    let hi = choose|hk: u64| is_max_key(m, hk);
    // Positions hold their keys: a key at a position is the key hashed there.
    if successor_or_first(m, hb) == a {
        if exists|hk: u64| is_successor(m, hb, hk) {
            let hk = choose|hk: u64| is_successor(m, hb, hk);
            assert(ring_hash(seed, m[hk]) == hk);
            assert(hk == ha);
            assert(is_predecessor(m, ha, hb));
            let hp = choose|hp: u64| is_predecessor(m, ha, hp);
            assert(hp == hb);
        } else {
            assert(ring_hash(seed, m[lo]) == lo);
            assert(lo == ha);
            assert(is_max_key(m, hb)) by {
                assert forall|h: u64| #[trigger] m.dom().contains(h) implies h <= hb by {
                    if h > hb {
                        lemma_successor_exists(m, hb, h);
                    }
                }
            }
            assert(!exists|hp: u64| is_predecessor(m, ha, hp));
            assert(hi == hb) by {
                assert(hi <= hb && hb <= hi);
            }
        }
    }
    if predecessor_or_last(m, ha) == b {
        if exists|hk: u64| is_predecessor(m, ha, hk) {
            let hk = choose|hk: u64| is_predecessor(m, ha, hk);
            assert(ring_hash(seed, m[hk]) == hk);
            assert(hk == hb);
            assert(is_successor(m, hb, ha));
            let hs = choose|hs: u64| is_successor(m, hb, hs);
            assert(hs == ha);
        } else {
            assert(ring_hash(seed, m[hi]) == hi);
            assert(hi == hb);
            assert(is_min_key(m, ha)) by {
                assert forall|h: u64| #[trigger] m.dom().contains(h) implies ha <= h by {
                    if h < ha {
                        lemma_predecessor_exists(m, ha, h);
                    }
                }
            }
            assert(!exists|hs: u64| is_successor(m, hb, hs));
            assert(lo == ha) by {
                assert(lo <= ha && ha <= lo);
            }
        }
    }
}

/// A position after `h` gives `h` a successor.
proof fn lemma_successor_exists(m: Map<u64, Seq<char>>, h: u64, h2: u64)
    requires
        m.dom().finite(),
        m.dom().contains(h2),
        h < h2,
    ensures
        exists|hk: u64| is_successor(m, h, hk),
{
    let after = m.restrict(m.dom().filter(|x: u64| x > h));
    assert(after.dom() =~= m.dom().filter(|x: u64| x > h));
    assert(after.dom().contains(h2));
    assert(after.dom().finite()) by {
        vstd::set_lib::lemma_len_subset(after.dom(), m.dom());
    }
    lemma_ends_exist(after);
    let lo = choose|hk: u64| is_min_key(after, hk);
    assert(is_successor(m, h, lo)) by {
        assert forall|x: u64| #[trigger] m.dom().contains(x) && h < x implies lo <= x by {
            assert(after.dom().contains(x));
        }
    }
}

/// A position before `h` gives `h` a predecessor.
proof fn lemma_predecessor_exists(m: Map<u64, Seq<char>>, h: u64, h2: u64)
    requires
        m.dom().finite(),
        m.dom().contains(h2),
        h2 < h,
    ensures
        exists|hk: u64| is_predecessor(m, h, hk),
{
    let before = m.restrict(m.dom().filter(|x: u64| x < h));
    assert(before.dom() =~= m.dom().filter(|x: u64| x < h));
    assert(before.dom().contains(h2));
    assert(before.dom().finite()) by {
        vstd::set_lib::lemma_len_subset(before.dom(), m.dom());
    }
    lemma_ends_exist(before);
    let hi = choose|hk: u64| is_max_key(before, hk);
    assert(is_predecessor(m, h, hi)) by {
        assert forall|x: u64| #[trigger] m.dom().contains(x) && x < h implies x <= hi by {
            assert(before.dom().contains(x));
        }
    }
}

} // verus!
