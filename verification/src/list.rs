//! The list of peers to gossip with, in the order they were added.
use crate::common::Endpoint;
use crate::peer::{Peer, PeerView};
use indexmap::IndexMap;
use std::collections::hash_map::RandomState;
use vstd::prelude::*;

verus! {

#[verifier::external_type_specification]
#[verifier::external_body]
#[verifier::reject_recursive_types(K)]
#[verifier::reject_recursive_types(V)]
#[verifier::reject_recursive_types(S)]
pub struct ExIndexMap<K, V, S>(IndexMap<K, V, S>);

/// The entries of a map from address to peer, in the map's order, each
/// address by its text and each peer by its view.
pub uninterp spec fn peer_entries(m: IndexMap<Endpoint, Peer, RandomState>) -> Seq<(Seq<char>, PeerView)>;

/// Position of the entry of `key` in `s`, if it has one.
pub open spec fn has_key(s: Seq<(Seq<char>, PeerView)>, key: Seq<char>, i: int) -> bool {
    0 <= i < s.len() && s[i].0 == key
}

/// An empty map, from `IndexMap::new`.
#[verifier::external_body]
fn map_new() -> (m: IndexMap<Endpoint, Peer, RandomState>)
    ensures
        peer_entries(m) == Seq::<(Seq<char>, PeerView)>::empty(),
{
    IndexMap::new()
}

/// `IndexMap::insert`: as its documentation states, an entry whose key equals
/// `key` keeps its place and takes `value`; otherwise the pair goes last.
/// Keys compare as `String`s do, by their text.
#[verifier::external_body]
fn map_insert(m: &mut IndexMap<Endpoint, Peer, RandomState>, key: Endpoint, value: Peer)
    ensures
        (exists|i: int| #[trigger] has_key(peer_entries(*old(m)), key@, i)) ==> exists|i: int|
            #[trigger] has_key(peer_entries(*old(m)), key@, i) && peer_entries(*final(m)) == peer_entries(
                *old(m),
            ).update(i, (key@, value@)),
        !(exists|i: int| #[trigger] has_key(peer_entries(*old(m)), key@, i)) ==> peer_entries(*final(m))
            == peer_entries(*old(m)).push((key@, value@)),
{
    m.insert(key, value);
}

/// `IndexMap::remove`, which the documentation describes as `swap_remove`: the
/// entry of `key`, if any, is replaced by the last entry, which is then
/// dropped from the end.
#[verifier::external_body]
fn map_remove(m: &mut IndexMap<Endpoint, Peer, RandomState>, key: &Endpoint)
    ensures
        (exists|i: int| #[trigger] has_key(peer_entries(*old(m)), key@, i)) ==> exists|i: int|
            #[trigger] has_key(peer_entries(*old(m)), key@, i) && peer_entries(*final(m)) == peer_entries(
                *old(m),
            ).update(i, peer_entries(*old(m)).last()).drop_last(),
        !(exists|i: int| #[trigger] has_key(peer_entries(*old(m)), key@, i)) ==> peer_entries(*final(m))
            == peer_entries(*old(m)),
{
    m.remove(key);
}

/// `IndexMap::pop`: the last entry is removed and returned; the rest keep
/// their order. The peer is handed out, its address dropped.
#[verifier::external_body]
fn map_pop(m: &mut IndexMap<Endpoint, Peer, RandomState>) -> (r: Option<Peer>)
    ensures
        peer_entries(*old(m)).len() == 0 ==> r is None && peer_entries(*final(m)) == peer_entries(*old(m)),
        peer_entries(*old(m)).len() > 0 ==> (r matches Some(p) && p@ == peer_entries(*old(m)).last().1
            && peer_entries(*final(m)) == peer_entries(*old(m)).drop_last()),
{
    m.pop().map(|(_, p)| p)
}

/// The peers to gossip with.
#[derive(Debug)]
pub struct PeerList {
    list: IndexMap<Endpoint, Peer, RandomState>,
}

impl PeerList {
    /// The peers by address, in the order of the list.
    pub closed spec fn entries(&self) -> Seq<(Seq<char>, PeerView)> {
        peer_entries(self.list)
    }

    pub fn new() -> (l: Self)
        ensures
            l.entries() == Seq::<(Seq<char>, PeerView)>::empty(),
    {
        PeerList::from(map_new())
    }

    pub fn from(list: IndexMap<Endpoint, Peer, RandomState>) -> (l: Self)
        ensures
            l.entries() == peer_entries(list),
    {
        PeerList { list }
    }

    /// Add `peer` under its address: a peer of the same address is replaced in
    /// its place; a new one goes last.
    pub fn add(&mut self, peer: Peer)
        ensures
            (exists|i: int| #[trigger] has_key(old(self).entries(), peer@.1, i)) ==> exists|i: int|
                #[trigger] has_key(old(self).entries(), peer@.1, i) && final(self).entries() == old(
                    self,
                ).entries().update(i, (peer@.1, peer@)),
            !(exists|i: int| #[trigger] has_key(old(self).entries(), peer@.1, i)) ==> final(self).entries()
                == old(self).entries().push((peer@.1, peer@)),
    {
        let addr = peer.addr();
        map_insert(&mut self.list, addr, peer);
    }

    /// Remove the peer at the address of `peer`: the last peer takes its place.
    pub fn remove(&mut self, peer: Peer)
        ensures
            (exists|i: int| #[trigger] has_key(old(self).entries(), peer@.1, i)) ==> exists|i: int|
                #[trigger] has_key(old(self).entries(), peer@.1, i) && final(self).entries() == old(
                    self,
                ).entries().update(i, old(self).entries().last()).drop_last(),
            !(exists|i: int| #[trigger] has_key(old(self).entries(), peer@.1, i)) ==> final(self).entries()
                == old(self).entries(),
    {
        let addr = peer.addr();
        map_remove(&mut self.list, &addr);
    }

    /// The peer to gossip with next: the last one, which leaves the list.
    pub fn pick_gossip(&mut self) -> (r: Option<Peer>)
        ensures
            old(self).entries().len() == 0 ==> r is None && final(self).entries() == old(self).entries(),
            old(self).entries().len() > 0 ==> (r matches Some(p) && p@ == old(self).entries().last().1
                && final(self).entries() == old(self).entries().drop_last()),
    {
        map_pop(&mut self.list)
    }
}

} // verus!
