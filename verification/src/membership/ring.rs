//! A ring of endpoints ordered by a seeded hash.
//!
//! Each ring holds the membership sorted by the xxHash64 digest of the
//! endpoint's bytes under the ring's seed. Two endpoints whose digests agree
//! are the same position on the ring: the second is neither inserted nor
//! distinguished from the first.
use crate::common::Endpoint;
use crate::hashing::{xxhash64, xxhash64_bytes};
use vstd::prelude::*;
use vstd::utf8::encode_utf8;

verus! {

/// The position of `key` on the ring seeded with `seed`.
pub open spec fn ring_hash(seed: u64, key: Seq<char>) -> u64 {
    xxhash64(seed, encode_utf8(key))
}

/// Entries strictly increasing by position.
pub open spec fn sorted_by_hash(s: Seq<(u64, Seq<char>)>) -> bool {
    forall|i: int, j: int| 0 <= i < j < s.len() ==> s[i].0 < s[j].0
}

/// The map from position to key that a sequence of entries describes.
pub open spec fn entries_map(s: Seq<(u64, Seq<char>)>) -> Map<u64, Seq<char>>
    decreases s.len(),
{
    if s.len() == 0 {
        Map::empty()
    } else {
        entries_map(s.drop_last()).insert(s.last().0, s.last().1)
    }
}

/// `hk` is the smallest position of `m`.
pub open spec fn is_min_key(m: Map<u64, Seq<char>>, hk: u64) -> bool {
    m.dom().contains(hk) && forall|h: u64| #[trigger] m.dom().contains(h) ==> hk <= h
}

/// `hk` is the largest position of `m`.
pub open spec fn is_max_key(m: Map<u64, Seq<char>>, hk: u64) -> bool {
    m.dom().contains(hk) && forall|h: u64| #[trigger] m.dom().contains(h) ==> h <= hk
}

/// `hk` is the first position of `m` strictly after `h`.
pub open spec fn is_successor(m: Map<u64, Seq<char>>, h: u64, hk: u64) -> bool {
    &&& m.dom().contains(hk)
    &&& h < hk
    &&& forall|h2: u64| #[trigger] m.dom().contains(h2) && h < h2 ==> hk <= h2
}

/// `hk` is the last position of `m` strictly before `h`.
pub open spec fn is_predecessor(m: Map<u64, Seq<char>>, h: u64, hk: u64) -> bool {
    &&& m.dom().contains(hk)
    &&& hk < h
    &&& forall|h2: u64| #[trigger] m.dom().contains(h2) && h2 < h ==> h2 <= hk
}

/// The key at the first position after `h`, if there is one.
pub open spec fn successor(m: Map<u64, Seq<char>>, h: u64) -> Option<Seq<char>> {
    if exists|hk: u64| is_successor(m, h, hk) {
        Some(m[choose|hk: u64| is_successor(m, h, hk)])
    } else {
        None
    }
}

/// The key at the last position before `h`, if there is one.
pub open spec fn predecessor(m: Map<u64, Seq<char>>, h: u64) -> Option<Seq<char>> {
    if exists|hk: u64| is_predecessor(m, h, hk) {
        Some(m[choose|hk: u64| is_predecessor(m, h, hk)])
    } else {
        None
    }
}

/// The key at the smallest position, if the ring is not empty.
pub open spec fn first_key(m: Map<u64, Seq<char>>) -> Option<Seq<char>> {
    if exists|hk: u64| is_min_key(m, hk) {
        Some(m[choose|hk: u64| is_min_key(m, hk)])
    } else {
        None
    }
}

/// The key at the largest position, if the ring is not empty.
pub open spec fn last_key(m: Map<u64, Seq<char>>) -> Option<Seq<char>> {
    if exists|hk: u64| is_max_key(m, hk) {
        Some(m[choose|hk: u64| is_max_key(m, hk)])
    } else {
        None
    }
}

/// The view of an optional borrowed endpoint.
pub open spec fn opt_view(r: Option<&Endpoint>) -> Option<Seq<char>> {
    match r {
        Some(k) => Some(k@),
        None => None,
    }
}

/// Every position of `m` is the hash of the key stored there, and `m` is finite.
pub open spec fn keys_hashed(seed: u64, m: Map<u64, Seq<char>>) -> bool {
    &&& m.dom().finite()
    &&& forall|h: u64| #[trigger] m.dom().contains(h) ==> ring_hash(seed, m[h]) == h
}

proof fn lemma_entries_map(s: Seq<(u64, Seq<char>)>)
    requires
        sorted_by_hash(s),
    ensures
        entries_map(s).dom().finite(),
        entries_map(s).dom().len() == s.len(),
        forall|h: u64|
            #[trigger] entries_map(s).dom().contains(h) <==> exists|i: int|
                0 <= i < s.len() && s[i].0 == h,
        forall|i: int| 0 <= i < s.len() ==> #[trigger] entries_map(s)[s[i].0] == s[i].1,
    decreases s.len(),
{
    if s.len() > 0 {
        let p = s.drop_last();
        assert(sorted_by_hash(p));
        lemma_entries_map(p);
        let m = entries_map(p);
        assert forall|i: int| 0 <= i < p.len() implies p[i].0 < s.last().0 by {
            assert(s[i] == p[i]);
        }
        assert(!m.dom().contains(s.last().0));
        assert forall|h: u64|
            #[trigger] entries_map(s).dom().contains(h) <==> exists|i: int|
                0 <= i < s.len() && s[i].0 == h by {
            if entries_map(s).dom().contains(h) {
                if h == s.last().0 {
                    assert(s[s.len() - 1].0 == h);
                } else {
                    let i = choose|i: int| 0 <= i < p.len() && p[i].0 == h;
                    assert(s[i] == p[i]);
                }
            }
            if exists|i: int| 0 <= i < s.len() && s[i].0 == h {
                let i = choose|i: int| 0 <= i < s.len() && s[i].0 == h;
                if i < s.len() - 1 {
                    assert(p[i] == s[i]);
                }
            }
        }
        assert forall|i: int| 0 <= i < s.len() implies #[trigger] entries_map(s)[s[i].0]
            == s[i].1 by {
            if i < s.len() - 1 {
                assert(p[i] == s[i]);
                assert(s[i].0 != s.last().0);
            }
        }
    }
}

/// A seeded hash ring of endpoints.
///
/// It allows `O(log n)` lookups; the order is given by the seeded hash of
/// each endpoint's bytes.
#[derive(Debug, Clone)]
pub struct Ring {
    seed: u64,
    entries: Vec<(u64, Endpoint)>,
}

impl Ring {
    /// The entries as positions and key views, in ring order.
    pub closed spec fn entries_view(self) -> Seq<(u64, Seq<char>)> {
        self.entries@.map_values(|e: (u64, Endpoint)| (e.0, e.1@))
    }

    /// The seed this ring hashes with.
    pub closed spec fn seed_spec(self) -> u64 {
        self.seed
    }

    /// The entries are sorted by position and each position is its key's hash.
    pub closed spec fn wf(self) -> bool {
        &&& sorted_by_hash(self.entries_view())
        &&& forall|i: int|
            0 <= i < self.entries_view().len() ==> ring_hash(self.seed, #[trigger] self.entries_view()[i].1)
                == self.entries_view()[i].0
    }

    /// The ring as a map from position to endpoint, with the facts a caller needs
    /// about a well-formed ring.
    pub proof fn lemma_view(&self)
        requires
            self.wf(),
        ensures
            keys_hashed(self.seed_spec(), self@),
    {
        lemma_entries_map(self.entries_view());
        assert forall|h: u64| #[trigger] self@.dom().contains(h) implies ring_hash(
            self.seed,
            self@[h],
        ) == h by {
            let i = choose|i: int| 0 <= i < self.entries_view().len() && self.entries_view()[i].0 == h;
        }
    }

    fn key_hash(&self, key: &Endpoint) -> (h: u64)
        ensures
            h == ring_hash(self.seed, key@),
    {
        SeededKey::new(key.clone(), self.seed).hash()
    }

    /// Number of entries whose position is below `h`.
    fn lower_bound(&self, h: u64) -> (pos: usize)
        requires
            self.wf(),
        ensures
            pos <= self.entries_view().len(),
            forall|i: int| 0 <= i < pos ==> #[trigger] self.entries_view()[i].0 < h,
            forall|i: int| pos <= i < self.entries_view().len() ==> #[trigger] self.entries_view()[i].0 >= h,
    {
        let ghost ev = self.entries_view();
        let mut lo: usize = 0;
        let mut hi: usize = self.entries.len();
        while lo < hi
            invariant
                ev == self.entries_view(),
                sorted_by_hash(ev),
                ev.len() == self.entries@.len(),
                lo <= hi <= ev.len(),
                forall|i: int| 0 <= i < lo ==> #[trigger] ev[i].0 < h,
                forall|i: int| hi <= i < ev.len() ==> #[trigger] ev[i].0 >= h,
            decreases hi - lo,
        {
            let mid = lo + (hi - lo) / 2;
            assert(ev[mid as int].0 == self.entries@[mid as int].0);
            if self.entries[mid].0 < h {
                assert forall|i: int| 0 <= i < mid + 1 implies #[trigger] ev[i].0 < h by {
                    if i < mid {
                        assert(ev[i].0 < ev[mid as int].0);
                    }
                }
                lo = mid + 1;
            } else {
                assert forall|i: int| mid <= i < ev.len() implies #[trigger] ev[i].0 >= h by {
                    if i > mid {
                        assert(ev[mid as int].0 < ev[i].0);
                    }
                }
                hi = mid;
            }
        }
        lo
    }

    /// Create a new, empty ring with the given seed.
    pub fn new(seed: u64) -> (r: Self)
        ensures
            r.wf(),
            r.seed_spec() == seed,
            r@ == Map::<u64, Seq<char>>::empty(),
    {
        let r = Ring { seed, entries: Vec::new() };
        assert(r.entries_view() =~= Seq::empty());
        r
    }

    /// Check if a value with the same position exists already within the ring.
    pub fn contains(&self, key: Endpoint) -> (b: bool)
        requires
            self.wf(),
        ensures
            b == self@.dom().contains(ring_hash(self.seed_spec(), key@)),
    {
        let h = self.key_hash(&key);
        let pos = self.lower_bound(h);
        proof {
            lemma_entries_map(self.entries_view());
        }
        if pos < self.entries.len() {
            assert(self.entries_view()[pos as int].0 == self.entries@[pos as int].0);
            self.entries[pos].0 == h
        } else {
            false
        }
    }

    /// Insert a value into the ring.
    ///
    /// If the ring did not have this position taken, `true` is returned.
    /// If it did, `false` is returned, and the entry is not updated.
    pub fn insert(&mut self, key: Endpoint) -> (b: bool)
        requires
            old(self).wf(),
        ensures
            final(self).wf(),
            final(self).seed_spec() == old(self).seed_spec(),
            b == !old(self)@.dom().contains(ring_hash(old(self).seed_spec(), key@)),
            b ==> final(self)@ == old(self)@.insert(ring_hash(old(self).seed_spec(), key@), key@),
            !b ==> final(self)@ == old(self)@,
    {
        let h = self.key_hash(&key);
        let pos = self.lower_bound(h);
        let ghost ev = self.entries_view();
        proof {
            lemma_entries_map(ev);
        }
        if pos < self.entries.len() && self.entries[pos].0 == h {
            assert(ev[pos as int].0 == h);
            return false;
        }
        assert(!self@.dom().contains(h)) by {
            if self@.dom().contains(h) {
                let i = choose|i: int| 0 <= i < ev.len() && ev[i].0 == h;
                if i < pos {
                } else {
                    if i > pos {
                        assert(ev[pos as int].0 < ev[i].0);
                    }
                }
            }
        }
        let ghost k = key@;
        self.entries.insert(pos, (h, key));
        let ghost nv = self.entries_view();
        assert(nv =~= ev.insert(pos as int, (h, k)));
        assert(sorted_by_hash(nv)) by {
            assert forall|i: int, j: int| 0 <= i < j < nv.len() implies nv[i].0 < nv[j].0 by {
                if j < pos {
                } else if j == pos {
                } else if i < pos {
                } else if i == pos {
                    assert(nv[j] == ev[j - 1]);
                } else {
                    assert(nv[i] == ev[i - 1]);
                    assert(nv[j] == ev[j - 1]);
                }
            }
        }
        assert forall|i: int| 0 <= i < nv.len() implies ring_hash(self.seed, #[trigger] nv[i].1)
            == nv[i].0 by {
            if i < pos {
                assert(nv[i] == ev[i]);
            } else if i > pos {
                assert(nv[i] == ev[i - 1]);
            }
        }
        proof {
            lemma_entries_map(nv);
            let om = entries_map(ev);
            let m = entries_map(nv);
            assert forall|x: u64| #[trigger] m.dom().contains(x) <==> om.insert(h, k).dom().contains(x) by {
                if m.dom().contains(x) {
                    let i = choose|i: int| 0 <= i < nv.len() && nv[i].0 == x;
                    if i < pos {
                        assert(nv[i] == ev[i]);
                    } else if i > pos {
                        assert(nv[i] == ev[i - 1]);
                    }
                }
                if om.dom().contains(x) {
                    let i = choose|i: int| 0 <= i < ev.len() && ev[i].0 == x;
                    if i < pos {
                        assert(nv[i] == ev[i]);
                    } else {
                        assert(nv[i + 1] == ev[i]);
                    }
                }
                if x == h {
                    assert(nv[pos as int].0 == h);
                }
            }
            assert forall|x: u64| #[trigger] m.dom().contains(x) implies m[x] == om.insert(h, k)[x] by {
                let i = choose|i: int| 0 <= i < nv.len() && nv[i].0 == x;
                if i < pos {
                    assert(nv[i] == ev[i]);
                } else if i > pos {
                    assert(nv[i] == ev[i - 1]);
                    assert(om[ev[i - 1].0] == ev[i - 1].1);
                }
            }
            assert(m =~= om.insert(h, k));
        }
        true
    }

    /// Returns a reference to the value at the position of `key`. `None` if there
    /// is none.
    pub fn get(&mut self, key: Endpoint) -> (r: Option<&Endpoint>)
        requires
            old(self).wf(),
        ensures
            *final(self) == *old(self),
            opt_view(r) == (if old(self)@.dom().contains(ring_hash(old(self).seed_spec(), key@)) {
                Some(old(self)@[ring_hash(old(self).seed_spec(), key@)])
            } else {
                None
            }),
    {
        let h = self.key_hash(&key);
        let pos = self.lower_bound(h);
        proof {
            lemma_entries_map(self.entries_view());
        }
        if pos < self.entries.len() && self.entries[pos].0 == h {
            assert(self.entries_view()[pos as int].0 == h);
            Some(&self.entries[pos].1)
        } else {
            proof {
                let ev = self.entries_view();
                if self@.dom().contains(h) {
                    let i = choose|i: int| 0 <= i < ev.len() && ev[i].0 == h;
                    if i > pos {
                        assert(ev[pos as int].0 < ev[i].0);
                    }
                    if i == pos {
                        assert(ev[pos as int].0 == self.entries@[pos as int].0);
                    }
                }
            }
            None
        }
    }

    /// Remove the value at the position of `key` from the ring.
    ///
    /// Returns `true` if a value was removed, `false` if none existed.
    pub fn remove(&mut self, key: Endpoint) -> (b: bool)
        requires
            old(self).wf(),
        ensures
            final(self).wf(),
            final(self).seed_spec() == old(self).seed_spec(),
            b == old(self)@.dom().contains(ring_hash(old(self).seed_spec(), key@)),
            final(self)@ == old(self)@.remove(ring_hash(old(self).seed_spec(), key@)),
    {
        let h = self.key_hash(&key);
        let pos = self.lower_bound(h);
        let ghost ev = self.entries_view();
        proof {
            lemma_entries_map(ev);
        }
        if pos < self.entries.len() && self.entries[pos].0 == h {
            assert(ev[pos as int].0 == h);
            self.entries.remove(pos);
            let ghost nv = self.entries_view();
            assert(nv =~= ev.remove(pos as int));
            assert(sorted_by_hash(nv)) by {
                assert forall|i: int, j: int| 0 <= i < j < nv.len() implies nv[i].0 < nv[j].0 by {
                    if i < pos {
                        assert(nv[i] == ev[i]);
                    } else {
                        assert(nv[i] == ev[i + 1]);
                    }
                    if j < pos {
                        assert(nv[j] == ev[j]);
                    } else {
                        assert(nv[j] == ev[j + 1]);
                    }
                }
            }
            assert forall|i: int| 0 <= i < nv.len() implies ring_hash(self.seed, #[trigger] nv[i].1)
                == nv[i].0 by {
                if i < pos {
                    assert(nv[i] == ev[i]);
                } else {
                    assert(nv[i] == ev[i + 1]);
                }
            }
            proof {
                lemma_entries_map(nv);
                let om = entries_map(ev);
                let m = entries_map(nv);
                assert forall|x: u64| #[trigger] m.dom().contains(x) <==> om.remove(h).dom().contains(x) by {
                    if m.dom().contains(x) {
                        let i = choose|i: int| 0 <= i < nv.len() && nv[i].0 == x;
                        if i < pos {
                            assert(nv[i] == ev[i]);
                        } else {
                            assert(nv[i] == ev[i + 1]);
                            assert(ev[pos as int].0 < ev[i + 1].0);
                        }
                    }
                    if om.remove(h).dom().contains(x) {
                        let i = choose|i: int| 0 <= i < ev.len() && ev[i].0 == x;
                        if i < pos {
                            assert(nv[i] == ev[i]);
                        } else {
                            assert(i != pos);
                            assert(nv[i - 1] == ev[i]);
                        }
                    }
                }
                assert forall|x: u64| #[trigger] m.dom().contains(x) implies m[x] == om.remove(h)[x] by {
                    let i = choose|i: int| 0 <= i < nv.len() && nv[i].0 == x;
                    if i < pos {
                        assert(nv[i] == ev[i]);
                    } else {
                        assert(nv[i] == ev[i + 1]);
                        assert(om[ev[i + 1].0] == ev[i + 1].1);
                        assert(ev[pos as int].0 < ev[i + 1].0);
                    }
                }
                assert(m =~= om.remove(h));
            }
            true
        } else {
            proof {
                if self@.dom().contains(h) {
                    let i = choose|i: int| 0 <= i < ev.len() && ev[i].0 == h;
                    if i > pos {
                        assert(ev[pos as int].0 < ev[i].0);
                    }
                }
                assert(self@.remove(h) =~= self@);
            }
            false
        }
    }

    /// Return the value at the first position beyond the position of `key`.
    ///
    /// Returns `None` if no position of the ring lies beyond it.
    pub fn higher(&self, key: Endpoint) -> (r: Option<&Endpoint>)
        requires
            self.wf(),
        ensures
            opt_view(r) == successor(self@, ring_hash(self.seed_spec(), key@)),
    {
        let h = self.key_hash(&key);
        let pos = self.lower_bound(h);
        let ghost ev = self.entries_view();
        let ghost m = self@;
        proof {
            lemma_entries_map(ev);
        }
        let next = if pos < self.entries.len() && self.entries[pos].0 == h {
            pos + 1
        } else {
            pos
        };
        assert(forall|i: int| 0 <= i < next ==> #[trigger] ev[i].0 <= h);
        assert(forall|i: int| next <= i < ev.len() ==> #[trigger] ev[i].0 > h) by {
            assert forall|i: int| next <= i < ev.len() implies #[trigger] ev[i].0 > h by {
                if next == pos + 1 && i > pos {
                    assert(ev[pos as int].0 < ev[i].0);
                }
            }
        }
        if next < self.entries.len() {
            let ghost hk = ev[next as int].0;
            assert(hk == self.entries@[next as int].0);
            assert(is_successor(m, h, hk)) by {
                assert forall|h2: u64| #[trigger] m.dom().contains(h2) && h < h2 implies hk <= h2 by {
                    let j = choose|j: int| 0 <= j < ev.len() && ev[j].0 == h2;
                    if j < next {
                    } else if j > next {
                        assert(ev[next as int].0 < ev[j].0);
                    }
                }
            }
            proof {
                let c = choose|c: u64| is_successor(m, h, c);
                assert(c <= hk && hk <= c);
            }
            Some(&self.entries[next].1)
        } else {
            assert(!exists|hk: u64| is_successor(m, h, hk)) by {
                if exists|hk: u64| is_successor(m, h, hk) {
                    let hk = choose|hk: u64| is_successor(m, h, hk);
                    let j = choose|j: int| 0 <= j < ev.len() && ev[j].0 == hk;
                }
            }
            None
        }
    }

    /// Return the value at the last position before the position of `key`.
    ///
    /// Returns `None` if no position of the ring lies before it.
    pub fn lower(&self, key: Endpoint) -> (r: Option<&Endpoint>)
        requires
            self.wf(),
        ensures
            opt_view(r) == predecessor(self@, ring_hash(self.seed_spec(), key@)),
    {
        let h = self.key_hash(&key);
        let pos = self.lower_bound(h);
        let ghost ev = self.entries_view();
        let ghost m = self@;
        proof {
            lemma_entries_map(ev);
        }
        if pos > 0 {
            let prev = pos - 1;
            let ghost hk = ev[prev as int].0;
            assert(hk == self.entries@[prev as int].0);
            assert(is_predecessor(m, h, hk)) by {
                assert forall|h2: u64| #[trigger] m.dom().contains(h2) && h2 < h implies h2 <= hk by {
                    let j = choose|j: int| 0 <= j < ev.len() && ev[j].0 == h2;
                    if j < prev {
                        assert(ev[j].0 < ev[prev as int].0);
                    }
                }
            }
            proof {
                let c = choose|c: u64| is_predecessor(m, h, c);
                assert(c <= hk && hk <= c);
            }
            Some(&self.entries[prev].1)
        } else {
            assert(!exists|hk: u64| is_predecessor(m, h, hk)) by {
                if exists|hk: u64| is_predecessor(m, h, hk) {
                    let hk = choose|hk: u64| is_predecessor(m, h, hk);
                    let j = choose|j: int| 0 <= j < ev.len() && ev[j].0 == hk;
                }
            }
            None
        }
    }

    /// Get the value at the smallest position of the ring.
    pub fn first(&self) -> (r: Option<&Endpoint>)
        requires
            self.wf(),
        ensures
            opt_view(r) == first_key(self@),
            r is Some <==> self@.len() > 0,
    {
        let ghost ev = self.entries_view();
        let ghost m = self@;
        proof {
            lemma_entries_map(ev);
        }
        if self.entries.len() > 0 {
            let ghost hk = ev[0].0;
            assert(hk == self.entries@[0].0);
            assert(is_min_key(m, hk)) by {
                assert forall|h2: u64| #[trigger] m.dom().contains(h2) implies hk <= h2 by {
                    let j = choose|j: int| 0 <= j < ev.len() && ev[j].0 == h2;
                    if j > 0 {
                        assert(ev[0].0 < ev[j].0);
                    }
                }
            }
            proof {
                let c = choose|c: u64| is_min_key(m, c);
                assert(c <= hk && hk <= c);
            }
            Some(&self.entries[0].1)
        } else {
            assert(!exists|hk: u64| is_min_key(m, hk)) by {
                if exists|hk: u64| is_min_key(m, hk) {
                    let hk = choose|hk: u64| is_min_key(m, hk);
                    let j = choose|j: int| 0 <= j < ev.len() && ev[j].0 == hk;
                }
            }
            None
        }
    }

    /// Get the value at the largest position of the ring.
    ///
    /// Returns `None` if the ring is empty.
    pub fn last(&self) -> (r: Option<&Endpoint>)
        requires
            self.wf(),
        ensures
            opt_view(r) == last_key(self@),
            r is Some <==> self@.len() > 0,
    {
        let ghost ev = self.entries_view();
        let ghost m = self@;
        proof {
            lemma_entries_map(ev);
        }
        let n = self.entries.len();
        if n > 0 {
            let ghost hk = ev[n - 1].0;
            assert(hk == self.entries@[n - 1].0);
            assert(is_max_key(m, hk)) by {
                assert forall|h2: u64| #[trigger] m.dom().contains(h2) implies h2 <= hk by {
                    let j = choose|j: int| 0 <= j < ev.len() && ev[j].0 == h2;
                    if j < n - 1 {
                        assert(ev[j].0 < ev[n - 1].0);
                    }
                }
            }
            proof {
                let c = choose|c: u64| is_max_key(m, c);
                assert(c <= hk && hk <= c);
            }
            Some(&self.entries[n - 1].1)
        } else {
            assert(!exists|hk: u64| is_max_key(m, hk)) by {
                if exists|hk: u64| is_max_key(m, hk) {
                    let hk = choose|hk: u64| is_max_key(m, hk);
                    let j = choose|j: int| 0 <= j < ev.len() && ev[j].0 == hk;
                }
            }
            None
        }
    }

    /// Check if the ring is empty or not.
    pub fn is_empty(&self) -> (b: bool)
        requires
            self.wf(),
        ensures
            b == (self@.len() == 0),
    {
        self.len() == 0
    }

    /// Returns the number of values in the ring.
    pub fn len(&self) -> (n: usize)
        requires
            self.wf(),
        ensures
            n == self@.len(),
    {
        proof {
            lemma_entries_map(self.entries_view());
        }
        self.entries.len()
    }

    /// The values of the ring, in ring order.
    pub fn keys(&self) -> (v: Vec<Endpoint>)
        requires
            self.wf(),
        ensures
            v@.len() == self@.len(),
            forall|i: int| 0 <= i < v@.len() ==> self@.contains_value(#[trigger] v@[i]@),
            forall|h: u64| #[trigger] self@.dom().contains(h) ==> exists|i: int|
                0 <= i < v@.len() && v@[i]@ == self@[h],
            forall|i: int, j: int|
                0 <= i < j < v@.len() ==> ring_hash(self.seed_spec(), #[trigger] v@[i]@) < ring_hash(
                    self.seed_spec(),
                    #[trigger] v@[j]@,
                ),
    {
        let ghost ev = self.entries_view();
        proof {
            lemma_entries_map(ev);
        }
        let mut v: Vec<Endpoint> = Vec::new();
        let mut i: usize = 0;
        while i < self.entries.len()
            invariant
                ev == self.entries_view(),
                ev.len() == self.entries@.len(),
                sorted_by_hash(ev),
                i <= ev.len(),
                v@.len() == i,
                forall|j: int| 0 <= j < i ==> #[trigger] v@[j]@ == ev[j].1,
            decreases self.entries@.len() - i,
        {
            v.push(self.entries[i].1.clone());
            i += 1;
        }
        proof {
            let m = self@;
            assert forall|a: int, b: int| 0 <= a < b < v@.len() implies ring_hash(self.seed, #[trigger] v@[a]@)
                < ring_hash(self.seed, #[trigger] v@[b]@) by {
                assert(v@[a]@ == ev[a].1 && v@[b]@ == ev[b].1);
            }
            assert forall|j: int| 0 <= j < v@.len() implies m.contains_value(#[trigger] v@[j]@) by {
                assert(m[ev[j].0] == ev[j].1);
                assert(m.dom().contains(ev[j].0));
            }
            assert forall|h: u64| #[trigger] m.dom().contains(h) implies exists|j: int|
                0 <= j < v@.len() && v@[j]@ == m[h] by {
                let j = choose|j: int| 0 <= j < ev.len() && ev[j].0 == h;
                assert(v@[j]@ == ev[j].1);
            }
        }
        v
    }
}

/// A key together with the seed of the ring it is placed on.
#[derive(Debug, Clone)]
pub struct SeededKey {
    key: Endpoint,
    seed: u64,
}

impl SeededKey {
    pub closed spec fn key_view(self) -> Seq<char> {
        self.key@
    }

    pub closed spec fn seed_spec(self) -> u64 {
        self.seed
    }

    pub fn new(key: Endpoint, seed: u64) -> (s: Self)
        ensures
            s.key_view() == key@,
            s.seed_spec() == seed,
    {
        Self { key, seed }
    }

    /// The key's position: the seeded hash of its bytes.
    pub fn hash(&self) -> (h: u64)
        ensures
            h == ring_hash(self.seed_spec(), self.key_view()),
    {
        xxhash64_bytes(self.seed, self.key.as_str().as_bytes())
    }
}

impl View for Ring {
    type V = Map<u64, Seq<char>>;

    closed spec fn view(&self) -> Map<u64, Seq<char>> {
        entries_map(self.entries_view())
    }
}

/// For a stored value that is not first, the value after the one before it is
/// itself: `higher(lower(x)) == x`.
pub proof fn lemma_higher_of_lower(seed: u64, m: Map<u64, Seq<char>>, x: Seq<char>)
    requires
        keys_hashed(seed, m),
        m.dom().contains(ring_hash(seed, x)),
        m[ring_hash(seed, x)] == x,
        predecessor(m, ring_hash(seed, x)) is Some,
    ensures
        successor(m, ring_hash(seed, predecessor(m, ring_hash(seed, x))->0)) == Some(x),
{
    let h = ring_hash(seed, x);
    let hk = choose|hk: u64| is_predecessor(m, h, hk);
    let p = m[hk];
    assert(ring_hash(seed, p) == hk);
    assert(is_successor(m, hk, h));
    let hs = choose|hs: u64| is_successor(m, hk, hs);
    assert(hs <= h && h <= hs);
}

} // verus!
