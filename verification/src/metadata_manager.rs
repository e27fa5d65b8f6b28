//! The metadata each member announced, by address.
use crate::assoc::{assoc, keys_distinct, lemma_assoc, lemma_assoc_push, lemma_assoc_remove};
use crate::common::Endpoint;
use crate::transport::proto::{Metadata, MetadataView};
use vstd::prelude::*;

verus! {

/// The view of a list of addresses and their metadata.
pub open spec fn roles_view(v: Seq<(Endpoint, Metadata)>) -> Seq<(Seq<char>, MetadataView)> {
    v.map_values(|e: (Endpoint, Metadata)| (e.0@, e.1@))
}

/// Keeps the metadata of each member.
pub struct MetadataManager {
    role_map: Vec<(Endpoint, Metadata)>,
}

impl MetadataManager {
    /// The metadata held, by address.
    pub closed spec fn roles(&self) -> Map<Seq<char>, MetadataView> {
        assoc(roles_view(self.role_map@))
    }

    pub closed spec fn wf(&self) -> bool {
        keys_distinct(roles_view(self.role_map@))
    }

    pub fn new() -> (m: Self)
        ensures
            m.wf(),
            m.roles() == Map::<Seq<char>, MetadataView>::empty(),
    {
        let m = MetadataManager { role_map: Vec::new() };
        assert(roles_view(m.role_map@) =~= Seq::empty());
        m
    }

    /// Position of the entry of `key`, if it has one.
    fn position(&self, key: &str) -> (r: Option<usize>)
        requires
            self.wf(),
        ensures
            r matches Some(i) ==> i < self.role_map@.len() && self.role_map@[i as int].0@ == key@,
            r is None ==> !self.roles().dom().contains(key@),
    {
        let k = key.to_owned();
        let mut i: usize = 0;
        while i < self.role_map.len()
            invariant
                k@ == key@,
                i <= self.role_map@.len(),
                forall|j: int| 0 <= j < i ==> (#[trigger] self.role_map@[j]).0@ != key@,
            decreases self.role_map@.len() - i,
        {
            if self.role_map[i].0 == k {
                return Some(i);
            }
            i += 1;
        }
        proof {
            let rv = roles_view(self.role_map@);
            lemma_assoc(rv);
            if self.roles().dom().contains(key@) {
                let j = choose|j: int| 0 <= j < rv.len() && rv[j].0 == key@;
                assert(self.role_map@[j].0@ == key@);
            }
        }
        None
    }

    /// The metadata of `key`, if it announced some.
    pub fn get(&mut self, key: &str) -> (r: Option<&Metadata>)
        requires
            old(self).wf(),
        ensures
            final(self).wf(),
            final(self).roles() == old(self).roles(),
            r is Some <==> old(self).roles().dom().contains(key@),
            r matches Some(m) ==> m@ == old(self).roles()[key@],
    {
        proof {
            lemma_assoc(roles_view(self.role_map@));
        }
        match self.position(key) {
            Some(i) => {
                assert(roles_view(self.role_map@)[i as int].0 == key@);
                Some(&self.role_map[i].1)
            },
            None => None,
        }
    }

    /// Add the metadata of members not yet known; what is known is kept.
    pub fn add_metadata(&mut self, roles: Vec<(Endpoint, Metadata)>)
        requires
            old(self).wf(),
            keys_distinct(roles_view(roles@)),
        ensures
            final(self).wf(),
            final(self).roles() == assoc(roles_view(roles@)).union_prefer_right(old(self).roles()),
    {
        let ghost given = roles_view(roles@);
        let ghost start = self.roles();
        let mut roles = roles;
        let mut taken: Vec<(Endpoint, Metadata)> = Vec::new();
        let mut i: usize = 0;
        let n = roles.len();
        proof {
            lemma_assoc(given);
            assert(assoc(given.take(0)) =~= Map::<Seq<char>, MetadataView>::empty()) by {
                assert(given.take(0) =~= Seq::<(Seq<char>, MetadataView)>::empty());
            }
            assert(self.roles() =~= assoc(given.take(0)).union_prefer_right(start));
        }
        while roles.len() > 0
            invariant
                self.wf(),
                keys_distinct(given),
                n == given.len(),
                i + roles@.len() == n,
                i <= n,
                roles_view(roles@) == given.skip(i as int),
                self.roles() == assoc(given.take(i as int)).union_prefer_right(start),
            decreases roles@.len(),
        {
            let ghost before_roles = roles@;
            let (key, val) = roles.remove(0);
            let ghost kv = (key@, val@);
            proof {
                assert(roles_view(before_roles)[0] == kv);
                assert(given.skip(i as int)[0] == kv);
                assert(roles@ =~= before_roles.subrange(1, before_roles.len() as int));
                assert(roles_view(roles@) =~= roles_view(before_roles).subrange(1, before_roles.len() as int));
                assert(roles_view(roles@) =~= given.skip(i + 1));
                assert(given[i as int] == kv);
                let p = given.take(i as int);
                assert(given.take(i + 1) =~= p.push(kv));
                assert(keys_distinct(p)) by {
                    assert forall|a: int, b: int| 0 <= a < b < p.len() implies (#[trigger] p[a]).0 != (#[trigger] p[b]).0 by {
                        assert(p[a] == given[a] && p[b] == given[b]);
                    }
                }
                lemma_assoc(p);
                assert(!assoc(p).dom().contains(kv.0)) by {
                    if assoc(p).dom().contains(kv.0) {
                        let j = choose|j: int| 0 <= j < p.len() && p[j].0 == kv.0;
                        assert(given[j].0 == given[i as int].0);
                    }
                }
                lemma_assoc_push(p, kv.0, kv.1);
            }
            match self.position(key.as_str()) {
                Some(j) => {
                    proof {
                        let rv = roles_view(self.role_map@);
                        lemma_assoc(rv);
                        assert(rv[j as int].0 == kv.0);
                        let p = given.take(i as int);
                        assert(assoc(p.push(kv)).union_prefer_right(start) =~= assoc(p).union_prefer_right(start)) by {
                            assert(start.dom().contains(kv.0) || assoc(p).union_prefer_right(start).dom().contains(kv.0));
                        }
                    }
                },
                None => {
                    let ghost rv = roles_view(self.role_map@);
                    proof {
                        lemma_assoc_push(rv, kv.0, kv.1);
                    }
                    self.role_map.push((key, val));
                    proof {
                        assert(roles_view(self.role_map@) =~= rv.push(kv));
                        let p = given.take(i as int);
                        assert(!start.dom().contains(kv.0));
                        assert(assoc(p.push(kv)).union_prefer_right(start) =~= assoc(p).union_prefer_right(start).insert(
                            kv.0,
                            kv.1,
                        ));
                    }
                },
            }
            i += 1;
        }
        proof {
            assert(given.take(n as int) =~= given);
        }
    }

    /// Forget the metadata of `node`.
    pub fn remove_node(&mut self, node: &str)
        requires
            old(self).wf(),
        ensures
            final(self).wf(),
            final(self).roles() == old(self).roles().remove(node@),
    {
        match self.position(node) {
            Some(i) => {
                let ghost rv = roles_view(self.role_map@);
                self.role_map.remove(i);
                proof {
                    assert(rv[i as int].0 == node@);
                    lemma_assoc_remove(rv, i as int);
                    assert(roles_view(self.role_map@) =~= rv.remove(i as int));
                }
            },
            None => {
                assert(self.roles().remove(node@) =~= self.roles());
            },
        }
    }
}

} // verus!
