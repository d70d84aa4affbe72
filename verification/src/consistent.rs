//! The consistent-hashing ring: named servers own regions of a fixed bucket
//! space through their virtual-node positions, and string keys resolve to the
//! server owning the first position at or after their hash.

use vstd::prelude::*;
use crate::hashing::{
    bucket_of, in_vnode_positions, lemma_in_vnode_positions_step, vnode_pos, vnode_position_list,
    vnode_string, HasherTrait, MyHasher,
};
use vstd::multiset::Multiset;
use crate::positions::{
    first_geq, insert_sorted, lemma_filter_all_true, lemma_filter_elements, lemma_filter_filter, lemma_filter_push,
    lemma_filter_sorted, lemma_first_geq, lemma_resolve_pos_in_list, resolve_pos,
    sorted_ascending,
};
use crate::table::{
    kv_map, lemma_kv_map_at, lemma_kv_map_domain, lemma_kv_map_push, lemma_kv_map_remove,
    lemma_kv_map_update_value, unique_keys,
};

verus! {

/// The error of resolving a key against a ring with no registered servers.
#[derive(Clone, Copy, Debug, PartialEq, Eq, Structural)]
pub enum RingError {
    EmptyRing,
}

/// The position table as pairs of position and owning server name.
pub open spec fn ring_pairs(r: Seq<(u64, String)>) -> Seq<(u64, Seq<char>)> {
    Seq::new(r.len(), |i: int| (r[i].0, r[i].1@))
}

/// The map denoted by the position table.
pub open spec fn ring_map_of(r: Seq<(u64, String)>) -> Map<u64, Seq<char>> {
    kv_map(ring_pairs(r))
}

/// The assignment table as pairs of key and server name.
pub open spec fn mapping_pairs(m: Seq<(String, String)>) -> Seq<(Seq<char>, Seq<char>)> {
    Seq::new(m.len(), |i: int| (m[i].0@, m[i].1@))
}

/// The map denoted by the assignment table.
pub open spec fn mapping_map_of(m: Seq<(String, String)>) -> Map<Seq<char>, Seq<char>> {
    kv_map(mapping_pairs(m))
}

/// The server-name list as a sequence of names.
pub open spec fn names_of(l: Seq<String>) -> Seq<Seq<char>> {
    Seq::new(l.len(), |i: int| l[i]@)
}

/// A consistent-hashing ring.
///
/// Each registered server owns `replication_factor` virtual-node positions in
/// the bucket space; the sorted-position list holds every position (hash
/// collisions coexist as duplicates), the position table maps each position to
/// the server that wrote it last, and the assignment table caches which server
/// each stored key currently resolves to.
pub struct Consistent {
    hasher: MyHasher,
    ring: Vec<(u64, String)>,
    sorted_set: Vec<u64>,
    replication_factor: i32,
    mapping: Vec<(String, String)>,
    serverlist: Vec<String>,
}

impl Consistent {
    /// The position table as it is stored: a vector of position/name pairs.
    pub closed spec fn ring_view(&self) -> Seq<(u64, String)> {
        self.ring@
    }

    /// The assignment table as it is stored: a vector of key/name pairs.
    pub closed spec fn mapping_view(&self) -> Seq<(String, String)> {
        self.mapping@
    }

    /// The server-name list as it is stored.
    pub closed spec fn serverlist_view(&self) -> Seq<String> {
        self.serverlist@
    }

    /// The ring's hash function.
    pub closed spec fn hasher_spec(&self) -> MyHasher {
        self.hasher
    }

    /// The position table: bucket-space position to owning server name.
    pub closed spec fn ring_map(&self) -> Map<u64, Seq<char>> {
        ring_map_of(self.ring@)
    }

    /// The sorted-position list.
    pub closed spec fn sorted(&self) -> Seq<u64> {
        self.sorted_set@
    }

    /// The assignment table: key to currently resolved server name.
    pub closed spec fn mapping_map(&self) -> Map<Seq<char>, Seq<char>> {
        mapping_map_of(self.mapping@)
    }

    /// The registered server names, in registration order.
    pub closed spec fn servers(&self) -> Seq<Seq<char>> {
        names_of(self.serverlist@)
    }

    /// The number of virtual nodes per server.
    pub closed spec fn rf(&self) -> int {
        self.replication_factor as int
    }

    /// Well-formedness: the replication factor is positive, the position list
    /// is ascending, both tables have unique keys, every listed position is in
    /// the position table, and every table entry names a registered server and
    /// sits at one of that server's own virtual-node positions.
    pub closed spec fn wf(&self) -> bool {
        &&& self.replication_factor >= 1
        &&& sorted_ascending(self.sorted())
        &&& unique_keys(ring_pairs(self.ring@))
        &&& unique_keys(mapping_pairs(self.mapping@))
        &&& forall|i: int|
            0 <= i < self.sorted().len() ==> self.ring_map().contains_key(
                #[trigger] self.sorted()[i],
            )
        &&& forall|p: u64|
            #[trigger] self.ring_map().contains_key(p) ==> self.servers().contains(
                self.ring_map()[p],
            )
        &&& forall|p: u64|
            #[trigger] self.ring_map().contains_key(p) ==> in_vnode_positions(
                self.ring_map()[p],
                self.rf() as nat,
                p,
            )
    }

    /// The server a key resolves to on the current topology: the hashed key's
    /// resolved position, read through the position table.
    pub closed spec fn map_key_spec(&self, k: Seq<char>) -> Seq<char>
        recommends
            self.wf(),
            self.sorted().len() > 0,
    {
        self.ring_map()[resolve_pos(self.sorted(), bucket_of(k))]
    }

    /// Creates an empty ring with the given replication factor.
    pub fn new_ring(replication_factor: i32) -> (c: Consistent)
        requires
            replication_factor >= 1,
        ensures
            c.wf(),
            c.rf() == replication_factor,
            c.ring_map() == Map::<u64, Seq<char>>::empty(),
            c.sorted() == Seq::<u64>::empty(),
            c.mapping_map() == Map::<Seq<char>, Seq<char>>::empty(),
            c.servers() == Seq::<Seq<char>>::empty(),
    {
        let c = Consistent {
            hasher: MyHasher {  },
            ring: Vec::new(),
            sorted_set: Vec::new(),
            replication_factor,
            mapping: Vec::new(),
            serverlist: Vec::new(),
        };
        proof {
            assert(ring_pairs(c.ring@) =~= Seq::<(u64, Seq<char>)>::empty());
            assert(mapping_pairs(c.mapping@) =~= Seq::<(Seq<char>, Seq<char>)>::empty());
            assert(c.servers() =~= Seq::<Seq<char>>::empty());
        }
        c
    }

    /// Well-formedness does not depend on the assignment table beyond its
    /// keys being unique: a ring that shares its topology with a well-formed
    /// one is well-formed once its assignment keys are unique.
    proof fn lemma_wf_same_topology(a: Consistent, b: Consistent)
        requires
            a.wf(),
            b.replication_factor == a.replication_factor,
            b.ring@ == a.ring@,
            b.sorted_set@ == a.sorted_set@,
            b.serverlist@ == a.serverlist@,
            unique_keys(mapping_pairs(b.mapping@)),
        ensures
            b.wf(),
    {
        assert(b.ring_map() == a.ring_map());
        assert(b.servers() == a.servers());
        assert forall|p: u64| #[trigger] b.ring_map().contains_key(p) implies b.servers().contains(
            b.ring_map()[p],
        ) && in_vnode_positions(b.ring_map()[p], b.rf() as nat, p) by {
            assert(a.ring_map().contains_key(p));
        }
    }

    /// The server name stored for position `p`.
    fn ring_value(&self, p: u64) -> (r: String)
        requires
            unique_keys(ring_pairs(self.ring@)),
            self.ring_map().contains_key(p),
        ensures
            r@ == self.ring_map()[p],
    {
        let mut i: usize = 0;
        while i < self.ring.len()
            invariant
                0 <= i <= self.ring@.len(),
                unique_keys(ring_pairs(self.ring@)),
                self.ring_map().contains_key(p),
                forall|j: int| 0 <= j < i ==> (#[trigger] self.ring@[j]).0 != p,
            decreases self.ring@.len() - i,
        {
            if self.ring[i].0 == p {
                proof {
                    assert(ring_pairs(self.ring@)[i as int] == (self.ring@[i as int].0,
                    self.ring@[i as int].1@));
                    lemma_kv_map_at(ring_pairs(self.ring@), i as int);
                }
                return self.ring[i].1.clone();
            }
            i += 1;
        }
        proof {
            lemma_kv_map_domain(ring_pairs(self.ring@), p);
            let w = choose|w: int|
                0 <= w < ring_pairs(self.ring@).len() && ring_pairs(self.ring@)[w].0 == p;
            assert(self.ring@[w].0 == p);
            assert(false);
        }
        vstd::pervasive::unreached()
    }

    /// Writes `name` for position `p` in the position table, overwriting any
    /// earlier owner of that exact position.
    fn ring_insert(&mut self, p: u64, name: String)
        requires
            unique_keys(ring_pairs(old(self).ring@)),
        ensures
            unique_keys(ring_pairs(final(self).ring@)),
            final(self).ring_map() == old(self).ring_map().insert(p, name@),
            final(self).sorted_set@ == old(self).sorted_set@,
            final(self).mapping@ == old(self).mapping@,
            final(self).serverlist@ == old(self).serverlist@,
            final(self).replication_factor == old(self).replication_factor,
            final(self).hasher == old(self).hasher,
    {
        let ghost r0 = ring_pairs(self.ring@);
        let mut i: usize = 0;
        while i < self.ring.len()
            invariant
                *self == *old(self),
                r0 == ring_pairs(self.ring@),
                unique_keys(r0),
                0 <= i <= self.ring@.len(),
                forall|j: int| 0 <= j < i ==> (#[trigger] self.ring@[j]).0 != p,
            decreases self.ring@.len() - i,
        {
            if self.ring[i].0 == p {
                proof {
                    assert(r0[i as int] == (self.ring@[i as int].0, self.ring@[i as int].1@));
                    lemma_kv_map_update_value(r0, i as int, name@);
                }
                let kv = self.ring.remove(i);
                self.ring.insert(i, (p, name));
                proof {
                    assert(ring_pairs(self.ring@) =~= r0.update(i as int, (p, name@)));
                }
                return ;
            }
            i += 1;
        }
        self.ring.push((p, name));
        proof {
            assert(ring_pairs(self.ring@) =~= r0.push((p, name@)));
            assert(forall|j: int| 0 <= j < r0.len() ==> (#[trigger] r0[j]).0 != p);
            lemma_kv_map_push(r0, p, name@);
        }
    }

    /// Removes position `p` from the position table, if present.
    fn ring_remove(&mut self, p: u64)
        requires
            unique_keys(ring_pairs(old(self).ring@)),
        ensures
            unique_keys(ring_pairs(final(self).ring@)),
            final(self).ring_map() == old(self).ring_map().remove(p),
            final(self).sorted_set@ == old(self).sorted_set@,
            final(self).mapping@ == old(self).mapping@,
            final(self).serverlist@ == old(self).serverlist@,
            final(self).replication_factor == old(self).replication_factor,
            final(self).hasher == old(self).hasher,
    {
        let ghost r0 = ring_pairs(self.ring@);
        let mut i: usize = 0;
        while i < self.ring.len()
            invariant
                *self == *old(self),
                r0 == ring_pairs(self.ring@),
                unique_keys(r0),
                0 <= i <= self.ring@.len(),
                forall|j: int| 0 <= j < i ==> (#[trigger] self.ring@[j]).0 != p,
            decreases self.ring@.len() - i,
        {
            if self.ring[i].0 == p {
                proof {
                    assert(r0[i as int] == (self.ring@[i as int].0, self.ring@[i as int].1@));
                    lemma_kv_map_remove(r0, i as int);
                }
                self.ring.remove(i);
                proof {
                    assert(ring_pairs(self.ring@) =~= r0.remove(i as int));
                }
                return ;
            }
            i += 1;
        }
        proof {
            lemma_kv_map_domain(r0, p);
            if exists|w: int| 0 <= w < r0.len() && r0[w].0 == p {
                let w = choose|w: int| 0 <= w < r0.len() && r0[w].0 == p;
                assert(self.ring@[w].0 == p);
            }
            assert(!old(self).ring_map().contains_key(p));
            assert(old(self).ring_map().remove(p) =~= old(self).ring_map());
        }
    }

    /// Removes every occurrence of the exact position `val` from the
    /// sorted-position list.
    fn del_slice(&mut self, val: u64)
        ensures
            final(self).sorted_set@ == old(self).sorted_set@.filter((|x: u64| x != val)),
            final(self).ring@ == old(self).ring@,
            final(self).mapping@ == old(self).mapping@,
            final(self).serverlist@ == old(self).serverlist@,
            final(self).replication_factor == old(self).replication_factor,
            final(self).hasher == old(self).hasher,
    {
        let ghost pred = |x: u64| x != val;
        let mut out: Vec<u64> = Vec::new();
        let mut i: usize = 0;
        proof {
            reveal(Seq::filter);
            assert(self.sorted_set@.subrange(0, 0) =~= Seq::<u64>::empty());
            assert(out@ == self.sorted_set@.subrange(0, 0).filter(pred));
        }
        while i < self.sorted_set.len()
            invariant
                *self == *old(self),
                0 <= i <= self.sorted_set@.len(),
                out@ == self.sorted_set@.subrange(0, i as int).filter(pred),
                pred == (|x: u64| x != val),
            decreases self.sorted_set@.len() - i,
        {
            let x = self.sorted_set[i];
            proof {
                let sub = self.sorted_set@.subrange(0, i as int);
                assert(self.sorted_set@.subrange(0, i + 1) =~= sub.push(x));
                lemma_filter_push(sub, x, pred);
            }
            if x != val {
                out.push(x);
            }
            i += 1;
        }
        proof {
            assert(self.sorted_set@.subrange(0, self.sorted_set@.len() as int)
                =~= self.sorted_set@);
        }
        self.sorted_set = out;
    }

    /// Resolves a key to the server that owns it on the current topology:
    /// the key is hashed into the bucket space and the first position at or
    /// after the hash owns it, the last position standing in when the hash
    /// lies beyond every position. An empty ring is reported as an error.
    pub fn map_key(&self, k: &String) -> (r: Result<String, RingError>)
        requires
            self.wf(),
        ensures
            match r {
                Ok(name) => self.sorted().len() > 0 && name@ == self.map_key_spec(k@),
                Err(e) => self.sorted().len() == 0 && e == RingError::EmptyRing,
            },
    {
        if self.sorted_set.len() == 0 {
            return Err(RingError::EmptyRing);
        }
        let hash = self.hasher.hash_to_used(k.as_str());
        let ghost s = self.sorted();
        let mut idx: usize = 0;
        while idx < self.sorted_set.len() && self.sorted_set[idx] < hash
            invariant
                0 <= idx <= s.len(),
                s == self.sorted(),
                forall|j: int| 0 <= j < idx ==> s[j] < hash,
            decreases s.len() - idx,
        {
            idx += 1;
        }
        proof {
            lemma_first_geq(s, hash);
            let f = first_geq(s, hash);
            if idx < f {
                assert(s[idx as int] < hash);
            } else if f < idx {
                assert(s[f] < hash);
            }
            assert(idx as int == f);
        }
        let hash_idx = if idx == 0 {
            self.sorted_set[0]
        } else if idx == self.sorted_set.len() {
            self.sorted_set[self.sorted_set.len() - 1]
        } else {
            self.sorted_set[idx]
        };
        proof {
            assert(hash_idx == resolve_pos(s, hash));
            lemma_resolve_pos_in_list(s, hash);
            let w = choose|w: int| 0 <= w < s.len() && s[w] == hash_idx;
            assert(self.ring_map().contains_key(s[w]));
        }
        Ok(self.ring_value(hash_idx))
    }

    /// Stores the explicit assignment of `key` to `server`, without resolving.
    /// The server is not checked against the registered list; storing an
    /// assignment to an unregistered server is the caller's responsibility.
    pub fn add_key(&mut self, key: String, server: String)
        requires
            old(self).wf(),
        ensures
            final(self).wf(),
            final(self).mapping_map() == old(self).mapping_map().insert(key@, server@),
            final(self).ring_map() == old(self).ring_map(),
            final(self).servers() == old(self).servers(),
            final(self).ring_view() == old(self).ring_view(),
            final(self).sorted() == old(self).sorted(),
            final(self).serverlist_view() == old(self).serverlist_view(),
            final(self).rf() == old(self).rf(),
            final(self).hasher_spec() == old(self).hasher_spec(),
    {
        let ghost m0 = mapping_pairs(self.mapping@);
        let mut i: usize = 0;
        while i < self.mapping.len()
            invariant
                old(self).wf(),
                *self == *old(self),
                m0 == mapping_pairs(self.mapping@),
                unique_keys(m0),
                0 <= i <= self.mapping@.len(),
                forall|j: int| 0 <= j < i ==> (#[trigger] self.mapping@[j]).0@ != key@,
            decreases self.mapping@.len() - i,
        {
            if self.mapping[i].0 == key {
                proof {
                    assert(m0[i as int] == (self.mapping@[i as int].0@,
                    self.mapping@[i as int].1@));
                    lemma_kv_map_update_value(m0, i as int, server@);
                }
                let kv = self.mapping.remove(i);
                self.mapping.insert(i, (kv.0, server));
                proof {
                    assert(self.mapping@ =~= old(self).mapping@.update(
                        i as int, (old(self).mapping@[i as int].0, server)));
                    assert(mapping_pairs(self.mapping@) =~= m0.update(i as int, (key@, server@)));
                    Self::lemma_wf_same_topology(*old(self), *self);
                }
                return ;
            }
            i += 1;
        }
        self.mapping.push((key, server));
        proof {
            assert(mapping_pairs(self.mapping@) =~= m0.push((key@, server@)));
            assert(forall|j: int| 0 <= j < m0.len() ==> (#[trigger] m0[j]).0 != key@);
            lemma_kv_map_push(m0, key@, server@);
            Self::lemma_wf_same_topology(*old(self), *self);
        }
    }

    /// Resolves `key` against the current topology and stores the resulting
    /// assignment. On an empty ring nothing is stored and the error is
    /// returned.
    pub fn add_key_public(&mut self, key: String) -> (r: Result<(), RingError>)
        requires
            old(self).wf(),
        ensures
            final(self).wf(),
            final(self).ring_map() == old(self).ring_map(),
            final(self).servers() == old(self).servers(),
            final(self).ring_view() == old(self).ring_view(),
            final(self).sorted() == old(self).sorted(),
            final(self).serverlist_view() == old(self).serverlist_view(),
            final(self).rf() == old(self).rf(),
            final(self).hasher_spec() == old(self).hasher_spec(),
            match r {
                Ok(_) => old(self).sorted().len() > 0 && final(self).mapping_map()
                    == old(self).mapping_map().insert(key@, old(self).map_key_spec(key@))
                    && final(self).mapping_map()[key@] == final(self).map_key_spec(key@),
                Err(e) => old(self).sorted().len() == 0 && e == RingError::EmptyRing
                    && *final(self) == *old(self),
            },
    {
        let r = self.map_key(&key);
        match r {
            Ok(server) => {
                self.add_key(key, server);
                Ok(())
            },
            Err(e) => Err(e),
        }
    }

    /// Removes `key` from the assignment table. Returns whether it was
    /// present; when it was not, the ring is left untouched and the removal
    /// is reported as not found.
    pub fn del_key(&mut self, key: String) -> (found: bool)
        requires
            old(self).wf(),
        ensures
            final(self).wf(),
            found == old(self).mapping_map().contains_key(key@),
            final(self).mapping_map() == old(self).mapping_map().remove(key@),
            !found ==> *final(self) == *old(self),
            final(self).ring_map() == old(self).ring_map(),
            final(self).servers() == old(self).servers(),
            final(self).ring_view() == old(self).ring_view(),
            final(self).sorted() == old(self).sorted(),
            final(self).serverlist_view() == old(self).serverlist_view(),
            final(self).rf() == old(self).rf(),
            final(self).hasher_spec() == old(self).hasher_spec(),
    {
        let ghost m0 = mapping_pairs(self.mapping@);
        let mut i: usize = 0;
        while i < self.mapping.len()
            invariant
                old(self).wf(),
                *self == *old(self),
                m0 == mapping_pairs(self.mapping@),
                unique_keys(m0),
                0 <= i <= self.mapping@.len(),
                forall|j: int| 0 <= j < i ==> (#[trigger] self.mapping@[j]).0@ != key@,
            decreases self.mapping@.len() - i,
        {
            if self.mapping[i].0 == key {
                proof {
                    assert(m0[i as int] == (self.mapping@[i as int].0@,
                    self.mapping@[i as int].1@));
                    lemma_kv_map_domain(m0, key@);
                    lemma_kv_map_remove(m0, i as int);
                }
                self.mapping.remove(i);
                proof {
                    assert(mapping_pairs(self.mapping@) =~= m0.remove(i as int));
                    Self::lemma_wf_same_topology(*old(self), *self);
                }
                return true;
            }
            i += 1;
        }
        proof {
            lemma_kv_map_domain(m0, key@);
            if exists|w: int| 0 <= w < m0.len() && m0[w].0 == key@ {
                let w = choose|w: int| 0 <= w < m0.len() && m0[w].0 == key@;
                assert(self.mapping@[w].0@ == key@);
            }
            assert(!old(self).mapping_map().contains_key(key@));
            assert(old(self).mapping_map().remove(key@) =~= old(self).mapping_map());
        }
        false
    }

    /// After a server is added, re-resolves every stored key and rewrites the
    /// entries whose resolution now names the added server; every other entry
    /// is left untouched.
    fn redirect_key_from_add_server(&mut self, server: String)
        requires
            old(self).wf(),
            old(self).sorted_set@.len() > 0,
        ensures
            final(self).wf(),
            final(self).ring@ == old(self).ring@,
            final(self).sorted_set@ == old(self).sorted_set@,
            final(self).serverlist@ == old(self).serverlist@,
            final(self).replication_factor == old(self).replication_factor,
            final(self).hasher == old(self).hasher,
            forall|k: Seq<char>| #![auto]
                final(self).mapping_map().contains_key(k) <==> old(self).mapping_map().contains_key(
                    k,
                ),
            forall|k: Seq<char>| #[trigger]
                final(self).mapping_map().contains_key(k) ==> final(self).mapping_map()[k] == (
                if old(self).map_key_spec(k) == server@ {
                    server@
                } else {
                    old(self).mapping_map()[k]
                }),
    {
        let ghost orig = *self;
        let mut i: usize = 0;
        while i < self.mapping.len()
            invariant
                orig.wf(),
                orig.sorted_set@.len() > 0,
                self.wf(),
                self.ring@ == orig.ring@,
                self.sorted_set@ == orig.sorted_set@,
                self.serverlist@ == orig.serverlist@,
                self.replication_factor == orig.replication_factor,
                self.hasher == orig.hasher,
                self.mapping@.len() == orig.mapping@.len(),
                0 <= i <= self.mapping@.len(),
                forall|j: int|
                    0 <= j < self.mapping@.len() ==> (#[trigger] self.mapping@[j]).0
                        == orig.mapping@[j].0,
                forall|j: int|
                    i <= j < self.mapping@.len() ==> (#[trigger] self.mapping@[j]).1
                        == orig.mapping@[j].1,
                forall|j: int|
                    0 <= j < i ==> (#[trigger] self.mapping@[j]).1@ == (if orig.map_key_spec(
                        orig.mapping@[j].0@,
                    ) == server@ {
                        server@
                    } else {
                        orig.mapping@[j].1@
                    }),
            decreases self.mapping@.len() - i,
        {
            let key = self.mapping[i].0.clone();
            let r = self.map_key(&key);
            match r {
                Ok(name) => {
                    proof {
                        assert(self.ring_map() == orig.ring_map());
                        assert(name@ == orig.map_key_spec(key@));
                    }
                    if name == server {
                        let ghost mp = mapping_pairs(self.mapping@);
                        proof {
                            assert(mp[i as int] == (self.mapping@[i as int].0@,
                            self.mapping@[i as int].1@));
                            lemma_kv_map_update_value(mp, i as int, server@);
                        }
                        let ghost pre = *self;
                        let kv = self.mapping.remove(i);
                        self.mapping.insert(i, (kv.0, server.clone()));
                        proof {
                            assert(self.mapping@ =~= pre.mapping@.update(
                                i as int,
                                (pre.mapping@[i as int].0, server),
                            ));
                            assert(mapping_pairs(self.mapping@) =~= mp.update(
                                i as int,
                                (key@, server@),
                            ));
                            Self::lemma_wf_same_topology(orig, *self);
                        }
                    }
                },
                Err(_) => {
                    proof {
                        assert(false);
                    }
                },
            }
            i += 1;
        }
        proof {
            let mfin = mapping_pairs(self.mapping@);
            let morig = mapping_pairs(orig.mapping@);
            assert(forall|j: int|
                0 <= j < mfin.len() ==> (#[trigger] mfin[j]).0 == morig[j].0);
            assert forall|k: Seq<char>| #![auto]
                self.mapping_map().contains_key(k) <==> orig.mapping_map().contains_key(k) by {
                lemma_kv_map_domain(mfin, k);
                lemma_kv_map_domain(morig, k);
                if exists|w: int| 0 <= w < mfin.len() && mfin[w].0 == k {
                    let w = choose|w: int| 0 <= w < mfin.len() && mfin[w].0 == k;
                    assert(morig[w].0 == k);
                }
                if exists|w: int| 0 <= w < morig.len() && morig[w].0 == k {
                    let w = choose|w: int| 0 <= w < morig.len() && morig[w].0 == k;
                    assert(mfin[w].0 == k);
                }
            }
            assert forall|k: Seq<char>| #[trigger]
                self.mapping_map().contains_key(k) implies self.mapping_map()[k] == (if
            orig.map_key_spec(k) == server@ {
                server@
            } else {
                orig.mapping_map()[k]
            }) by {
                lemma_kv_map_domain(mfin, k);
                let w = choose|w: int| 0 <= w < mfin.len() && mfin[w].0 == k;
                lemma_kv_map_at(mfin, w);
                lemma_kv_map_at(morig, w);
                assert(self.mapping@[w].0@ == k);
                assert(orig.mapping@[w].0@ == k);
            }
        }
    }

    /// Registers a server: hashes its virtual-node identifiers into the
    /// bucket space, records each position in the position table and the
    /// sorted-position list, appends the name to the server list, and then
    /// redirects the stored keys that now resolve to it. No
    /// duplicate-registration check is made: registering a name twice
    /// duplicates its virtual nodes.
    pub fn add_server(&mut self, server: String)
        requires
            old(self).wf(),
        ensures
            final(self).wf(),
            final(self).rf() == old(self).rf(),
            final(self).hasher_spec() == old(self).hasher_spec(),
            final(self).servers() == old(self).servers().push(server@),
            final(self).sorted().len() == old(self).sorted().len() + old(self).rf(),
            sorted_ascending(final(self).sorted()),
            final(self).sorted().to_multiset() == old(self).sorted().to_multiset().add(
                vnode_position_list(server@, old(self).rf() as nat).to_multiset(),
            ),
            forall|x: u64| #![auto]
                final(self).sorted().contains(x) <==> (old(self).sorted().contains(x)
                    || in_vnode_positions(server@, old(self).rf() as nat, x)),
            forall|p: u64| #![auto]
                final(self).ring_map().contains_key(p) <==> (old(self).ring_map().contains_key(p)
                    || in_vnode_positions(server@, old(self).rf() as nat, p)),
            forall|p: u64| #[trigger]
                final(self).ring_map().contains_key(p) ==> final(self).ring_map()[p] == (
                if in_vnode_positions(server@, old(self).rf() as nat, p) {
                    server@
                } else {
                    old(self).ring_map()[p]
                }),
            forall|k: Seq<char>| #![auto]
                final(self).mapping_map().contains_key(k) <==> old(self).mapping_map().contains_key(
                    k,
                ),
            forall|k: Seq<char>| #[trigger]
                final(self).mapping_map().contains_key(k) ==> final(self).mapping_map()[k] == (
                if final(self).map_key_spec(k) == server@ {
                    server@
                } else {
                    old(self).mapping_map()[k]
                }),
    {
        let ghost orig = *self;
        let ghost rfn = self.replication_factor as nat;
        let rf = self.replication_factor;
        proof {
            broadcast use vstd::seq_lib::group_to_multiset_ensures;
            broadcast use vstd::multiset::group_multiset_axioms;
            broadcast use vstd::multiset::lemma_multiset_empty_len;

            assert(vnode_position_list(server@, 0) =~= Seq::<u64>::empty());
            assert(vnode_position_list(server@, 0).to_multiset().len() == 0);
            assert(orig.sorted_set@.to_multiset().add(vnode_position_list(server@, 0).to_multiset())
                =~= orig.sorted_set@.to_multiset());
        }
        let mut i: i32 = 0;
        while i < rf
            invariant
                orig.wf(),
                rf == orig.replication_factor,
                rfn == orig.replication_factor as nat,
                self.replication_factor == orig.replication_factor,
                self.hasher == orig.hasher,
                self.mapping@ == orig.mapping@,
                self.serverlist@ == orig.serverlist@,
                0 <= i <= rf,
                unique_keys(ring_pairs(self.ring@)),
                sorted_ascending(self.sorted_set@),
                self.sorted_set@.len() == orig.sorted_set@.len() + i,
                self.sorted_set@.to_multiset() == orig.sorted_set@.to_multiset().add(
                    vnode_position_list(server@, i as nat).to_multiset(),
                ),
                forall|x: u64| #![auto]
                    self.sorted_set@.contains(x) <==> (orig.sorted_set@.contains(x)
                        || in_vnode_positions(server@, i as nat, x)),
                forall|p: u64| #![auto]
                    self.ring_map().contains_key(p) <==> (orig.ring_map().contains_key(p)
                        || in_vnode_positions(server@, i as nat, p)),
                forall|p: u64| #[trigger]
                    self.ring_map().contains_key(p) ==> self.ring_map()[p] == (
                    if in_vnode_positions(server@, i as nat, p) {
                        server@
                    } else {
                        orig.ring_map()[p]
                    }),
            decreases rf - i,
        {
            let vid = vnode_string(server.as_str(), i as u64);
            let h = self.hasher.hash_to_used(vid.as_str());
            proof {
                assert(h == vnode_pos(server@, i as nat));
            }
            let ghost mid = *self;
            self.ring_insert(h, server.clone());
            insert_sorted(&mut self.sorted_set, h);
            proof {
                broadcast use vstd::seq_lib::group_to_multiset_ensures;
                broadcast use vstd::multiset::group_multiset_axioms;

                assert forall|x: u64| #![trigger in_vnode_positions(server@, (i + 1) as nat, x)]
                    in_vnode_positions(server@, (i + 1) as nat, x) <==> (in_vnode_positions(
                        server@,
                        i as nat,
                        x,
                    ) || x == h) by {
                    lemma_in_vnode_positions_step(server@, i as nat, x);
                }
                assert(vnode_position_list(server@, (i + 1) as nat) =~= vnode_position_list(
                    server@,
                    i as nat,
                ).push(h));
                assert(vnode_position_list(server@, (i + 1) as nat).to_multiset()
                    =~= vnode_position_list(server@, i as nat).to_multiset().insert(h));
                assert(self.sorted_set@.to_multiset() =~= orig.sorted_set@.to_multiset().add(
                    vnode_position_list(server@, (i + 1) as nat).to_multiset(),
                ));
            }
            i += 1;
        }
        proof {
            assert(i == rf);
            assert(forall|x: u64| #![auto]
                self.sorted_set@.contains(x) <==> (orig.sorted_set@.contains(x)
                    || in_vnode_positions(server@, rfn, x)));
            assert(forall|p: u64| #![auto]
                self.ring_map().contains_key(p) <==> (orig.ring_map().contains_key(p)
                    || in_vnode_positions(server@, rfn, p)));
        }
        self.serverlist.push(server.clone());
        proof {
            assert(forall|p: u64| #![auto]
                self.ring_map().contains_key(p) <==> (orig.ring_map().contains_key(p)
                    || in_vnode_positions(server@, rfn, p)));
            assert(names_of(self.serverlist@) =~= names_of(orig.serverlist@).push(server@));
            assert forall|ii: int|
                0 <= ii < self.sorted_set@.len() implies self.ring_map().contains_key(
                #[trigger] self.sorted_set@[ii],
            ) by {
                let x = self.sorted_set@[ii];
                assert(self.sorted_set@.contains(x));
                if orig.sorted_set@.contains(x) {
                    let w = choose|w: int|
                        0 <= w < orig.sorted_set@.len() && orig.sorted_set@[w] == x;
                    assert(orig.ring_map().contains_key(orig.sorted()[w]));
                } else {
                    assert(in_vnode_positions(server@, rfn, x));
                }
            }
            assert forall|p: u64| #[trigger]
                self.ring_map().contains_key(p) implies self.servers().contains(self.ring_map()[p])
                && in_vnode_positions(self.ring_map()[p], rfn, p) by {
                if in_vnode_positions(server@, rfn, p) {
                    assert(self.servers()[self.servers().len() - 1] == server@);
                } else {
                    assert(orig.ring_map().contains_key(p));
                    let v = orig.ring_map()[p];
                    let w = choose|w: int| 0 <= w < orig.servers().len() && orig.servers()[w] == v;
                    assert(self.servers()[w] == v);
                }
            }
            assert(self.wf());
        }
        let ghost mid2 = *self;
        if self.mapping.len() > 0 {
            self.redirect_key_from_add_server(server);
            proof {
                assert(self.ring_map() == mid2.ring_map());
                assert(self.sorted() == mid2.sorted());
                assert forall|k: Seq<char>| #[trigger]
                    self.mapping_map().contains_key(k) implies self.mapping_map()[k] == (
                if self.map_key_spec(k) == server@ {
                    server@
                } else {
                    orig.mapping_map()[k]
                }) by {
                    Self::lemma_map_key_deterministic(mid2, *self, k);
                }
            }
        } else {
            proof {
                assert(mapping_pairs(self.mapping@).len() == 0);
                assert forall|k: Seq<char>| !(#[trigger] self.mapping_map().contains_key(k)) by {
                    lemma_kv_map_domain(mapping_pairs(self.mapping@), k);
                }
            }
        }
    }

    /// The index of the first occurrence of `server` in the server-name list.
    fn find_server(&self, server: &String) -> (r: Option<usize>)
        ensures
            match r {
                Some(i) => 0 <= i < self.serverlist_view().len()
                    && self.serverlist_view()[i as int]@ == server@ && (forall|j: int|
                    0 <= j < i ==> (#[trigger] self.serverlist_view()[j])@ != server@),
                None => forall|j: int|
                    0 <= j < self.serverlist_view().len()
                        ==> (#[trigger] self.serverlist_view()[j])@ != server@,
            },
    {
        let mut i: usize = 0;
        while i < self.serverlist.len()
            invariant
                0 <= i <= self.serverlist@.len(),
                forall|j: int| 0 <= j < i ==> (#[trigger] self.serverlist@[j])@ != server@,
            decreases self.serverlist@.len() - i,
        {
            if self.serverlist[i] == *server {
                return Some(i);
            }
            i += 1;
        }
        None
    }

    /// After a server is removed, re-resolves every stored key that pointed
    /// to it against the shrunken ring and rewrites its entry; entries
    /// pointing to other servers are left untouched.
    fn redirect_key_from_remove_server(&mut self, server: String)
        requires
            old(self).wf(),
            old(self).sorted_set@.len() > 0,
        ensures
            final(self).wf(),
            final(self).ring@ == old(self).ring@,
            final(self).sorted_set@ == old(self).sorted_set@,
            final(self).serverlist@ == old(self).serverlist@,
            final(self).replication_factor == old(self).replication_factor,
            final(self).hasher == old(self).hasher,
            forall|k: Seq<char>| #![auto]
                final(self).mapping_map().contains_key(k) <==> old(self).mapping_map().contains_key(
                    k,
                ),
            forall|k: Seq<char>| #[trigger]
                final(self).mapping_map().contains_key(k) ==> final(self).mapping_map()[k] == (
                if old(self).mapping_map()[k] == server@ {
                    old(self).map_key_spec(k)
                } else {
                    old(self).mapping_map()[k]
                }),
    {
        let ghost orig = *self;
        let mut i: usize = 0;
        while i < self.mapping.len()
            invariant
                orig.wf(),
                orig.sorted_set@.len() > 0,
                self.wf(),
                self.ring@ == orig.ring@,
                self.sorted_set@ == orig.sorted_set@,
                self.serverlist@ == orig.serverlist@,
                self.replication_factor == orig.replication_factor,
                self.hasher == orig.hasher,
                self.mapping@.len() == orig.mapping@.len(),
                0 <= i <= self.mapping@.len(),
                forall|j: int|
                    0 <= j < self.mapping@.len() ==> (#[trigger] self.mapping@[j]).0
                        == orig.mapping@[j].0,
                forall|j: int|
                    i <= j < self.mapping@.len() ==> (#[trigger] self.mapping@[j]).1
                        == orig.mapping@[j].1,
                forall|j: int|
                    0 <= j < i ==> (#[trigger] self.mapping@[j]).1@ == (if orig.mapping@[j].1@
                        == server@ {
                        orig.map_key_spec(orig.mapping@[j].0@)
                    } else {
                        orig.mapping@[j].1@
                    }),
            decreases self.mapping@.len() - i,
        {
            if self.mapping[i].1 == server {
                let key = self.mapping[i].0.clone();
                let r = self.map_key(&key);
                match r {
                    Ok(name) => {
                        proof {
                            assert(self.ring_map() == orig.ring_map());
                            assert(name@ == orig.map_key_spec(key@));
                        }
                        let ghost mp = mapping_pairs(self.mapping@);
                        proof {
                            assert(mp[i as int] == (self.mapping@[i as int].0@,
                            self.mapping@[i as int].1@));
                            lemma_kv_map_update_value(mp, i as int, name@);
                        }
                        let ghost pre = *self;
                        let kv = self.mapping.remove(i);
                        self.mapping.insert(i, (kv.0, name));
                        proof {
                            assert(self.mapping@ =~= pre.mapping@.update(
                                i as int,
                                (pre.mapping@[i as int].0, self.mapping@[i as int].1),
                            ));
                            assert(mapping_pairs(self.mapping@) =~= mp.update(
                                i as int,
                                (key@, orig.map_key_spec(key@)),
                            ));
                            Self::lemma_wf_same_topology(orig, *self);
                        }
                    },
                    Err(_) => {
                        proof {
                            assert(false);
                        }
                    },
                }
            }
            i += 1;
        }
        proof {
            let mfin = mapping_pairs(self.mapping@);
            let morig = mapping_pairs(orig.mapping@);
            assert(forall|j: int|
                0 <= j < mfin.len() ==> (#[trigger] mfin[j]).0 == morig[j].0);
            assert forall|k: Seq<char>| #![auto]
                self.mapping_map().contains_key(k) <==> orig.mapping_map().contains_key(k) by {
                lemma_kv_map_domain(mfin, k);
                lemma_kv_map_domain(morig, k);
                if exists|w: int| 0 <= w < mfin.len() && mfin[w].0 == k {
                    let w = choose|w: int| 0 <= w < mfin.len() && mfin[w].0 == k;
                    assert(morig[w].0 == k);
                }
                if exists|w: int| 0 <= w < morig.len() && morig[w].0 == k {
                    let w = choose|w: int| 0 <= w < morig.len() && morig[w].0 == k;
                    assert(mfin[w].0 == k);
                }
            }
            assert forall|k: Seq<char>| #[trigger]
                self.mapping_map().contains_key(k) implies self.mapping_map()[k] == (if
            orig.mapping_map()[k] == server@ {
                orig.map_key_spec(k)
            } else {
                orig.mapping_map()[k]
            }) by {
                lemma_kv_map_domain(mfin, k);
                let w = choose|w: int| 0 <= w < mfin.len() && mfin[w].0 == k;
                lemma_kv_map_at(mfin, w);
                lemma_kv_map_at(morig, w);
                assert(self.mapping@[w].0@ == k);
                assert(orig.mapping@[w].0@ == k);
            }
        }
    }

    /// Deregisters a server. When the name is not registered, the ring is
    /// left entirely unchanged and the removal is reported as not found.
    /// Otherwise the name leaves the server list, every occurrence of each of
    /// its virtual-node positions leaves the sorted-position list and the
    /// position table, and every stored key that pointed to it is re-resolved
    /// against the shrunken ring. When the last server leaves, stored
    /// assignments stay as they are: there is no server left to resolve to.
    pub fn del_server(&mut self, server: String) -> (found: bool)
        requires
            old(self).wf(),
        ensures
            final(self).wf(),
            found == old(self).servers().contains(server@),
            !found ==> *final(self) == *old(self),
            final(self).rf() == old(self).rf(),
            final(self).hasher_spec() == old(self).hasher_spec(),
            found ==> (old(self).servers().index_of_first(server@) matches Some(idx)
                && final(self).servers() == old(self).servers().remove(idx)),
            found ==> final(self).sorted() == old(self).sorted().filter(
                (|x: u64| !in_vnode_positions(server@, old(self).rf() as nat, x)),
            ),
            found ==> (forall|p: u64| #![auto]
                final(self).ring_map().contains_key(p) <==> (old(self).ring_map().contains_key(p)
                    && !in_vnode_positions(server@, old(self).rf() as nat, p))),
            found ==> (forall|p: u64| #[trigger]
                final(self).ring_map().contains_key(p) ==> final(self).ring_map()[p] == old(self).ring_map()[p]),
            found && final(self).sorted().len() == 0 ==> final(self).mapping_view() == old(self).mapping_view(),
            found && final(self).sorted().len() > 0 ==> (forall|k: Seq<char>| #![auto]
                final(self).mapping_map().contains_key(k) <==> old(self).mapping_map().contains_key(
                    k,
                )),
            found && final(self).sorted().len() > 0 ==> (forall|k: Seq<char>| #[trigger]
                final(self).mapping_map().contains_key(k) ==> final(self).mapping_map()[k] == (
                if old(self).mapping_map()[k] == server@ {
                    final(self).map_key_spec(k)
                } else {
                    old(self).mapping_map()[k]
                })),
            found && final(self).sorted().len() > 0 ==> (forall|k: Seq<char>|
                #[trigger] final(self).mapping_map().contains_key(k) && old(self).mapping_map()[k]
                    == server@ ==> final(self).servers().contains(final(self).mapping_map()[k])),
    {
        let ghost orig = *self;
        let ghost rfn = self.replication_factor as nat;
        let pos = self.find_server(&server);
        let idx: usize;
        match pos {
            None => {
                proof {
                    if orig.servers().contains(server@) {
                        let w = choose|w: int|
                            0 <= w < orig.servers().len() && orig.servers()[w] == server@;
                        assert(self.serverlist_view()[w]@ == server@);
                        assert(false);
                    }
                }
                return false;
            },
            Some(j) => {
                idx = j;
            },
        }
        proof {
            assert(orig.servers()[idx as int] == server@);
            assert(orig.servers().contains(server@));
            orig.servers().index_of_first_ensures(server@);
            let f = orig.servers().index_of_first(server@).unwrap();
            if f < idx as int {
                assert(orig.serverlist@[f]@ != server@);
            }
            assert(f == idx as int);
        }
        self.serverlist.remove(idx);
        proof {
            orig.serverlist@.remove_ensures(idx as int);
            assert(names_of(self.serverlist@) =~= names_of(orig.serverlist@).remove(idx as int));
        }
        let ghost base = *self;
        let rf = self.replication_factor;
        proof {
            reveal(Seq::filter);
            assert forall|x: u64| !(#[trigger] in_vnode_positions(server@, 0, x)) by {}
            assert(self.sorted_set@ =~= orig.sorted_set@.filter(
                (|x: u64| !in_vnode_positions(server@, 0, x)),
            )) by {
                let p0 = |x: u64| !in_vnode_positions(server@, 0, x);
                assert(forall|x: u64| #[trigger] p0(x));
                lemma_filter_all_true(orig.sorted_set@, p0);
            }
        }
        let mut i: i32 = 0;
        while i < rf
            invariant
                orig.wf(),
                rf == orig.replication_factor,
                rfn == orig.replication_factor as nat,
                self.replication_factor == orig.replication_factor,
                self.hasher == orig.hasher,
                self.mapping@ == orig.mapping@,
                self.serverlist@ == base.serverlist@,
                0 <= i <= rf,
                unique_keys(ring_pairs(self.ring@)),
                self.sorted_set@ == orig.sorted_set@.filter(
                    (|x: u64| !in_vnode_positions(server@, i as nat, x)),
                ),
                forall|p: u64| #![auto]
                    self.ring_map().contains_key(p) <==> (orig.ring_map().contains_key(p)
                        && !in_vnode_positions(server@, i as nat, p)),
                forall|p: u64| #[trigger]
                    self.ring_map().contains_key(p) ==> self.ring_map()[p] == orig.ring_map()[p],
            decreases rf - i,
        {
            let vid = vnode_string(server.as_str(), i as u64);
            let h = self.hasher.hash_to_used(vid.as_str());
            proof {
                assert(h == vnode_pos(server@, i as nat));
            }
            let ghost s0 = *self;
            self.del_slice(h);
            self.ring_remove(h);
            proof {
                assert(self.ring_map() == s0.ring_map().remove(h));
                assert forall|p: u64| #[trigger]
                    self.ring_map().contains_key(p) implies self.ring_map()[p]
                    == orig.ring_map()[p] by {
                    assert(s0.ring_map().contains_key(p));
                    assert(s0.ring_map()[p] == orig.ring_map()[p]);
                }
                assert forall|x: u64| #![trigger in_vnode_positions(server@, (i + 1) as nat, x)]
                    in_vnode_positions(server@, (i + 1) as nat, x) <==> (in_vnode_positions(
                        server@,
                        i as nat,
                        x,
                    ) || x == h) by {
                    lemma_in_vnode_positions_step(server@, i as nat, x);
                }
                let pi = |x: u64| !in_vnode_positions(server@, i as nat, x);
                let pn = |x: u64| !in_vnode_positions(server@, (i + 1) as nat, x);
                let ph = |x: u64| x != h;
                lemma_filter_filter(orig.sorted_set@, pi, ph);
                assert((|x: u64| pi(x) && ph(x)) =~= pn);
                assert(self.sorted_set@ == orig.sorted_set@.filter(pn));
            }
            i += 1;
        }
        proof {
            assert forall|x: u64| #![auto]
                in_vnode_positions(server@, rf as nat, x) == in_vnode_positions(
                    server@,
                    rfn,
                    x,
                ) by {}
            assert(self.sorted_set@ == orig.sorted_set@.filter(
                (|x: u64| !in_vnode_positions(server@, rfn, x)),
            ));
            let pf = |x: u64| !in_vnode_positions(server@, rfn, x);
            lemma_filter_sorted(orig.sorted_set@, pf);
            lemma_filter_elements(orig.sorted_set@, pf);
            assert forall|ii: int|
                0 <= ii < self.sorted_set@.len() implies self.ring_map().contains_key(
                #[trigger] self.sorted_set@[ii],
            ) by {
                let x = self.sorted_set@[ii];
                assert(orig.sorted_set@.contains(x));
                assert(pf(x));
                let w = choose|w: int|
                    0 <= w < orig.sorted_set@.len() && orig.sorted_set@[w] == x;
                assert(orig.ring_map().contains_key(orig.sorted()[w]));
            }
            assert forall|p: u64| #[trigger]
                self.ring_map().contains_key(p) implies self.servers().contains(self.ring_map()[p])
                && in_vnode_positions(self.ring_map()[p], rfn, p) by {
                assert(orig.ring_map().contains_key(p));
                let v = orig.ring_map()[p];
                assert(self.ring_map()[p] == v);
                assert(in_vnode_positions(v, orig.rf() as nat, p));
                assert(orig.rf() as nat == rfn);
                if v == server@ {
                    assert(in_vnode_positions(server@, rfn, p));
                    assert(false);
                }
                assert(orig.servers().contains(v));
                let w = choose|w: int| 0 <= w < orig.servers().len() && orig.servers()[w] == v;
                assert(w != idx as int);
                orig.serverlist@.remove_ensures(idx as int);
                if w < idx as int {
                    assert(self.servers()[w] == v);
                } else {
                    assert(self.servers()[w - 1] == v);
                }
            }
            assert(self.wf());
        }
        let ghost mid2 = *self;
        if self.mapping.len() > 0 && self.sorted_set.len() > 0 {
            self.redirect_key_from_remove_server(server);
            proof {
                assert(self.ring_map() == mid2.ring_map());
                assert(self.sorted() == mid2.sorted());
                assert forall|k: Seq<char>| #[trigger]
                    self.mapping_map().contains_key(k) implies self.mapping_map()[k] == (
                if orig.mapping_map()[k] == server@ {
                    self.map_key_spec(k)
                } else {
                    orig.mapping_map()[k]
                }) by {
                    Self::lemma_map_key_deterministic(mid2, *self, k);
                }
                assert forall|k: Seq<char>|
                    #[trigger] self.mapping_map().contains_key(k) && orig.mapping_map()[k]
                        == server@ implies self.servers().contains(self.mapping_map()[k]) by {
                    Self::lemma_map_key_registered(*self, k);
                }
            }
        } else {
            proof {
                if self.mapping@.len() == 0 {
                    assert(mapping_pairs(self.mapping@).len() == 0);
                    assert forall|k: Seq<char>| !(#[trigger] self.mapping_map().contains_key(
                        k,
                    )) by {
                        lemma_kv_map_domain(mapping_pairs(self.mapping@), k);
                    }
                }
            }
        }
        true
    }

    /// Resolution is a function of the ring topology alone: two rings with
    /// the same position table and the same sorted-position list resolve
    /// every key to the same server, whatever their assignment tables hold.
    pub proof fn lemma_map_key_deterministic(c1: Consistent, c2: Consistent, k: Seq<char>)
        requires
            c1.ring_map() == c2.ring_map(),
            c1.sorted() == c2.sorted(),
        ensures
            c1.map_key_spec(k) == c2.map_key_spec(k),
    {
    }

    /// A well-formed ring with no registered servers holds no positions at
    /// all, so resolving any key against it reports the empty ring rather
    /// than returning a server.
    pub proof fn lemma_no_servers_no_positions(c: Consistent)
        requires
            c.wf(),
            c.servers().len() == 0,
        ensures
            c.sorted().len() == 0,
            forall|p: u64| !(#[trigger] c.ring_map().contains_key(p)),
    {
        assert forall|p: u64| !(#[trigger] c.ring_map().contains_key(p)) by {
            if c.ring_map().contains_key(p) {
                assert(c.servers().contains(c.ring_map()[p]));
            }
        }
        if c.sorted().len() > 0 {
            assert(c.ring_map().contains_key(c.sorted()[0]));
        }
    }

    /// On a well-formed, non-empty ring every key resolves through a listed
    /// position to a registered server.
    pub proof fn lemma_map_key_registered(c: Consistent, k: Seq<char>)
        requires
            c.wf(),
            c.sorted().len() > 0,
        ensures
            c.ring_map().contains_key(resolve_pos(c.sorted(), bucket_of(k))),
            c.servers().contains(c.map_key_spec(k)),
    {
        lemma_resolve_pos_in_list(c.sorted(), bucket_of(k));
        let p = resolve_pos(c.sorted(), bucket_of(k));
        let w = choose|w: int| 0 <= w < c.sorted().len() && c.sorted()[w] == p;
        assert(c.ring_map().contains_key(c.sorted()[w]));
    }

    /// A snapshot of the position table.
    pub fn get_ring(&self) -> (r: Vec<(u64, String)>)
        ensures
            r@ == self.ring_view(),
            ring_map_of(r@) == self.ring_map(),
    {
        let mut r: Vec<(u64, String)> = Vec::new();
        let mut i: usize = 0;
        while i < self.ring.len()
            invariant
                0 <= i <= self.ring@.len(),
                r@ == self.ring@.subrange(0, i as int),
            decreases self.ring@.len() - i,
        {
            let p = self.ring[i].0;
            let name = self.ring[i].1.clone();
            r.push((p, name));
            proof {
                assert(r@ =~= self.ring@.subrange(0, i + 1));
            }
            i += 1;
        }
        proof {
            assert(r@ =~= self.ring@);
        }
        r
    }

    /// A reference to the ring's hash function.
    pub fn get_hasher(&self) -> (r: &MyHasher)
        ensures
            *r == self.hasher_spec(),
    {
        &self.hasher
    }

    /// A snapshot of the assignment table.
    pub fn get_mapping(&self) -> (r: Vec<(String, String)>)
        ensures
            r@ == self.mapping_view(),
            mapping_map_of(r@) == self.mapping_map(),
    {
        let mut r: Vec<(String, String)> = Vec::new();
        let mut i: usize = 0;
        while i < self.mapping.len()
            invariant
                0 <= i <= self.mapping@.len(),
                r@ == self.mapping@.subrange(0, i as int),
            decreases self.mapping@.len() - i,
        {
            let key = self.mapping[i].0.clone();
            let name = self.mapping[i].1.clone();
            r.push((key, name));
            proof {
                assert(r@ =~= self.mapping@.subrange(0, i + 1));
            }
            i += 1;
        }
        proof {
            assert(r@ =~= self.mapping@);
        }
        r
    }

    /// A snapshot of the sorted-position list.
    pub fn get_sorted_set(&self) -> (r: Vec<u64>)
        ensures
            r@ == self.sorted(),
    {
        let mut r: Vec<u64> = Vec::new();
        let mut i: usize = 0;
        while i < self.sorted_set.len()
            invariant
                0 <= i <= self.sorted().len(),
                r@ == self.sorted().subrange(0, i as int),
            decreases self.sorted().len() - i,
        {
            r.push(self.sorted_set[i]);
            proof {
                assert(r@ =~= self.sorted().subrange(0, i + 1));
            }
            i += 1;
        }
        proof {
            assert(r@ =~= self.sorted());
        }
        r
    }

    /// A snapshot of the server-name list.
    pub fn get_serverlist(&self) -> (r: Vec<String>)
        ensures
            r@ == self.serverlist_view(),
            names_of(r@) == self.servers(),
    {
        let mut r: Vec<String> = Vec::new();
        let mut i: usize = 0;
        while i < self.serverlist.len()
            invariant
                0 <= i <= self.serverlist@.len(),
                r@ == self.serverlist@.subrange(0, i as int),
            decreases self.serverlist@.len() - i,
        {
            r.push(self.serverlist[i].clone());
            proof {
                assert(r@ =~= self.serverlist@.subrange(0, i + 1));
            }
            i += 1;
        }
        proof {
            assert(r@ =~= self.serverlist@);
        }
        r
    }
}

} // verus!
