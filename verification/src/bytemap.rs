//! A byte-keyed association map.
//!
//! Both registries of the library are read-mostly maps under small
//! byte-string keys: the vendor table binds a six-byte vendor identifier
//! to the vendor's name, and the access-point registry binds an
//! access-point identifier to a building identifier.  This module holds
//! the one map type behind both, viewed in contracts as a `Map` from the
//! key's bytes to the value's view.

use vstd::prelude::*;

use crate::record::bytes_eq;

verus! {

/// Index of some entry of `entries` whose key reads `k`.
pub open spec fn entry_index<V>(entries: Seq<(Vec<u8>, V)>, k: Seq<u8>) -> int {
    choose|i: int| 0 <= i < entries.len() && entries[i].0@ == k
}

/// Some entry of `entries` has the key `k`.
pub open spec fn has_key<V>(entries: Seq<(Vec<u8>, V)>, k: Seq<u8>) -> bool {
    exists|i: int| 0 <= i < entries.len() && entries[i].0@ == k
}

/// No two entries share a key.
pub open spec fn keys_unique<V>(entries: Seq<(Vec<u8>, V)>) -> bool {
    forall|i: int, j: int|
        0 <= i < j < entries.len() ==> entries[i].0@ != entries[j].0@
}

/// An association from byte-string keys to values, with no key repeated.
/// The vendor table and the access-point registry are both one of these.
pub struct ByteMap<V> {
    entries: Vec<(Vec<u8>, V)>,
}

impl<V: View> View for ByteMap<V> {
    type V = Map<Seq<u8>, V::V>;

    closed spec fn view(&self) -> Map<Seq<u8>, V::V> {
        Map::new(
            |k: Seq<u8>| has_key(self.entries@, k),
            |k: Seq<u8>| self.entries@[entry_index(self.entries@, k)].1@,
        )
    }
}

impl<V: View> ByteMap<V> {
    /// The map's keys never repeat.
    pub closed spec fn wf(&self) -> bool {
        keys_unique(self.entries@)
    }

    /// An empty map.
    pub fn new() -> (r: ByteMap<V>)
        ensures
            r.wf(),
            r@ == Map::<Seq<u8>, V::V>::empty(),
    {
        let r = ByteMap { entries: Vec::new() };
        proof {
            assert(r@ =~= Map::<Seq<u8>, V::V>::empty());
        }
        r
    }

    /// How many keys the map holds.
    pub fn len(&self) -> (r: usize)
        requires
            self.wf(),
        ensures
            r == self@.dom().len(),
    {
        proof {
            lemma_unique_dom_len(self.entries@, self@);
        }
        self.entries.len()
    }

    /// Binds `key` to `name`, replacing any earlier binding of `key`.
    pub fn insert(&mut self, key: Vec<u8>, name: V)
        requires
            old(self).wf(),
        ensures
            final(self).wf(),
            final(self)@ == old(self)@.insert(key@, name.view()),
    {
        let mut i: usize = 0;
        while i < self.entries.len()
            invariant
                0 <= i <= self.entries@.len(),
                forall|j: int| 0 <= j < i ==> self.entries@[j].0@ != key@,
                self == old(self),
                self.wf(),
            decreases self.entries@.len() - i,
        {
            if bytes_eq(self.entries[i].0.as_slice(), key.as_slice()) {
                let ghost olde = self.entries@;
                self.entries.set(i, (key, name));
                proof {
                    let newe = self.entries@;
                    assert(keys_unique(olde));
                    assert(olde[i as int].0@ == key@);
                    assert forall|a: int, b: int| 0 <= a < b < newe.len() implies
                        newe[a].0@ != newe[b].0@ by {
                        assert(newe[a].0@ == olde[a].0@);
                        assert(newe[b].0@ == olde[b].0@);
                    }
                    assert forall|k: Seq<u8>| #[trigger] has_key(newe, k) implies
                        has_key(olde, k) || k == olde[i as int].0@ by {
                        let w = choose|w: int| 0 <= w < newe.len() && newe[w].0@ == k;
                        if w != i {
                            assert(olde[w].0@ == k);
                        }
                    }
                    assert forall|k: Seq<u8>| #[trigger] has_key(olde, k) implies has_key(newe, k) by {
                        let w = choose|w: int| 0 <= w < olde.len() && olde[w].0@ == k;
                        if w == i {
                            assert(newe[w].0@ == olde[i as int].0@);
                        } else {
                            assert(newe[w].0@ == k);
                        }
                    }
                    assert forall|k: Seq<u8>| has_key(newe, k) && k != key@ implies
                        newe[entry_index(newe, k)].1.view() == olde[entry_index(olde, k)].1.view() by {
                        let wn = entry_index(newe, k);
                        let wo = entry_index(olde, k);
                        assert(0 <= wn < newe.len() && newe[wn].0@ == k);
                        assert(wn != i);
                        assert(olde[wn].0@ == k);
                        assert(0 <= wo < olde.len() && olde[wo].0@ == k);
                        assert(wo == wn);
                    }
                    assert(has_key(newe, key@)) by {
                        assert(newe[i as int].0@ == key@);
                    }
                    assert(newe[entry_index(newe, key@)].1.view() == name.view()) by {
                        assert(entry_index(newe, key@) == i);
                    }
                    assert(self@ =~= old(self)@.insert(key@, name.view()));
                }
                return;
            }
            i = i + 1;
        }
        let ghost olde = self.entries@;
        self.entries.push((key, name));
        proof {
            let newe = self.entries@;
            assert(keys_unique(olde));
            assert forall|a: int, b: int| 0 <= a < b < newe.len() implies
                newe[a].0@ != newe[b].0@ by {
                assert(newe[a].0@ == olde[a].0@);
                if b < olde.len() {
                    assert(newe[b].0@ == olde[b].0@);
                } else {
                    assert(newe[b].0@ == key@);
                }
            }
            assert forall|k: Seq<u8>| #[trigger] has_key(newe, k) implies
                has_key(olde, k) || k == key@ by {
                let w = choose|w: int| 0 <= w < newe.len() && newe[w].0@ == k;
                if w != olde.len() {
                    assert(olde[w].0@ == k);
                }
            }
            assert forall|k: Seq<u8>| #[trigger] has_key(olde, k) implies has_key(newe, k) by {
                let w = choose|w: int| 0 <= w < olde.len() && olde[w].0@ == k;
                assert(newe[w].0@ == k);
            }
            assert(has_key(newe, key@)) by {
                assert(newe[olde.len() as int].0@ == key@);
            }
            assert forall|k: Seq<u8>| has_key(newe, k) && k != key@ implies
                newe[entry_index(newe, k)].1.view() == olde[entry_index(olde, k)].1.view() by {
                let wn = entry_index(newe, k);
                let wo = entry_index(olde, k);
                assert(0 <= wn < newe.len() && newe[wn].0@ == k);
                assert(wn != olde.len());
                assert(olde[wn].0@ == k);
                assert(0 <= wo < olde.len() && olde[wo].0@ == k);
                assert(wo == wn);
            }
            assert(newe[entry_index(newe, key@)].1.view() == name.view()) by {
                let wn = entry_index(newe, key@);
                assert(0 <= wn < newe.len() && newe[wn].0@ == key@);
                assert(wn == olde.len());
            }
            assert(self@ =~= old(self)@.insert(key@, name.view()));
        }
    }

    /// Resolves a key to its value.  `None` exactly when the map does not
    /// know the key.
    pub fn lookup(&self, key: &[u8]) -> (r: Option<&V>)
        requires
            self.wf(),
        ensures
            r is Some <==> self@.dom().contains(key@),
            r matches Some(name) ==> name.view() == self@[key@],
    {
        let mut i: usize = 0;
        while i < self.entries.len()
            invariant
                0 <= i <= self.entries@.len(),
                self.wf(),
                forall|j: int| 0 <= j < i ==> self.entries@[j].0@ != key@,
            decreases self.entries@.len() - i,
        {
            if bytes_eq(self.entries[i].0.as_slice(), key) {
                proof {
                    assert(has_key(self.entries@, key@)) by {
                        assert(self.entries@[i as int].0@ == key@);
                    }
                    assert(entry_index(self.entries@, key@) == i as int) by {
                        let w = entry_index(self.entries@, key@);
                        assert(0 <= w < self.entries@.len() && self.entries@[w].0@ == key@);
                    }
                }
                return Some(&self.entries[i].1);
            }
            i = i + 1;
        }
        proof {
            assert(!has_key(self.entries@, key@));
        }
        None
    }
}

/// With unique keys, the domain of the derived map has one element per
/// entry.
proof fn lemma_unique_dom_len<V: View>(entries: Seq<(Vec<u8>, V)>, m: Map<Seq<u8>, V::V>)
    requires
        keys_unique(entries),
        m.dom() =~= Set::new(|k: Seq<u8>| has_key(entries, k)),
    ensures
        m.dom().finite(),
        m.dom().len() == entries.len(),
    decreases entries.len(),
{
    if entries.len() == 0 {
        assert(m.dom() =~= Set::<Seq<u8>>::empty());
    } else {
        let prefix = entries.drop_last();
        let mp = Map::<Seq<u8>, V::V>::new(
            |k: Seq<u8>| has_key(prefix, k),
            |k: Seq<u8>| prefix[entry_index(prefix, k)].1.view(),
        );
        lemma_unique_dom_len(prefix, mp);
        let lastk = entries.last().0@;
        assert(!has_key(prefix, lastk)) by {
            assert(forall|j: int| 0 <= j < prefix.len() ==> #[trigger] prefix[j].0@ != lastk);
        }
        assert forall|k: Seq<u8>| #[trigger] has_key(entries, k) implies
            has_key(prefix, k) || k == lastk by {
            let w = choose|w: int| 0 <= w < entries.len() && entries[w].0@ == k;
            if w != entries.len() - 1 {
                assert(prefix[w].0@ == k);
            }
        }
        assert forall|k: Seq<u8>| #[trigger] has_key(prefix, k) implies has_key(entries, k) by {
            let w = choose|w: int| 0 <= w < prefix.len() && prefix[w].0@ == k;
            assert(entries[w].0@ == k);
        }
        assert(m.dom() =~= mp.dom().insert(lastk));
        assert(!mp.dom().contains(lastk));
    }
}

} // verus!
