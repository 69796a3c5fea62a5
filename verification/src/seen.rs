//! First-occurrence deduplication.
//!
//! A scan keeps the set of device identifiers it has already met, so each
//! physical device is counted at most once however many log rows it
//! produced.  The set lives for one scan and is discarded with it.

use vstd::prelude::*;

use crate::record::bytes_eq;

verus! {

/// The set of byte-string keys a scan has met so far.
pub struct SeenSet {
    items: Vec<Vec<u8>>,
}

impl View for SeenSet {
    type V = Set<Seq<u8>>;

    closed spec fn view(&self) -> Set<Seq<u8>> {
        Set::new(
            |k: Seq<u8>|
                exists|i: int| 0 <= i < self.items@.len() && self.items@[i]@ == k,
        )
    }
}

impl SeenSet {
    /// An empty set.
    pub fn new() -> (r: SeenSet)
        ensures
            r@ == Set::<Seq<u8>>::empty(),
    {
        let r = SeenSet { items: Vec::new() };
        proof {
            assert(r@ =~= Set::<Seq<u8>>::empty());
        }
        r
    }

    /// Inserts `key` and reports whether it was new: true exactly when the
    /// set had not held it yet (the first sight of the key).
    pub fn check_insert(&mut self, key: Vec<u8>) -> (fresh: bool)
        ensures
            fresh == !old(self)@.contains(key@),
            final(self)@ == old(self)@.insert(key@),
    {
        let mut i: usize = 0;
        while i < self.items.len()
            invariant
                0 <= i <= self.items@.len(),
                forall|j: int| 0 <= j < i ==> self.items@[j]@ != key@,
            decreases self.items@.len() - i,
        {
            if bytes_eq(self.items[i].as_slice(), key.as_slice()) {
                proof {
                    assert(old(self)@.contains(key@));
                    assert(self@ =~= old(self)@.insert(key@));
                }
                return false;
            }
            i = i + 1;
        }
        proof {
            assert(!old(self)@.contains(key@));
        }
        let ghost old_items = self.items@;
        self.items.push(key);
        proof {
            assert forall|k: Seq<u8>| self@.contains(k) <==> old(self)@.insert(key@).contains(k) by {
                if k == key@ {
                    assert(self.items@[old_items.len() as int]@ == key@);
                } else {
                    assert(forall|j: int|
                        0 <= j < self.items@.len() && self.items@[j]@ == k ==> j < old_items.len()
                            && old_items[j]@ == k);
                    assert(forall|j: int|
                        0 <= j < old_items.len() && old_items[j]@ == k ==> self.items@[j]@ == k);
                }
            }
            assert(self@ =~= old(self)@.insert(key@));
        }
        true
    }
}

} // verus!
