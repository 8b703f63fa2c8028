//! Bounded, insertion-ordered set of statement hashes.
//!
//! Each connected peer carries one of these to remember which statements it
//! has already seen; when the set is full, the least recently inserted hash
//! is evicted.

use vstd::prelude::*;

use crate::types::StatementHash;

verus! {

/// What inserting `h` into an insertion-ordered bounded set with contents `s`
/// and capacity `cap` yields: nothing changes if `h` is already present;
/// otherwise `h` is appended, evicting the oldest element if the set is full.
pub open spec fn lru_insert(s: Seq<StatementHash>, h: StatementHash, cap: int) -> Seq<
    StatementHash,
> {
    if s.contains(h) {
        s
    } else if s.len() < cap {
        s.push(h)
    } else {
        s.drop_first().push(h)
    }
}

/// Bounded set of statement hashes with insertion-order eviction.
///
/// The view is the sequence of distinct hashes, oldest first.
pub struct KnownStatements {
    items: Vec<StatementHash>,
    capacity: usize,
}

impl View for KnownStatements {
    type V = Seq<StatementHash>;

    closed spec fn view(&self) -> Seq<StatementHash> {
        self.items@
    }
}

impl KnownStatements {
    /// Capacity the set was created with.
    pub closed spec fn spec_capacity(&self) -> usize {
        self.capacity
    }

    /// Well-formedness: positive capacity, no duplicates, within capacity.
    pub open spec fn wf(&self) -> bool {
        &&& self@.no_duplicates()
        &&& self@.len() <= self.spec_capacity()
        &&& self.spec_capacity() > 0
    }

    /// An empty set with the given capacity.
    pub fn new(capacity: usize) -> (r: KnownStatements)
        requires
            capacity > 0,
        ensures
            r.wf(),
            r@ == Seq::<StatementHash>::empty(),
            r.spec_capacity() == capacity,
    {
        KnownStatements { items: Vec::new(), capacity }
    }

    /// Whether `h` is currently in the set.
    pub fn contains(&self, h: StatementHash) -> (r: bool)
        ensures
            r == self@.contains(h),
    {
        let mut i: usize = 0;
        while i < self.items.len()
            invariant
                i <= self.items@.len(),
                forall|j: int| 0 <= j < i ==> self.items@[j] != h,
            decreases self.items@.len() - i,
        {
            if self.items[i] == h {
                return true;
            }
            i += 1;
        }
        false
    }

    /// Insert `h`, evicting the oldest element if the set is full.
    ///
    /// Returns `true` iff `h` was newly added.
    pub fn insert(&mut self, h: StatementHash) -> (newly: bool)
        requires
            old(self).wf(),
        ensures
            final(self).wf(),
            newly == !old(self)@.contains(h),
            final(self)@ == lru_insert(old(self)@, h, old(self).spec_capacity() as int),
            final(self).spec_capacity() == old(self).spec_capacity(),
    {
        if self.contains(h) {
            return false;
        }
        if self.items.len() == self.capacity {
            self.items.remove(0);
            proof {
                assert(self.items@ =~= old(self)@.drop_first());
                assert forall|i: int, j: int|
                    0 <= i < self.items@.len() && 0 <= j < self.items@.len() && i
                        != j implies self.items@[i] != self.items@[j] by {
                    assert(old(self)@[i + 1] == self.items@[i]);
                    assert(old(self)@[j + 1] == self.items@[j]);
                }
                assert(self.items@.no_duplicates());
                assert(!self.items@.contains(h)) by {
                    if self.items@.contains(h) {
                        let j = choose|j: int|
                            0 <= j < self.items@.len() && self.items@[j] == h;
                        assert(old(self)@[j + 1] == h);
                        assert(old(self)@.contains(h));
                    }
                }
            }
        }
        let ghost pre = self.items@;
        self.items.push(h);
        proof {
            assert(pre.no_duplicates());
            assert(!pre.contains(h));
            assert forall|i: int, j: int|
                0 <= i < self.items@.len() && 0 <= j < self.items@.len() && i
                    != j implies self.items@[i] != self.items@[j] by {
                if i == pre.len() {
                    if self.items@[j] == h {
                        assert(pre[j] == h);
                        assert(pre.contains(h));
                    }
                } else if j == pre.len() {
                    if self.items@[i] == h {
                        assert(pre[i] == h);
                        assert(pre.contains(h));
                    }
                }
            }
            assert(self.items@.no_duplicates());
        }
        true
    }
}

/// After an insertion the inserted hash is always in the set.
pub proof fn lemma_lru_insert_contains(s: Seq<StatementHash>, h: StatementHash, cap: int)
    ensures
        lru_insert(s, h, cap).contains(h),
{
    if s.contains(h) {
    } else if s.len() < cap {
        assert(lru_insert(s, h, cap)[s.len() as int] == h);
    } else {
        let r = s.drop_first().push(h);
        assert(r[r.len() - 1] == h);
    }
}

/// When the set is at capacity and a fresh hash arrives, the oldest entry is
/// the one evicted: it is no longer in the set afterwards (so it becomes
/// re-sendable), the fresh hash is present, and every other element survives.
pub proof fn lemma_lru_eviction(s: Seq<StatementHash>, h: StatementHash, cap: int)
    requires
        s.no_duplicates(),
        s.len() == cap,
        cap > 0,
        !s.contains(h),
    ensures
        lru_insert(s, h, cap) == s.drop_first().push(h),
        !lru_insert(s, h, cap).contains(s[0]),
        lru_insert(s, h, cap).contains(h),
        lru_insert(s, h, cap).len() == cap,
        forall|x: StatementHash| s.contains(x) && x != s[0] ==> lru_insert(s, h, cap).contains(x),
{
    let r = s.drop_first().push(h);
    assert(s[0] != h);
    assert(!r.contains(s[0])) by {
        if r.contains(s[0]) {
            let j = choose|j: int| 0 <= j < r.len() && r[j] == s[0];
            if j < r.len() - 1 {
                assert(s.drop_first()[j] == s[0]);
                assert(s[j + 1] == s[0]);
            }
        }
    }
    assert(r.contains(h)) by {
        assert(r[r.len() - 1] == h);
    }
    assert forall|x: StatementHash| s.contains(x) && x != s[0] implies r.contains(x) by {
        let j = choose|j: int| 0 <= j < s.len() && s[j] == x;
        assert(j != 0);
        assert(r[j - 1] == s.drop_first()[j - 1]);
        assert(s.drop_first()[j - 1] == s[j]);
    }
}

} // verus!
