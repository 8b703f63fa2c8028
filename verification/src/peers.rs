//! Per-peer state: one record per currently open substream.

use vstd::prelude::*;

use crate::lru::{lru_insert, KnownStatements};
use crate::types::{PeerId, Role, StatementHash};

verus! {

/// Abstract value of one peer record.
#[verifier::ext_equal]
pub struct PeerView {
    pub known: Seq<StatementHash>,
    pub known_capacity: usize,
    pub role: Role,
}

/// State kept for one connected peer.
pub struct Peer {
    pub known_statements: KnownStatements,
    pub role: Role,
}

impl View for Peer {
    type V = PeerView;

    open spec fn view(&self) -> PeerView {
        PeerView {
            known: self.known_statements@,
            known_capacity: self.known_statements.spec_capacity(),
            role: self.role,
        }
    }
}

impl Peer {
    pub open spec fn wf(&self) -> bool {
        self.known_statements.wf()
    }

    /// A fresh record for a peer whose substream just opened.
    pub fn new(known_capacity: usize, role: Role) -> (r: Peer)
        requires
            known_capacity > 0,
        ensures
            r.wf(),
            r@.known == Seq::<StatementHash>::empty(),
            r@.known_capacity == known_capacity,
            r@.role == role,
    {
        Peer { known_statements: KnownStatements::new(known_capacity), role }
    }
}

struct PeerRecord {
    peer: PeerId,
    state: Peer,
}

/// Table of all currently connected peers on the protocol.
pub struct PeerTable {
    entries: Vec<PeerRecord>,
}

/// The peer identifiers of a table view, in entry order.
pub open spec fn peer_ids(v: Seq<(PeerId, PeerView)>) -> Seq<PeerId> {
    v.map_values(|e: (PeerId, PeerView)| e.0)
}

/// Index of the entry for `who`; meaningful only when one exists.
pub open spec fn peer_idx(v: Seq<(PeerId, PeerView)>, who: PeerId) -> int {
    choose|i: int| 0 <= i < v.len() && v[i].0 == who
}

impl View for PeerTable {
    type V = Seq<(PeerId, PeerView)>;

    closed spec fn view(&self) -> Seq<(PeerId, PeerView)> {
        self.entries@.map_values(|r: PeerRecord| (r.peer, r.state@))
    }
}

impl PeerTable {
    /// Well-formedness: one record per peer, every record well formed.
    pub open spec fn wf(&self) -> bool {
        &&& peer_ids(self@).no_duplicates()
        &&& forall|i: int|
            0 <= i < self@.len() ==> (#[trigger] self@[i]).1.known.no_duplicates()
                && self@[i].1.known.len() <= self@[i].1.known_capacity && self@[i].1.known_capacity
                > 0
    }

    /// An empty table.
    pub fn new() -> (r: PeerTable)
        ensures
            r.wf(),
            r@ == Seq::<(PeerId, PeerView)>::empty(),
    {
        PeerTable { entries: Vec::new() }
    }

    /// Number of connected peers.
    pub fn len(&self) -> (r: usize)
        ensures
            r == self@.len(),
    {
        self.entries.len()
    }

    /// Index of the record for `who`, if the peer is connected.
    pub fn index_of(&self, who: PeerId) -> (r: Option<usize>)
        requires
            self.wf(),
        ensures
            (r is Some) <==> peer_ids(self@).contains(who),
            r is Some ==> r.unwrap() < self@.len() && self@[r.unwrap() as int].0 == who
                && peer_idx(self@, who) == r.unwrap(),
    {
        let n = self.entries.len();
        let mut i: usize = 0;
        while i < n
            invariant
                self.wf(),
                n == self.entries@.len(),
                i <= n,
                forall|j: int| 0 <= j < i ==> (#[trigger] self.entries@[j]).peer != who,
            decreases n - i,
        {
            if self.entries[i].peer == who {
                proof {
                    assert(self@[i as int].0 == who);
                    assert(peer_ids(self@)[i as int] == who);
                    assert(peer_ids(self@).contains(who));
                    let k = peer_idx(self@, who);
                    assert(peer_ids(self@)[k] == who);
                    if k != i {
                        assert(false);
                    }
                }
                return Some(i);
            }
            i += 1;
        }
        proof {
            assert(!peer_ids(self@).contains(who)) by {
                if peer_ids(self@).contains(who) {
                    let j = choose|j: int|
                        0 <= j < peer_ids(self@).len() && peer_ids(self@)[j] == who;
                    assert(self.entries@[j].peer == who);
                }
            }
        }
        None
    }

    /// Insert a fresh record for `who`; replaces any record already present.
    pub fn insert(&mut self, who: PeerId, state: Peer) -> (was_present: bool)
        requires
            old(self).wf(),
            state.wf(),
        ensures
            final(self).wf(),
            was_present == peer_ids(old(self)@).contains(who),
            !was_present ==> final(self)@ == old(self)@.push((who, state@)),
            was_present ==> final(self)@ == old(self)@.update(
                peer_idx(old(self)@, who),
                (who, state@),
            ),
            peer_ids(final(self)@) == if was_present {
                peer_ids(old(self)@)
            } else {
                peer_ids(old(self)@).push(who)
            },
    {
        let ghost v0 = self@;
        let ghost sv = state@;
        let idx = self.index_of(who);
        match idx {
            Some(i) => {
                self.entries[i] = PeerRecord { peer: who, state };
                proof {
                    assert(self@ =~= v0.update(i as int, (who, sv)));
                    assert(peer_ids(self@) =~= peer_ids(v0));
                    assert forall|j: int|
                        0 <= j < self@.len() implies (#[trigger] self@[j]).1.known.no_duplicates()
                        && self@[j].1.known.len() <= self@[j].1.known_capacity
                        && self@[j].1.known_capacity > 0 by {
                        if j != i {
                            assert(self@[j] == v0[j]);
                        }
                    }
                }
                true
            },
            None => {
                self.entries.push(PeerRecord { peer: who, state });
                proof {
                    assert(self@ =~= v0.push((who, sv)));
                    assert(peer_ids(self@) =~= peer_ids(v0).push(who));
                    let ids = peer_ids(self@);
                    assert forall|a: int, b: int|
                        0 <= a < ids.len() && 0 <= b < ids.len() && a != b implies ids[a]
                        != ids[b] by {
                        if a == ids.len() - 1 {
                            if ids[b] == who {
                                assert(peer_ids(v0)[b] == who);
                                assert(peer_ids(v0).contains(who));
                            }
                        } else if b == ids.len() - 1 {
                            if ids[a] == who {
                                assert(peer_ids(v0)[a] == who);
                                assert(peer_ids(v0).contains(who));
                            }
                        }
                    }
                    assert(ids.no_duplicates());
                }
                false
            },
        }
    }

    /// Remove the record for `who`, if present.
    pub fn remove(&mut self, who: PeerId) -> (was_present: bool)
        requires
            old(self).wf(),
        ensures
            final(self).wf(),
            was_present == peer_ids(old(self)@).contains(who),
            !was_present ==> final(self)@ == old(self)@,
            was_present ==> final(self)@ == old(self)@.remove(peer_idx(old(self)@, who)),
    {
        let ghost v0 = self@;
        let idx = self.index_of(who);
        match idx {
            Some(i) => {
                self.entries.remove(i);
                proof {
                    assert(self@ =~= v0.remove(i as int));
                    let ids = peer_ids(self@);
                    let ids0 = peer_ids(v0);
                    assert(ids =~= ids0.remove(i as int));
                    assert forall|a: int, b: int|
                        0 <= a < ids.len() && 0 <= b < ids.len() && a != b implies ids[a]
                        != ids[b] by {
                        let a0 = if a < i { a } else { a + 1 };
                        let b0 = if b < i { b } else { b + 1 };
                        assert(ids[a] == ids0[a0]);
                        assert(ids[b] == ids0[b0]);
                    }
                    assert forall|j: int|
                        0 <= j < self@.len() implies (#[trigger] self@[j]).1.known.no_duplicates()
                        && self@[j].1.known.len() <= self@[j].1.known_capacity
                        && self@[j].1.known_capacity > 0 by {
                        let j0 = if j < i { j } else { j + 1 };
                        assert(self@[j] == v0[j0]);
                    }
                }
                true
            },
            None => false,
        }
    }

    /// The identifier of the record at index `i`.
    pub fn id_at(&self, i: usize) -> (r: PeerId)
        requires
            i < self@.len(),
        ensures
            r == self@[i as int].0,
    {
        self.entries[i].peer
    }

    /// The role of the record at index `i`.
    pub fn role_at(&self, i: usize) -> (r: Role)
        requires
            i < self@.len(),
        ensures
            r == self@[i as int].1.role,
    {
        self.entries[i].state.role
    }

    /// Insert `h` into the known-statement set of the record at index `i`.
    ///
    /// Returns `true` iff `h` was newly added for that peer.
    pub fn insert_known(&mut self, i: usize, h: StatementHash) -> (newly: bool)
        requires
            old(self).wf(),
            i < old(self)@.len(),
        ensures
            final(self).wf(),
            newly == !old(self)@[i as int].1.known.contains(h),
            final(self)@ == old(self)@.update(
                i as int,
                (
                    old(self)@[i as int].0,
                    PeerView {
                        known: lru_insert(
                            old(self)@[i as int].1.known,
                            h,
                            old(self)@[i as int].1.known_capacity as int,
                        ),
                        known_capacity: old(self)@[i as int].1.known_capacity,
                        role: old(self)@[i as int].1.role,
                    },
                ),
            ),
            peer_ids(final(self)@) == peer_ids(old(self)@),
    {
        let ghost v0 = self@;
        let newly = self.entries[i].state.known_statements.insert(h);
        proof {
            assert(self@ =~= v0.update(i as int, (v0[i as int].0, self@[i as int].1)));
            assert(self@[i as int].1 =~= PeerView {
                known: lru_insert(v0[i as int].1.known, h, v0[i as int].1.known_capacity as int),
                known_capacity: v0[i as int].1.known_capacity,
                role: v0[i as int].1.role,
            });
            assert(peer_ids(self@) =~= peer_ids(v0));
            assert forall|j: int|
                0 <= j < self@.len() implies (#[trigger] self@[j]).1.known.no_duplicates()
                && self@[j].1.known.len() <= self@[j].1.known_capacity && self@[j].1.known_capacity
                > 0 by {
                if j != i {
                    assert(self@[j] == v0[j]);
                }
            }
        }
        newly
    }

    /// Whether the known-statement set at index `i` contains `h`.
    pub fn known_at(&self, i: usize, h: StatementHash) -> (r: bool)
        requires
            i < self@.len(),
        ensures
            r == self@[i as int].1.known.contains(h),
    {
        self.entries[i].state.known_statements.contains(h)
    }
}

} // verus!
