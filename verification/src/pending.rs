//! In-flight verification bookkeeping.
//!
//! While a statement is being verified, all peers that announced it are
//! grouped under its hash, so that the same statement is never verified more
//! than once concurrently and every announcer is settled when the one
//! verification completes.

use vstd::prelude::*;

use crate::types::{PeerId, StatementHash};

verus! {

/// Outcome of announcing a statement hash for a peer.
#[derive(Clone, Copy, Debug, PartialEq, Eq, Structural)]
pub enum AnnounceOutcome {
    /// No verification of this hash is in flight; the caller must enqueue one
    /// and, only if that succeeds, record the entry with `insert_new`.
    FirstAnnouncer,
    /// A verification is in flight and this peer was newly added to it.
    AdditionalNew,
    /// This very peer had already announced this very hash.
    Duplicate,
}

struct PendingEntry {
    hash: StatementHash,
    peers: Vec<PeerId>,
}

/// Map from statement hash to the set of peers that announced it, for the
/// hashes whose verification is currently in flight.
pub struct PendingStatements {
    entries: Vec<PendingEntry>,
}

/// The hashes of a pending view, in entry order.
pub open spec fn pending_hashes(v: Seq<(StatementHash, Seq<PeerId>)>) -> Seq<StatementHash> {
    v.map_values(|e: (StatementHash, Seq<PeerId>)| e.0)
}

/// Index of the entry for `h`; meaningful only when one exists.
pub open spec fn pending_idx(v: Seq<(StatementHash, Seq<PeerId>)>, h: StatementHash) -> int {
    choose|i: int| 0 <= i < v.len() && v[i].0 == h
}

/// The peers recorded for `h`; meaningful only when an entry exists.
pub open spec fn pending_peers(v: Seq<(StatementHash, Seq<PeerId>)>, h: StatementHash) -> Seq<
    PeerId,
> {
    v[pending_idx(v, h)].1
}

fn peer_list_contains(v: &Vec<PeerId>, who: PeerId) -> (r: bool)
    ensures
        r == v@.contains(who),
{
    let mut i: usize = 0;
    while i < v.len()
        invariant
            i <= v@.len(),
            forall|j: int| 0 <= j < i ==> v@[j] != who,
        decreases v@.len() - i,
    {
        if v[i] == who {
            return true;
        }
        i += 1;
    }
    false
}

impl View for PendingStatements {
    type V = Seq<(StatementHash, Seq<PeerId>)>;

    closed spec fn view(&self) -> Seq<(StatementHash, Seq<PeerId>)> {
        self.entries@.map_values(|e: PendingEntry| (e.hash, e.peers@))
    }
}

impl PendingStatements {
    /// Well-formedness: one entry per hash, and every entry holds at least
    /// one announcer, each recorded once.
    pub open spec fn wf(&self) -> bool {
        &&& pending_hashes(self@).no_duplicates()
        &&& forall|i: int|
            0 <= i < self@.len() ==> (#[trigger] self@[i]).1.len() > 0
                && self@[i].1.no_duplicates()
    }

    /// An empty map.
    pub fn new() -> (r: PendingStatements)
        ensures
            r.wf(),
            r@ == Seq::<(StatementHash, Seq<PeerId>)>::empty(),
    {
        PendingStatements { entries: Vec::new() }
    }

    /// Number of hashes whose verification is in flight.
    pub fn len(&self) -> (r: usize)
        ensures
            r == self@.len(),
    {
        self.entries.len()
    }

    /// Record that `who` announced `h`.
    ///
    /// A `FirstAnnouncer` outcome leaves the map unchanged: the entry is only
    /// created by `insert_new`, after the verification was actually enqueued.
    pub fn announce(&mut self, h: StatementHash, who: PeerId) -> (o: AnnounceOutcome)
        requires
            old(self).wf(),
        ensures
            final(self).wf(),
            (o == AnnounceOutcome::FirstAnnouncer) <==> !pending_hashes(old(self)@).contains(h),
            (o == AnnounceOutcome::Duplicate) <==> (pending_hashes(old(self)@).contains(h)
                && pending_peers(old(self)@, h).contains(who)),
            (o == AnnounceOutcome::AdditionalNew) <==> (pending_hashes(old(self)@).contains(h)
                && !pending_peers(old(self)@, h).contains(who)),
            o != AnnounceOutcome::AdditionalNew ==> final(self)@ == old(self)@,
            o == AnnounceOutcome::AdditionalNew ==> final(self)@ == old(self)@.update(
                pending_idx(old(self)@, h),
                (h, pending_peers(old(self)@, h).push(who)),
            ),
            pending_hashes(final(self)@) == pending_hashes(old(self)@),
    {
        let ghost v0 = self@;
        let n = self.entries.len();
        let mut i: usize = 0;
        while i < n
            invariant
                old(self).wf(),
                self@ == v0,
                old(self)@ == v0,
                n == self.entries@.len(),
                i <= n,
                forall|j: int| 0 <= j < i ==> (#[trigger] self.entries@[j]).hash != h,
            decreases n - i,
        {
            if self.entries[i].hash == h {
                proof {
                    assert(v0[i as int].0 == h);
                    assert(pending_hashes(v0)[i as int] == h);
                    assert(pending_hashes(v0).contains(h));
                    let k = pending_idx(v0, h);
                    assert(pending_hashes(v0)[k] == h);
                    if k != i {
                        assert(false);
                    }
                    assert(pending_peers(v0, h) == v0[i as int].1);
                }
                let dup = peer_list_contains(&self.entries[i].peers, who);
                if dup {
                    return AnnounceOutcome::Duplicate;
                }
                let ghost old_peers = self.entries@[i as int].peers@;
                self.entries[i].peers.push(who);
                proof {
                    assert(self@ =~= v0.update(i as int, (h, old_peers.push(who))));
                    assert(pending_hashes(self@) =~= pending_hashes(v0));
                    assert forall|j: int| 0 <= j < self@.len() implies (#[trigger] self@[j]).1.len()
                        > 0 && self@[j].1.no_duplicates() by {
                        if j == i {
                            let t = old_peers.push(who);
                            assert forall|a: int, b: int|
                                0 <= a < t.len() && 0 <= b < t.len() && a != b implies t[a]
                                != t[b] by {
                                if a == old_peers.len() {
                                    if t[b] == who {
                                        assert(old_peers[b] == who);
                                        assert(old_peers.contains(who));
                                    }
                                } else if b == old_peers.len() {
                                    if t[a] == who {
                                        assert(old_peers[a] == who);
                                        assert(old_peers.contains(who));
                                    }
                                }
                            }
                        } else {
                            assert(self@[j] == v0[j]);
                        }
                    }
                }
                return AnnounceOutcome::AdditionalNew;
            }
            i += 1;
        }
        proof {
            assert(!pending_hashes(v0).contains(h)) by {
                if pending_hashes(v0).contains(h) {
                    let j = choose|j: int|
                        0 <= j < pending_hashes(v0).len() && pending_hashes(v0)[j] == h;
                    assert(self.entries@[j].hash == h);
                }
            }
        }
        AnnounceOutcome::FirstAnnouncer
    }

    /// Create the entry for a hash that had none, seeded with its first
    /// announcer.
    pub fn insert_new(&mut self, h: StatementHash, who: PeerId)
        requires
            old(self).wf(),
            !pending_hashes(old(self)@).contains(h),
        ensures
            final(self).wf(),
            final(self)@ == old(self)@.push((h, seq![who])),
    {
        let ghost v0 = self@;
        let mut first: Vec<PeerId> = Vec::new();
        first.push(who);
        self.entries.push(PendingEntry { hash: h, peers: first });
        proof {
            assert(self@ =~= v0.push((h, seq![who])));
            let hs = pending_hashes(self@);
            assert(hs =~= pending_hashes(v0).push(h));
            assert forall|a: int, b: int|
                0 <= a < hs.len() && 0 <= b < hs.len() && a != b implies hs[a] != hs[b] by {
                if a == hs.len() - 1 {
                    if hs[b] == h {
                        assert(pending_hashes(v0)[b] == h);
                        assert(pending_hashes(v0).contains(h));
                    }
                } else if b == hs.len() - 1 {
                    if hs[a] == h {
                        assert(pending_hashes(v0)[a] == h);
                        assert(pending_hashes(v0).contains(h));
                    }
                }
            }
            assert(hs.no_duplicates());
        }
    }

    /// Remove and return the announcers of `h`, if a verification of `h` was
    /// in flight.
    pub fn take(&mut self, h: StatementHash) -> (r: Option<Vec<PeerId>>)
        requires
            old(self).wf(),
        ensures
            final(self).wf(),
            (r is Some) <==> pending_hashes(old(self)@).contains(h),
            r is None ==> final(self)@ == old(self)@,
            r is Some ==> r.unwrap()@ == pending_peers(old(self)@, h)
                && final(self)@ == old(self)@.remove(pending_idx(old(self)@, h)),
    {
        let ghost v0 = self@;
        let n = self.entries.len();
        let mut i: usize = 0;
        while i < n
            invariant
                old(self).wf(),
                self@ == v0,
                old(self)@ == v0,
                n == self.entries@.len(),
                i <= n,
                forall|j: int| 0 <= j < i ==> (#[trigger] self.entries@[j]).hash != h,
            decreases n - i,
        {
            if self.entries[i].hash == h {
                proof {
                    assert(v0[i as int].0 == h);
                    assert(pending_hashes(v0)[i as int] == h);
                    assert(pending_hashes(v0).contains(h));
                    let k = pending_idx(v0, h);
                    assert(pending_hashes(v0)[k] == h);
                    if k != i {
                        assert(false);
                    }
                }
                let entry = self.entries.remove(i);
                proof {
                    assert(self@ =~= v0.remove(i as int));
                    let hs = pending_hashes(self@);
                    let hs0 = pending_hashes(v0);
                    assert(hs =~= hs0.remove(i as int));
                    assert forall|a: int, b: int|
                        0 <= a < hs.len() && 0 <= b < hs.len() && a != b implies hs[a] != hs[b] by {
                        let a0 = if a < i { a } else { a + 1 };
                        let b0 = if b < i { b } else { b + 1 };
                        assert(hs[a] == hs0[a0]);
                        assert(hs[b] == hs0[b0]);
                    }
                    assert forall|j: int| 0 <= j < self@.len() implies (#[trigger] self@[j]).1.len()
                        > 0 && self@[j].1.no_duplicates() by {
                        let j0 = if j < i { j } else { j + 1 };
                        assert(self@[j] == v0[j0]);
                    }
                }
                return Some(entry.peers);
            }
            i += 1;
        }
        proof {
            assert(!pending_hashes(v0).contains(h)) by {
                if pending_hashes(v0).contains(h) {
                    let j = choose|j: int|
                        0 <= j < pending_hashes(v0).len() && pending_hashes(v0)[j] == h;
                    assert(self.entries@[j].hash == h);
                }
            }
        }
        None
    }
}

} // verus!
