use vstd::prelude::*;

verus! {

/// The concern that a per-room lock guards.
#[derive(PartialEq, Eq, Structural, Clone, Copy, Debug)]
pub enum RoomMutexKind {
    /// Ordering of event insertion into the room's timeline.
    Insert,
    /// Mutation of the room's current state.
    State,
    /// Handling of incoming federation events; may be held across network calls.
    Federation,
}

/// A lock key: a room identifier together with the concern it guards.
pub type LockKey = (Seq<char>, RoomMutexKind);

/// Proof that the holder owns the exclusive lock on `(room, kind)`.
pub struct RoomMutexGuard {
    room: String,
    kind: RoomMutexKind,
}

impl RoomMutexGuard {
    pub closed spec fn key(&self) -> LockKey {
        (self.room@, self.kind)
    }
}

/// Registry of exclusive per-room locks, one for each `(room, kind)` pair.
///
/// Each pair owns exactly one lock, created on first reference; the registry
/// records which pairs are currently held.
pub struct RoomMutexRegistry {
    held: Vec<(String, RoomMutexKind)>,
}

/// Whether an acquisition of `key` succeeds when the pairs in `held` are taken.
pub open spec fn can_acquire(held: Set<LockKey>, key: LockKey) -> bool {
    !held.contains(key)
}

/// The held pairs after an attempt to acquire `key`.
pub open spec fn after_acquire(held: Set<LockKey>, key: LockKey) -> Set<LockKey> {
    if can_acquire(held, key) {
        held.insert(key)
    } else {
        held
    }
}

/// The held pairs after the holder of `key` releases it.
pub open spec fn after_release(held: Set<LockKey>, key: LockKey) -> Set<LockKey> {
    held.remove(key)
}

impl RoomMutexRegistry {
    pub closed spec fn entries(&self) -> Seq<LockKey> {
        self.held@.map_values(|e: (String, RoomMutexKind)| (e.0@, e.1))
    }

    /// The set of pairs whose lock is currently held.
    pub closed spec fn view(&self) -> Set<LockKey> {
        self.entries().to_set()
    }

    pub closed spec fn wf(&self) -> bool {
        self.entries().no_duplicates()
    }

    pub fn new() -> (r: Self)
        ensures
            r.wf(),
            r.view() == Set::<LockKey>::empty(),
    {
        let r = RoomMutexRegistry { held: Vec::new() };
        assert(r.entries() =~= Seq::<LockKey>::empty());
        r
    }

    fn position(&self, room: &String, kind: RoomMutexKind) -> (r: Option<usize>)
        ensures
            match r {
                Some(i) => i < self.entries().len() && self.entries()[i as int] == (room@, kind),
                None => !self.entries().contains((room@, kind)),
            },
    {
        let mut i: usize = 0;
        while i < self.held.len()
            invariant
                i <= self.held.len(),
                forall|j: int| 0 <= j < i ==> self.entries()[j] != (room@, kind),
            decreases self.held.len() - i,
        {
            if self.held[i].1 == kind && self.held[i].0 == *room {
                return Some(i);
            }
            i = i + 1;
        }
        None
    }

    /// Whether the lock on `(room, kind)` is currently held.
    pub fn is_held(&self, room: &String, kind: RoomMutexKind) -> (r: bool)
        requires
            self.wf(),
        ensures
            r == self.view().contains((room@, kind)),
    {
        self.position(room, kind).is_some()
    }

    /// Attempts to take the lock on `(room, kind)`.
    ///
    /// Succeeds exactly when no one holds that pair; locks of other kinds or
    /// other rooms do not interfere. On failure the caller waits for a
    /// release and tries again.
    pub fn try_acquire(&mut self, room: &String, kind: RoomMutexKind) -> (r: Option<RoomMutexGuard>)
        requires
            old(self).wf(),
        ensures
            final(self).wf(),
            r.is_some() == can_acquire(old(self).view(), (room@, kind)),
            final(self).view() == after_acquire(old(self).view(), (room@, kind)),
            r matches Some(g) ==> g.key() == (room@, kind),
    {
        match self.position(room, kind) {
            Some(_) => None,
            None => {
                let ghost before = self.entries();
                self.held.push((room.clone(), kind));
                proof {
                    assert(self.entries() =~= before.push((room@, kind)));
                    before.lemma_push_to_set_commute((room@, kind));
                }
                Some(RoomMutexGuard { room: room.clone(), kind })
            },
        }
    }

    /// Releases the lock that `guard` stands for.
    pub fn release(&mut self, guard: RoomMutexGuard)
        requires
            old(self).wf(),
        ensures
            final(self).wf(),
            final(self).view() == after_release(old(self).view(), guard.key()),
    {
        match self.position(&guard.room, guard.kind) {
            None => {
                assert(old(self).view() =~= old(self).view().remove(guard.key()));
            },
            Some(i) => {
                let ghost before = self.entries();
                self.held.remove(i);
                proof {
                    assert(self.entries() =~= before.remove(i as int));
                    assert(self.view() =~= before.to_set().remove(guard.key())) by {
                        assert forall|x: LockKey| self.view().contains(x) <==> before.to_set().remove(guard.key()).contains(x) by {
                            if self.view().contains(x) {
                                let k = choose|k: int| 0 <= k < self.entries().len() && self.entries()[k] == x;
                                if k < i { assert(before[k] == x); } else { assert(before[k + 1] == x); }
                            }
                            if before.to_set().remove(guard.key()).contains(x) {
                                let k = choose|k: int| 0 <= k < before.len() && before[k] == x;
                                if k < i { assert(self.entries()[k] == x); }
                                else { assert(k != i); assert(self.entries()[k - 1] == x); }
                            }
                        }
                    }
                }
            },
        }
    }
}

/// While one caller holds `(room, kind)`, every further acquisition of the
/// same pair fails, until that holder releases it; after the release it
/// succeeds again.
pub proof fn lemma_mutual_exclusion(held: Set<LockKey>, key: LockKey)
    requires
        can_acquire(held, key),
    ensures
        !can_acquire(after_acquire(held, key), key),
        can_acquire(after_release(after_acquire(held, key), key), key),
{
}

/// Holding or releasing one kind of lock on a room has no effect on whether
/// a lock of another kind on the same room can be taken.
pub proof fn lemma_kinds_independent(held: Set<LockKey>, room: Seq<char>, k1: RoomMutexKind, k2: RoomMutexKind)
    requires
        k1 != k2,
    ensures
        can_acquire(after_acquire(held, (room, k1)), (room, k2)) == can_acquire(held, (room, k2)),
        can_acquire(after_release(held, (room, k1)), (room, k2)) == can_acquire(held, (room, k2)),
        can_acquire(held, (room, k1)) && can_acquire(held, (room, k2)) ==> can_acquire(
            after_acquire(held, (room, k1)),
            (room, k2),
        ),
{
}

} // verus!
