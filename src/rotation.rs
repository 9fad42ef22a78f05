use vstd::prelude::*;

verus! {

/// Wakes every long-poll waiter so that it re-checks its state and lets go
/// of what it holds ("rotation", as of log files).
///
/// Each firing starts a new generation; a watcher remembers the generation
/// in which it subscribed and completes once a later one has begun. Firing
/// never waits for anyone, and a firing with no watchers leaves nothing
/// behind for watchers that subscribe afterwards.
pub struct RotationHandler {
    generation: u64,
}

/// A subscription to the next rotation.
#[derive(PartialEq, Eq, Structural, Clone, Copy, Debug)]
pub struct RotationWatch {
    since: u64,
}

impl RotationWatch {
    pub closed spec fn since(&self) -> u64 {
        self.since
    }
}

/// The generation after one more firing.
pub open spec fn next_generation(g: u64) -> u64 {
    if g == u64::MAX { 0 } else { (g + 1) as u64 }
}

/// Whether a watcher that subscribed in generation `since` has observed a
/// rotation by generation `now`.
pub open spec fn observed(now: u64, since: u64) -> bool {
    now != since
}

impl RotationHandler {
    pub closed spec fn generation(&self) -> u64 {
        self.generation
    }

    pub fn new() -> (r: Self)
        ensures
            r.generation() == 0,
    {
        RotationHandler { generation: 0 }
    }

    /// Subscribes to the next rotation.
    pub fn watch(&self) -> (w: RotationWatch)
        ensures
            w.since() == self.generation(),
            !observed(self.generation(), w.since()),
    {
        RotationWatch { since: self.generation }
    }

    /// Fires a rotation: every current watcher completes.
    pub fn fire(&mut self)
        ensures
            final(self).generation() == next_generation(old(self).generation()),
    {
        self.generation = self.generation.wrapping_add(1);
    }

    /// Whether `w` has observed a rotation since it subscribed.
    pub fn has_rotated(&self, w: &RotationWatch) -> (r: bool)
        ensures
            r == observed(self.generation(), w.since()),
    {
        self.generation != w.since
    }
}

impl Default for RotationHandler {
    fn default() -> (r: Self)
        ensures
            r.generation() == 0,
    {
        Self::new()
    }
}

/// A firing completes every watcher that was subscribed when it happened,
/// however many there are; a watcher that subscribes after a firing is not
/// completed by it, and only a further firing completes it.
pub proof fn lemma_fire_wakes_all(g: u64, watchers: Seq<u64>, later: u64)
    requires
        forall|i: int| 0 <= i < watchers.len() ==> watchers[i] == g,
        later == next_generation(g),
    ensures
        forall|i: int| 0 <= i < watchers.len() ==> observed(next_generation(g), #[trigger] watchers[i]),
        !observed(next_generation(g), later),
        observed(next_generation(next_generation(g)), later),
{
}

} // verus!
