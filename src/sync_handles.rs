use vstd::prelude::*;

verus! {

/// A device: its user and its device id.
pub type DeviceKey = (Seq<char>, Seq<char>);

/// The latest computation of one device, and the cursor it serves.
pub struct SyncEntry {
    pub user: String,
    pub device: String,
    pub since: Option<String>,
    pub producer: u64,
}

/// What a long-poll request does.
#[derive(PartialEq, Eq, Structural, Clone, Copy, Debug)]
pub enum SyncAttach {
    /// Receive the result of this computation, already under way for the same cursor.
    Attach(u64),
    /// Start this new computation; it replaces any earlier one of the device.
    Start(u64),
}

/// The text of an optional cursor.
pub open spec fn cursor(c: Option<String>) -> Option<Seq<char>> {
    match c {
        Some(s) => Some(s@),
        None => None,
    }
}

/// What a poll from `key` with `since` does, given the registry `m`.
pub open spec fn poll_outcome(m: Map<DeviceKey, (Option<Seq<char>>, u64)>, key: DeviceKey, since: Option<Seq<char>>, fresh: u64) -> SyncAttach {
    if m.contains_key(key) && m[key].0 == since {
        SyncAttach::Attach(m[key].1)
    } else {
        SyncAttach::Start(fresh)
    }
}

/// The registry after that poll.
pub open spec fn after_poll(m: Map<DeviceKey, (Option<Seq<char>>, u64)>, key: DeviceKey, since: Option<Seq<char>>, fresh: u64) -> Map<DeviceKey, (Option<Seq<char>>, u64)> {
    if m.contains_key(key) && m[key].0 == since {
        m
    } else {
        m.insert(key, (since, fresh))
    }
}

/// Per device, the latest long-poll computation and the cursor it serves.
/// At most one computation runs per device and cursor: duplicate requests
/// attach to it.
pub struct SyncRegistry {
    entries: Vec<SyncEntry>,
    model: Ghost<Map<DeviceKey, (Option<Seq<char>>, u64)>>,
}

impl SyncRegistry {
    pub closed spec fn view(&self) -> Map<DeviceKey, (Option<Seq<char>>, u64)> {
        self.model@
    }

    pub open spec fn key_of(e: SyncEntry) -> DeviceKey {
        (e.user@, e.device@)
    }

    pub closed spec fn wf(&self) -> bool {
        &&& forall|i: int, j: int|
            0 <= i < j < self.entries@.len() ==> Self::key_of(self.entries@[i]) != Self::key_of(self.entries@[j])
        &&& forall|i: int|
            0 <= i < self.entries@.len() ==> #[trigger] self.model@.contains_key(Self::key_of(self.entries@[i]))
                && self.model@[Self::key_of(self.entries@[i])] == (
                cursor(self.entries@[i].since),
                self.entries@[i].producer,
            )
        &&& forall|k: DeviceKey|
            #[trigger] self.model@.contains_key(k) ==> exists|i: int|
                0 <= i < self.entries@.len() && Self::key_of(self.entries@[i]) == k
    }

    pub fn new() -> (r: Self)
        ensures
            r.wf(),
            r.view() == Map::<DeviceKey, (Option<Seq<char>>, u64)>::empty(),
    {
        SyncRegistry { entries: Vec::new(), model: Ghost(Map::empty()) }
    }

    fn position(&self, user: &String, device: &String) -> (r: Option<usize>)
        requires
            self.wf(),
        ensures
            match r {
                Some(i) => i < self.entries@.len() && Self::key_of(self.entries@[i as int]) == (user@, device@),
                None => !self.view().contains_key((user@, device@)),
            },
    {
        let mut i: usize = 0;
        while i < self.entries.len()
            invariant
                i <= self.entries@.len(),
                forall|j: int| 0 <= j < i ==> Self::key_of(self.entries@[j]) != (user@, device@),
            decreases self.entries.len() - i,
        {
            if self.entries[i].user == *user && self.entries[i].device == *device {
                return Some(i);
            }
            i = i + 1;
        }
        None
    }

    /// Registers a long poll of `(user, device)` from cursor `since`: if the
    /// device's latest computation serves the same cursor, the request
    /// attaches to it; otherwise computation `fresh` starts and replaces it.
    pub fn get_or_create(&mut self, user: &String, device: &String, since: Option<String>, fresh: u64) -> (r: SyncAttach)
        requires
            old(self).wf(),
        ensures
            final(self).wf(),
            r == poll_outcome(old(self).view(), (user@, device@), cursor(since), fresh),
            final(self).view() == after_poll(old(self).view(), (user@, device@), cursor(since), fresh),
    {
        let ghost key = (user@, device@);
        let ghost c = cursor(since);
        match self.position(user, device) {
            Some(i) => {
                assert(self.model@.contains_key(Self::key_of(self.entries@[i as int])));
                let same = match (&self.entries[i].since, &since) {
                    (Some(a), Some(b)) => *a == *b,
                    (None, None) => true,
                    _ => false,
                };
                if same {
                    return SyncAttach::Attach(self.entries[i].producer);
                }
                let ghost before = self.entries@;
                let ghost m = self.model@.insert(key, (c, fresh));
                self.entries.set(i, SyncEntry { user: user.clone(), device: device.clone(), since, producer: fresh });
                self.model = Ghost(m);
                proof {
                    assert forall|k: DeviceKey| #[trigger] m.contains_key(k) implies exists|j: int|
                        0 <= j < self.entries@.len() && Self::key_of(self.entries@[j]) == k by {
                        if k != key {
                            let j = choose|j: int| 0 <= j < before.len() && Self::key_of(before[j]) == k;
                            assert(Self::key_of(self.entries@[j]) == k);
                        } else {
                            assert(Self::key_of(self.entries@[i as int]) == k);
                        }
                    }
                    assert forall|j: int| 0 <= j < self.entries@.len() implies #[trigger] m.contains_key(
                        Self::key_of(self.entries@[j]),
                    ) && m[Self::key_of(self.entries@[j])] == (cursor(self.entries@[j].since), self.entries@[j].producer) by {
                        if j != i {
                            assert(self.entries@[j] == before[j]);
                            assert(old(self).model@.contains_key(Self::key_of(before[j])));
                        }
                    }
                    assert forall|a: int, b: int| 0 <= a < b < self.entries@.len() implies Self::key_of(self.entries@[a])
                        != Self::key_of(self.entries@[b]) by {
                        assert(Self::key_of(before[a]) != Self::key_of(before[b]));
                    }
                }
                SyncAttach::Start(fresh)
            },
            None => {
                let ghost before = self.entries@;
                let ghost m = self.model@.insert(key, (c, fresh));
                self.entries.push(SyncEntry { user: user.clone(), device: device.clone(), since, producer: fresh });
                self.model = Ghost(m);
                proof {
                    assert forall|k: DeviceKey| #[trigger] m.contains_key(k) implies exists|j: int|
                        0 <= j < self.entries@.len() && Self::key_of(self.entries@[j]) == k by {
                        if k != key {
                            let j = choose|j: int| 0 <= j < before.len() && Self::key_of(before[j]) == k;
                            assert(Self::key_of(self.entries@[j]) == k);
                        } else {
                            assert(Self::key_of(self.entries@[before.len() as int]) == k);
                        }
                    }
                    assert forall|a: int, b: int| 0 <= a < b < self.entries@.len() implies Self::key_of(self.entries@[a])
                        != Self::key_of(self.entries@[b]) by {
                        if b == before.len() {
                            assert(old(self).model@.contains_key(Self::key_of(before[a])));
                        }
                    }
                }
                SyncAttach::Start(fresh)
            },
        }
    }
}

/// Two polls of one device from the same cursor share one computation: the
/// second attaches to what the first started or attached to.
pub proof fn lemma_duplicate_polls_share(m: Map<DeviceKey, (Option<Seq<char>>, u64)>, key: DeviceKey, since: Option<Seq<char>>, f1: u64, f2: u64)
    ensures
        poll_outcome(after_poll(m, key, since, f1), key, since, f2) == SyncAttach::Attach(
            match poll_outcome(m, key, since, f1) {
                SyncAttach::Attach(p) => p,
                SyncAttach::Start(p) => p,
            },
        ),
{
}

} // verus!
