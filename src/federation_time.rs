use vstd::prelude::*;

verus! {

/// Per room, the federation event handled most recently and when its
/// handling began (milliseconds on the caller's monotonic clock), so that
/// stuck handling can be noticed.
pub struct FederationHandleTimes {
    entries: Vec<(String, String, u64)>,
    model: Ghost<Map<Seq<char>, (Seq<char>, u64)>>,
}

impl FederationHandleTimes {
    pub closed spec fn view(&self) -> Map<Seq<char>, (Seq<char>, u64)> {
        self.model@
    }

    pub closed spec fn wf(&self) -> bool {
        &&& forall|i: int, j: int|
            0 <= i < j < self.entries@.len() ==> self.entries@[i].0@ != self.entries@[j].0@
        &&& forall|i: int|
            0 <= i < self.entries@.len() ==> #[trigger] self.model@.contains_key(self.entries@[i].0@)
                && self.model@[self.entries@[i].0@] == (self.entries@[i].1@, self.entries@[i].2)
        &&& forall|k: Seq<char>|
            #[trigger] self.model@.contains_key(k) ==> exists|i: int|
                0 <= i < self.entries@.len() && self.entries@[i].0@ == k
    }

    pub fn new() -> (r: Self)
        ensures
            r.wf(),
            r.view() == Map::<Seq<char>, (Seq<char>, u64)>::empty(),
    {
        FederationHandleTimes { entries: Vec::new(), model: Ghost(Map::empty()) }
    }

    fn position(&self, room: &String) -> (r: Option<usize>)
        requires
            self.wf(),
        ensures
            match r {
                Some(i) => i < self.entries@.len() && self.entries@[i as int].0@ == room@,
                None => !self.view().contains_key(room@),
            },
    {
        let mut i: usize = 0;
        while i < self.entries.len()
            invariant
                i <= self.entries@.len(),
                forall|j: int| 0 <= j < i ==> self.entries@[j].0@ != room@,
            decreases self.entries.len() - i,
        {
            if self.entries[i].0 == *room {
                return Some(i);
            }
            i = i + 1;
        }
        None
    }

    /// The event being handled for `room`, and since when.
    pub fn get(&self, room: &String) -> (r: Option<(String, u64)>)
        requires
            self.wf(),
        ensures
            r is Some <==> self.view().contains_key(room@),
            r matches Some(e) ==> (e.0@, e.1) == self.view()[room@],
    {
        match self.position(room) {
            Some(i) => {
                assert(self.model@.contains_key(self.entries@[i as int].0@));
                Some((self.entries[i].1.clone(), self.entries[i].2))
            },
            None => None,
        }
    }

    /// Records that handling of `event` in `room` began at `now`.
    pub fn insert(&mut self, room: &String, event: &String, now: u64)
        requires
            old(self).wf(),
        ensures
            final(self).wf(),
            final(self).view() == old(self).view().insert(room@, (event@, now)),
    {
        let ghost t = room@;
        let ghost m = self.model@.insert(t, (event@, now));
        let ghost before = self.entries@;
        match self.position(room) {
            Some(i) => {
                self.entries.set(i, (room.clone(), event.clone(), now));
                self.model = Ghost(m);
                proof {
                    assert forall|k: Seq<char>| #[trigger] m.contains_key(k) implies exists|j: int|
                        0 <= j < self.entries@.len() && self.entries@[j].0@ == k by {
                        if k != t {
                            let j = choose|j: int| 0 <= j < before.len() && before[j].0@ == k;
                            assert(self.entries@[j].0@ == k);
                        } else {
                            assert(self.entries@[i as int].0@ == k);
                        }
                    }
                    assert forall|j: int| 0 <= j < self.entries@.len() implies #[trigger] m.contains_key(
                        self.entries@[j].0@,
                    ) && m[self.entries@[j].0@] == (self.entries@[j].1@, self.entries@[j].2) by {
                        if j != i {
                            assert(self.entries@[j] == before[j]);
                            assert(old(self).model@.contains_key(before[j].0@));
                        }
                    }
                    assert forall|a: int, b: int| 0 <= a < b < self.entries@.len() implies self.entries@[a].0@
                        != self.entries@[b].0@ by {
                        assert(before[a].0@ != before[b].0@);
                    }
                }
            },
            None => {
                self.entries.push((room.clone(), event.clone(), now));
                self.model = Ghost(m);
                proof {
                    assert forall|k: Seq<char>| #[trigger] m.contains_key(k) implies exists|j: int|
                        0 <= j < self.entries@.len() && self.entries@[j].0@ == k by {
                        if k != t {
                            let j = choose|j: int| 0 <= j < before.len() && before[j].0@ == k;
                            assert(self.entries@[j].0@ == k);
                        } else {
                            assert(self.entries@[before.len() as int].0@ == k);
                        }
                    }
                    assert forall|a: int, b: int| 0 <= a < b < self.entries@.len() implies self.entries@[a].0@
                        != self.entries@[b].0@ by {
                        if b == before.len() {
                            assert(old(self).model@.contains_key(before[a].0@));
                        }
                    }
                }
            },
        }
    }

    /// Forgets `room`, once its handling has finished.
    pub fn remove(&mut self, room: &String)
        requires
            old(self).wf(),
        ensures
            final(self).wf(),
            final(self).view() == old(self).view().remove(room@),
    {
        let ghost m = self.model@.remove(room@);
        match self.position(room) {
            Some(i) => {
                let ghost before = self.entries@;
                self.entries.remove(i);
                self.model = Ghost(m);
                proof {
                    assert forall|j: int| 0 <= j < self.entries@.len() implies #[trigger] m.contains_key(
                        self.entries@[j].0@,
                    ) && m[self.entries@[j].0@] == (self.entries@[j].1@, self.entries@[j].2) by {
                        let jj = if j < i { j } else { j + 1 };
                        assert(self.entries@[j] == before[jj]);
                        assert(before[jj].0@ != before[i as int].0@);
                        assert(old(self).model@.contains_key(before[jj].0@));
                    }
                    assert forall|k: Seq<char>| #[trigger] m.contains_key(k) implies exists|j: int|
                        0 <= j < self.entries@.len() && self.entries@[j].0@ == k by {
                        let j = choose|j: int| 0 <= j < before.len() && before[j].0@ == k;
                        assert(j != i);
                        if j < i {
                            assert(self.entries@[j].0@ == k);
                        } else {
                            assert(self.entries@[j - 1].0@ == k);
                        }
                    }
                    assert forall|a: int, b: int| 0 <= a < b < self.entries@.len() implies self.entries@[a].0@
                        != self.entries@[b].0@ by {
                        let ia = if a < i { a } else { a + 1 };
                        let ib = if b < i { b } else { b + 1 };
                        assert(self.entries@[a] == before[ia]);
                        assert(self.entries@[b] == before[ib]);
                    }
                }
            },
            None => {
                assert(m =~= self.model@);
            },
        }
    }
}

} // verus!
