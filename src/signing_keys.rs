use vstd::prelude::*;

verus! {

/// A key's place in the store: its server and its key id.
pub type KeySlot = (Seq<char>, Seq<char>);

/// A public key that verifies a server's signatures.
pub struct VerifyKey {
    pub key: Vec<u8>,
}

/// Keys that a server published: the current ones and those it retired.
pub struct ServerSigningKeys {
    pub server_name: String,
    pub verify_keys: Vec<(String, VerifyKey)>,
    pub old_verify_keys: Vec<(String, VerifyKey)>,
}

/// This server's own signing identity.
pub struct Keypair {
    pub version: String,
    pub public_key: Vec<u8>,
}

/// The keys in `keys` as `(key id, key bytes)` texts.
pub open spec fn key_texts(keys: Seq<(String, VerifyKey)>) -> Seq<(Seq<char>, Seq<u8>)> {
    keys.map_values(|k: (String, VerifyKey)| (k.0@, k.1.key@))
}

/// The store after writing each of `keys` for `origin`, in order.
pub open spec fn merged(
    m: Map<KeySlot, Seq<u8>>,
    origin: Seq<char>,
    keys: Seq<(Seq<char>, Seq<u8>)>,
) -> Map<KeySlot, Seq<u8>>
    decreases keys.len(),
{
    if keys.len() == 0 {
        m
    } else {
        merged(m, origin, keys.drop_last()).insert((origin, keys.last().0), keys.last().1)
    }
}

/// The keys of `origin` in the store `m`, by key id.
pub open spec fn keys_of(m: Map<KeySlot, Seq<u8>>, origin: Seq<char>) -> Map<Seq<char>, Seq<u8>> {
    Map::new(|id: Seq<char>| m.contains_key((origin, id)), |id: Seq<char>| m[(origin, id)])
}

/// Whether the list `r` holds the map `keys`: each key id once, with its key.
pub open spec fn lists(r: Seq<(Seq<char>, Seq<u8>)>, keys: Map<Seq<char>, Seq<u8>>) -> bool {
    &&& forall|i: int, j: int| 0 <= i < j < r.len() ==> r[i].0 != r[j].0
    &&& forall|i: int| 0 <= i < r.len() ==> #[trigger] keys.contains_key(r[i].0) && keys[r[i].0] == r[i].1
    &&& forall|id: Seq<char>| #[trigger] keys.contains_key(id) ==> exists|i: int| 0 <= i < r.len() && r[i].0 == id
}

/// The id of this server's key of version `version`.
pub open spec fn own_key_id(version: Seq<char>) -> Seq<char> {
    "ed25519:"@ + version
}

/// Whether some of the first `n` entries stores `k` for `origin`.
pub open spec fn backed(entries: Seq<(String, String, Vec<u8>)>, n: int, origin: Seq<char>, k: (String, VerifyKey)) -> bool {
    exists|j: int| 0 <= j < n && KeyStore::slot_of(entries[j]) == (origin, k.0@) && entries[j].2@ == k.1.key@
}

/// Verification keys of other servers, by server and key id.
pub struct KeyStore {
    entries: Vec<(String, String, Vec<u8>)>,
    model: Ghost<Map<KeySlot, Seq<u8>>>,
}

impl KeyStore {
    pub closed spec fn view(&self) -> Map<KeySlot, Seq<u8>> {
        self.model@
    }

    pub open spec fn slot_of(e: (String, String, Vec<u8>)) -> KeySlot {
        (e.0@, e.1@)
    }

    pub closed spec fn wf(&self) -> bool {
        &&& forall|i: int, j: int|
            0 <= i < j < self.entries@.len() ==> Self::slot_of(self.entries@[i]) != Self::slot_of(self.entries@[j])
        &&& forall|i: int|
            0 <= i < self.entries@.len() ==> #[trigger] self.model@.contains_key(Self::slot_of(self.entries@[i]))
                && self.model@[Self::slot_of(self.entries@[i])] == self.entries@[i].2@
        &&& forall|k: KeySlot|
            #[trigger] self.model@.contains_key(k) ==> exists|i: int|
                0 <= i < self.entries@.len() && Self::slot_of(self.entries@[i]) == k
    }

    pub fn new() -> (r: Self)
        ensures
            r.wf(),
            r.view() == Map::<KeySlot, Seq<u8>>::empty(),
    {
        KeyStore { entries: Vec::new(), model: Ghost(Map::empty()) }
    }

    fn position(&self, origin: &String, id: &String) -> (r: Option<usize>)
        requires
            self.wf(),
        ensures
            match r {
                Some(i) => i < self.entries@.len() && Self::slot_of(self.entries@[i as int]) == (origin@, id@),
                None => !self.view().contains_key((origin@, id@)),
            },
    {
        let mut i: usize = 0;
        while i < self.entries.len()
            invariant
                i <= self.entries@.len(),
                forall|j: int| 0 <= j < i ==> Self::slot_of(self.entries@[j]) != (origin@, id@),
            decreases self.entries.len() - i,
        {
            if self.entries[i].0 == *origin && self.entries[i].1 == *id {
                return Some(i);
            }
            i = i + 1;
        }
        None
    }

    fn put(&mut self, origin: &String, id: &String, key: &Vec<u8>)
        requires
            old(self).wf(),
        ensures
            final(self).wf(),
            final(self).view() == old(self).view().insert((origin@, id@), key@),
    {
        let ghost slot = (origin@, id@);
        let ghost m = self.model@.insert(slot, key@);
        let ghost before = self.entries@;
        match self.position(origin, id) {
            Some(i) => {
                self.entries.set(i, (origin.clone(), id.clone(), key.clone()));
                self.model = Ghost(m);
                proof {
                    assert forall|k: KeySlot| #[trigger] m.contains_key(k) implies exists|j: int|
                        0 <= j < self.entries@.len() && Self::slot_of(self.entries@[j]) == k by {
                        if k != slot {
                            let j = choose|j: int| 0 <= j < before.len() && Self::slot_of(before[j]) == k;
                            assert(Self::slot_of(self.entries@[j]) == k);
                        } else {
                            assert(Self::slot_of(self.entries@[i as int]) == k);
                        }
                    }
                    assert forall|j: int| 0 <= j < self.entries@.len() implies #[trigger] m.contains_key(
                        Self::slot_of(self.entries@[j]),
                    ) && m[Self::slot_of(self.entries@[j])] == self.entries@[j].2@ by {
                        if j != i {
                            assert(self.entries@[j] == before[j]);
                            assert(old(self).model@.contains_key(Self::slot_of(before[j])));
                        }
                    }
                    assert forall|a: int, b: int| 0 <= a < b < self.entries@.len() implies Self::slot_of(self.entries@[a])
                        != Self::slot_of(self.entries@[b]) by {
                        assert(Self::slot_of(before[a]) != Self::slot_of(before[b]));
                    }
                }
            },
            None => {
                self.entries.push((origin.clone(), id.clone(), key.clone()));
                self.model = Ghost(m);
                proof {
                    assert forall|k: KeySlot| #[trigger] m.contains_key(k) implies exists|j: int|
                        0 <= j < self.entries@.len() && Self::slot_of(self.entries@[j]) == k by {
                        if k != slot {
                            let j = choose|j: int| 0 <= j < before.len() && Self::slot_of(before[j]) == k;
                            assert(Self::slot_of(self.entries@[j]) == k);
                        } else {
                            assert(Self::slot_of(self.entries@[before.len() as int]) == k);
                        }
                    }
                    assert forall|a: int, b: int| 0 <= a < b < self.entries@.len() implies Self::slot_of(self.entries@[a])
                        != Self::slot_of(self.entries@[b]) by {
                        if b == before.len() {
                            assert(old(self).model@.contains_key(Self::slot_of(before[a])));
                        }
                    }
                }
            },
        }
    }

    /// The keys stored for `origin`, each key id once.
    pub fn stored_keys_for(&self, origin: &String) -> (r: Vec<(String, VerifyKey)>)
        requires
            self.wf(),
        ensures
            lists(key_texts(r@), keys_of(self.view(), origin@)),
    {
        let mut out: Vec<(String, VerifyKey)> = Vec::new();
        let mut i: usize = 0;
        while i < self.entries.len()
            invariant
                self.wf(),
                i <= self.entries@.len(),
                forall|a: int, b: int| 0 <= a < b < out@.len() ==> out@[a].0@ != out@[b].0@,
                forall|a: int| 0 <= a < out@.len() ==> backed(self.entries@, i as int, origin@, #[trigger] out@[a]),
                forall|j: int| 0 <= j < i && self.entries@[j].0@ == origin@ ==> exists|a: int| 0 <= a < out@.len() && #[trigger] out@[a].0@ == self.entries@[j].1@,
            decreases self.entries.len() - i,
        {
            if self.entries[i].0 == *origin {
                let ghost before = out@;
                proof {
                    assert forall|a: int| 0 <= a < before.len() implies before[a].0@ != self.entries@[i as int].1@ by {
                        assert(backed(self.entries@, i as int, origin@, before[a]));
                        let j = choose|j: int| 0 <= j < i && Self::slot_of(self.entries@[j]) == (origin@, before[a].0@) && self.entries@[j].2@ == before[a].1.key@;
                        assert(Self::slot_of(self.entries@[j]) != Self::slot_of(self.entries@[i as int]));
                    }
                }
                out.push((self.entries[i].1.clone(), VerifyKey { key: self.entries[i].2.clone() }));
                proof {
                    assert forall|a: int| 0 <= a < out@.len() implies backed(self.entries@, i + 1, origin@, #[trigger] out@[a]) by {
                        if a < before.len() {
                            assert(out@[a] == before[a]);
                            assert(backed(self.entries@, i as int, origin@, before[a]));
                        } else {
                            assert(Self::slot_of(self.entries@[i as int]) == (origin@, out@[a].0@));
                        }
                    }
                    assert forall|j: int| 0 <= j < i + 1 && self.entries@[j].0@ == origin@ implies exists|a: int| 0 <= a < out@.len() && #[trigger] out@[a].0@ == self.entries@[j].1@ by {
                        if j < i {
                            let a = choose|a: int| 0 <= a < before.len() && #[trigger] before[a].0@ == self.entries@[j].1@;
                            assert(out@[a] == before[a]);
                        } else {
                            assert(out@[before.len() as int].0@ == self.entries@[j].1@);
                        }
                    }
                }
            }
            i = i + 1;
        }
        proof {
            let t = key_texts(out@);
            let km = keys_of(self.view(), origin@);
            assert forall|a: int| 0 <= a < t.len() implies #[trigger] km.contains_key(t[a].0) && km[t[a].0] == t[a].1 by {
                assert(backed(self.entries@, self.entries@.len() as int, origin@, out@[a]));
                let j = choose|j: int| 0 <= j < self.entries@.len() && Self::slot_of(self.entries@[j]) == (origin@, out@[a].0@) && self.entries@[j].2@ == out@[a].1.key@;
                assert(self.model@.contains_key(Self::slot_of(self.entries@[j])));
            }
            assert forall|id: Seq<char>| #[trigger] km.contains_key(id) implies exists|a: int| 0 <= a < t.len() && t[a].0 == id by {
                assert(self.model@.contains_key((origin@, id)));
                let j = choose|j: int| 0 <= j < self.entries@.len() && Self::slot_of(self.entries@[j]) == (origin@, id);
                let a = choose|a: int| 0 <= a < out@.len() && #[trigger] out@[a].0@ == self.entries@[j].1@;
                assert(t[a].0 == id);
            }
        }
        out
    }

    /// Stores each of `keys` for `origin`, replacing keys of the same id; it
    /// does not check that they are newer than what was stored.
    pub fn add_keys(&mut self, origin: &String, keys: &Vec<(String, VerifyKey)>)
        requires
            old(self).wf(),
        ensures
            final(self).wf(),
            final(self).view() == merged(old(self).view(), origin@, key_texts(keys@)),
    {
        let mut i: usize = 0;
        while i < keys.len()
            invariant
                i <= keys@.len(),
                self.wf(),
                self.view() == merged(old(self).view(), origin@, key_texts(keys@.subrange(0, i as int))),
            decreases keys.len() - i,
        {
            self.put(origin, &keys[i].0, &keys[i].1.key);
            proof {
                let pre = key_texts(keys@.subrange(0, i as int));
                let post = key_texts(keys@.subrange(0, i + 1));
                assert(post.drop_last() =~= pre);
                assert(post.last() == (keys@[i as int].0@, keys@[i as int].1.key@));
            }
            i = i + 1;
        }
        assert(keys@.subrange(0, keys@.len() as int) =~= keys@);
    }
}

} // verus!
