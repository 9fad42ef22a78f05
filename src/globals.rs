use vstd::prelude::*;
use vstd::string::*;
use crate::federation_time::FederationHandleTimes;
use crate::patterns::{texts, PatternSet};
use crate::ratelimit::{KeyView, RateLimitState, RateLimiter};
use crate::room_mutex::{LockKey, RoomMutexRegistry};
use crate::rotation::RotationHandler;
use crate::signing_keys::{
    key_texts, keys_of, lists, merged, own_key_id, KeyStore, Keypair, ServerSigningKeys, VerifyKey,
};
use crate::sync_handles::{DeviceKey, SyncRegistry};

verus! {

/// The settings that the coordination core reads.
pub struct Config {
    /// This server's own name.
    pub server_name: String,
    /// Patterns of alias localparts that no one may create.
    pub forbidden_alias_names: PatternSet,
    /// Whether experimental room versions may be used.
    pub allow_unstable_room_versions: bool,
    /// The room version of new rooms.
    pub default_room_version: String,
}

/// Process-wide state of this server: built once at startup and shared
/// with the request handlers.
pub struct Service {
    pub config: Config,
    pub keypair: Keypair,
    pub signing_keys: KeyStore,
    pub stable_room_versions: Vec<String>,
    pub unstable_room_versions: Vec<String>,
    /// Failures of events, signatures, servers and queries.
    pub ratelimiter: RateLimiter,
    /// Per-room locks of every kind.
    pub room_mutexes: RoomMutexRegistry,
    /// The latest long-poll computation of each device.
    pub sync_receivers: SyncRegistry,
    /// The federation event each room is handling, and since when.
    pub roomid_federationhandletime: FederationHandleTimes,
    pub rotate: RotationHandler,
    pub shutdown: bool,
}

/// The room version that new rooms use when the configured one is not supported.
pub open spec fn fallback_room_version() -> Seq<char> {
    "10"@
}

fn versions(from: u8, to: u8) -> (r: Vec<String>)
    requires
        from <= to <= 11,
    ensures
        r@.len() == to - from + 1,
{
    let mut r: Vec<String> = Vec::new();
    let mut v: u8 = from;
    while v <= to
        invariant
            from <= v <= to + 1,
            to <= 11,
            r@.len() == v - from,
        decreases to + 1 - v,
    {
        r.push(version_name(v));
        v = v + 1;
    }
    r
}

fn version_name(v: u8) -> (r: String)
    requires
        v <= 11,
{
    let s = match v {
        0 => "0",
        1 => "1",
        2 => "2",
        3 => "3",
        4 => "4",
        5 => "5",
        6 => "6",
        7 => "7",
        8 => "8",
        9 => "9",
        10 => "10",
        _ => "11",
    };
    s.to_owned()
}

fn contains_text(v: &Vec<String>, s: &String) -> (r: bool)
    ensures
        r == texts(v@).contains(s@),
{
    let mut i: usize = 0;
    while i < v.len()
        invariant
            i <= v@.len(),
            forall|j: int| 0 <= j < i ==> v@[j]@ != s@,
        decreases v.len() - i,
    {
        if v[i] == *s {
            assert(texts(v@)[i as int] == s@);
            return true;
        }
        i = i + 1;
    }
    false
}

/// Whether one of the first `n` keys of `s` has the id `id`.
pub open spec fn has_id(s: Seq<(String, VerifyKey)>, n: int, id: Seq<char>) -> bool {
    exists|j: int| 0 <= j < n && s[j].0@ == id
}

impl Service {
    pub open spec fn keys(&self) -> Map<(Seq<char>, Seq<char>), Seq<u8>> {
        self.signing_keys.view()
    }

    pub open spec fn own_key(&self) -> (Seq<char>, Seq<u8>) {
        (own_key_id(self.keypair.version@), self.keypair.public_key@)
    }

    pub open spec fn wf(&self) -> bool {
        &&& self.signing_keys.wf()
        &&& self.ratelimiter.wf()
        &&& self.room_mutexes.wf()
        &&& self.sync_receivers.wf()
        &&& self.roomid_federationhandletime.wf()
    }

    /// The room versions that may be used: the stable ones, then the
    /// unstable ones where the settings allow them.
    pub open spec fn supported(&self) -> Seq<Seq<char>> {
        texts(self.stable_room_versions@) + if self.config.allow_unstable_room_versions {
            texts(self.unstable_room_versions@)
        } else {
            Seq::empty()
        }
    }

    /// Builds the server's state from its settings and its own keypair,
    /// falling back to the default room version where the configured one is
    /// not supported.
    pub fn load(config: Config, keypair: Keypair) -> (r: Service)
        ensures
            r.wf(),
            r.config.server_name == config.server_name,
            r.config.allow_unstable_room_versions == config.allow_unstable_room_versions,
            r.config.forbidden_alias_names == config.forbidden_alias_names,
            r.config.default_room_version@ == (if r.supported().contains(config.default_room_version@) {
                config.default_room_version@
            } else {
                fallback_room_version()
            }),
            r.own_key() == (own_key_id(keypair.version@), keypair.public_key@),
            r.keys() == Map::<(Seq<char>, Seq<char>), Seq<u8>>::empty(),
            r.ratelimiter.view() == Map::<KeyView, RateLimitState>::empty(),
            r.room_mutexes.view() == Set::<LockKey>::empty(),
            r.sync_receivers.view() == Map::<DeviceKey, (Option<Seq<char>>, u64)>::empty(),
            r.roomid_federationhandletime.view() == Map::<Seq<char>, (Seq<char>, u64)>::empty(),
            r.rotate.generation() == 0,
            r.stable_room_versions@.len() == 6,
            r.unstable_room_versions@.len() == 4,
            !r.shutdown,
    {
        let mut s = Service {
            config,
            keypair,
            signing_keys: KeyStore::new(),
            stable_room_versions: versions(6, 11),
            unstable_room_versions: versions(2, 5),
            ratelimiter: RateLimiter::new(),
            room_mutexes: RoomMutexRegistry::new(),
            sync_receivers: SyncRegistry::new(),
            roomid_federationhandletime: FederationHandleTimes::new(),
            rotate: RotationHandler::new(),
            shutdown: false,
        };
        let supported = s.supported_room_versions();
        if !contains_text(&supported, &s.config.default_room_version) {
            proof {
                reveal_strlit("10");
            }
            s.config.default_room_version = "10".to_owned();
        }
        s
    }

    /// This server's keypair.
    pub fn keypair(&self) -> (r: &Keypair)
        ensures
            (own_key_id(r.version@), r.public_key@) == self.own_key(),
    {
        &self.keypair
    }

    pub fn server_name(&self) -> (r: &String)
        ensures
            r@ == self.config.server_name@,
    {
        &self.config.server_name
    }

    pub fn forbidden_alias_names(&self) -> (r: &PatternSet)
        ensures
            r == &self.config.forbidden_alias_names,
    {
        &self.config.forbidden_alias_names
    }

    pub fn allow_unstable_room_versions(&self) -> (r: bool)
        ensures
            r == self.config.allow_unstable_room_versions,
    {
        self.config.allow_unstable_room_versions
    }

    pub fn default_room_version(&self) -> (r: String)
        ensures
            r@ == self.config.default_room_version@,
    {
        self.config.default_room_version.clone()
    }

    pub fn supported_room_versions(&self) -> (r: Vec<String>)
        ensures
            texts(r@) == self.supported(),
    {
        let mut room_versions: Vec<String> = Vec::new();
        let mut i: usize = 0;
        while i < self.stable_room_versions.len()
            invariant
                i <= self.stable_room_versions@.len(),
                texts(room_versions@) == texts(self.stable_room_versions@.subrange(0, i as int)),
            decreases self.stable_room_versions.len() - i,
        {
            room_versions.push(self.stable_room_versions[i].clone());
            assert(texts(self.stable_room_versions@.subrange(0, i + 1)) =~= texts(
                self.stable_room_versions@.subrange(0, i as int),
            ).push(self.stable_room_versions@[i as int]@));
            i = i + 1;
        }
        assert(self.stable_room_versions@.subrange(0, i as int) =~= self.stable_room_versions@);
        if self.allow_unstable_room_versions() {
            let ghost base = texts(room_versions@);
            let mut j: usize = 0;
            while j < self.unstable_room_versions.len()
                invariant
                    j <= self.unstable_room_versions@.len(),
                    texts(room_versions@) == base + texts(self.unstable_room_versions@.subrange(0, j as int)),
                decreases self.unstable_room_versions.len() - j,
            {
                let ghost prev = room_versions@;
                room_versions.push(self.unstable_room_versions[j].clone());
                assert(texts(room_versions@) =~= texts(prev).push(self.unstable_room_versions@[j as int]@));
                assert(texts(self.unstable_room_versions@.subrange(0, j + 1)) =~= texts(
                    self.unstable_room_versions@.subrange(0, j as int),
                ).push(self.unstable_room_versions@[j as int]@));
                assert(texts(room_versions@) =~= base + texts(self.unstable_room_versions@.subrange(0, j + 1)));
                j = j + 1;
            }
            assert(self.unstable_room_versions@.subrange(0, j as int) =~= self.unstable_room_versions@);
        } else {
            assert(texts(room_versions@) =~= self.supported());
        }
        room_versions
    }

    /// Stores the keys that `origin` published, current and retired, over
    /// those stored before (without checking that they are newer), and
    /// returns every key now stored for `origin`.
    pub fn add_signing_key(&mut self, origin: &String, new_keys: &ServerSigningKeys) -> (r: Vec<(String, VerifyKey)>)
        requires
            old(self).wf(),
        ensures
            final(self).wf(),
            final(self).keys() == merged(
                merged(old(self).keys(), origin@, key_texts(new_keys.verify_keys@)),
                origin@,
                key_texts(new_keys.old_verify_keys@),
            ),
            lists(key_texts(r@), keys_of(final(self).keys(), origin@)),
            final(self).own_key() == old(self).own_key(),
            final(self).config == old(self).config,
    {
        self.signing_keys.add_keys(origin, &new_keys.verify_keys);
        self.signing_keys.add_keys(origin, &new_keys.old_verify_keys);
        self.signing_keys.stored_keys_for(origin)
    }

    /// The keys known for `origin`, by key id; none is no error. For this
    /// server itself its live public key is always among them, over any
    /// stored key of the same id.
    pub fn signing_keys_for(&self, origin: &String) -> (r: Vec<(String, VerifyKey)>)
        requires
            self.wf(),
        ensures
            lists(
                key_texts(r@),
                if origin@ == self.config.server_name@ {
                    keys_of(self.keys(), origin@).insert(self.own_key().0, self.own_key().1)
                } else {
                    keys_of(self.keys(), origin@)
                },
            ),
    {
        let stored = self.signing_keys.stored_keys_for(origin);
        if !(*origin == self.config.server_name) {
            return stored;
        }
        let mut id = "ed25519:".to_owned();
        id.append(self.keypair.version.as_str());
        let ghost km = keys_of(self.keys(), origin@);
        let ghost want = km.insert(id@, self.keypair.public_key@);
        let mut out: Vec<(String, VerifyKey)> = Vec::new();
        let mut i: usize = 0;
        while i < stored.len()
            invariant
                i <= stored@.len(),
                lists(key_texts(stored@), km),
                forall|a: int, b: int| 0 <= a < b < out@.len() ==> out@[a].0@ != out@[b].0@,
                forall|a: int| 0 <= a < out@.len() ==> out@[a].0@ != id@,
                forall|a: int| 0 <= a < out@.len() ==> #[trigger] km.contains_key(out@[a].0@) && km[out@[a].0@] == out@[a].1.key@,
                forall|j: int| 0 <= j < i && stored@[j].0@ != id@ ==> has_id(out@, out@.len() as int, #[trigger] stored@[j].0@),
                forall|a: int| 0 <= a < out@.len() ==> has_id(stored@, i as int, #[trigger] out@[a].0@),
            decreases stored.len() - i,
        {
            let ghost before = out@;
            assert(key_texts(stored@)[i as int] == (stored@[i as int].0@, stored@[i as int].1.key@));
            assert(km.contains_key(key_texts(stored@)[i as int].0));
            if !(stored[i].0 == id) {
                proof {
                    assert forall|a: int| 0 <= a < before.len() implies before[a].0@ != stored@[i as int].0@ by {
                        assert(has_id(stored@, i as int, before[a].0@));
                        let j = choose|j: int| 0 <= j < i && stored@[j].0@ == before[a].0@;
                        assert(key_texts(stored@)[j].0 != key_texts(stored@)[i as int].0);
                    }
                }
                out.push((stored[i].0.clone(), VerifyKey { key: stored[i].1.key.clone() }));
            }
            proof {
                assert forall|j: int| 0 <= j < i + 1 && stored@[j].0@ != id@ implies has_id(out@, out@.len() as int, #[trigger] stored@[j].0@) by {
                    if j < i {
                        assert(has_id(before, before.len() as int, stored@[j].0@));
                        let a = choose|a: int| 0 <= a < before.len() && before[a].0@ == stored@[j].0@;
                        assert(out@[a] == before[a]);
                    } else {
                        assert(out@[before.len() as int].0@ == stored@[j].0@);
                    }
                }
                assert forall|a: int| 0 <= a < out@.len() implies has_id(stored@, i + 1, #[trigger] out@[a].0@) by {
                    if a < before.len() {
                        assert(out@[a] == before[a]);
                        assert(has_id(stored@, i as int, before[a].0@));
                        let j = choose|j: int| 0 <= j < i && stored@[j].0@ == before[a].0@;
                    } else {
                        assert(stored@[i as int].0@ == out@[a].0@);
                    }
                }
            }
            i = i + 1;
        }
        let ghost before = out@;
        out.push((id, VerifyKey { key: self.keypair.public_key.clone() }));
        proof {
            let t = key_texts(out@);
            assert forall|a: int, b: int| 0 <= a < b < t.len() implies t[a].0 != t[b].0 by {
                assert(t[a].0 == out@[a].0@);
                assert(t[b].0 == out@[b].0@);
            }
            assert forall|a: int| 0 <= a < t.len() implies #[trigger] want.contains_key(t[a].0) && want[t[a].0] == t[a].1 by {
                assert(t[a] == (out@[a].0@, out@[a].1.key@));
                if a < before.len() {
                    assert(out@[a] == before[a]);
                }
            }
            assert forall|k: Seq<char>| #[trigger] want.contains_key(k) implies exists|a: int| 0 <= a < t.len() && t[a].0 == k by {
                if k == id@ {
                    assert(t[before.len() as int].0 == k);
                } else {
                    assert(km.contains_key(k));
                    let j = choose|j: int| 0 <= j < key_texts(stored@).len() && key_texts(stored@)[j].0 == k;
                    assert(stored@[j].0@ == k);
                    assert(has_id(before, before.len() as int, stored@[j].0@));
                    let a = choose|a: int| 0 <= a < before.len() && before[a].0@ == stored@[j].0@;
                    assert(t[a].0 == out@[a].0@);
                }
            }
        }
        out
    }

    /// Marks the server as shutting down and wakes every long-poll waiter.
    pub fn shutdown(&mut self)
        ensures
            final(self).shutdown,
            final(self).rotate.generation() == crate::rotation::next_generation(old(self).rotate.generation()),
    {
        self.shutdown = true;
        self.rotate.fire();
    }
}

} // verus!
