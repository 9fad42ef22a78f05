use conduwuit::patterns::PatternSet;
use conduwuit::ratelimit::{wait_after, Backoff, RateLimitKey, RateLimiter};
use conduwuit::room_mutex::{RoomMutexKind, RoomMutexRegistry};
use conduwuit::rotation::RotationHandler;
use conduwuit::ruma_wrapper::RumaResponse;
use conduwuit::servers::rank_servers;
use conduwuit::sync_handles::{SyncAttach, SyncRegistry};

#[test]
fn same_room_and_kind_is_exclusive() {
    let mut reg = RoomMutexRegistry::new();
    let room = "!r:local".to_string();
    let g = reg.try_acquire(&room, RoomMutexKind::State).expect("first acquisition");
    assert!(reg.try_acquire(&room, RoomMutexKind::State).is_none());
    assert!(reg.is_held(&room, RoomMutexKind::State));
    reg.release(g);
    assert!(!reg.is_held(&room, RoomMutexKind::State));
    assert!(reg.try_acquire(&room, RoomMutexKind::State).is_some());
}

#[test]
fn other_kinds_and_rooms_are_independent() {
    let mut reg = RoomMutexRegistry::new();
    let room = "!r:local".to_string();
    let other = "!s:local".to_string();
    assert!(reg.try_acquire(&room, RoomMutexKind::Federation).is_some());
    assert!(reg.try_acquire(&room, RoomMutexKind::State).is_some());
    assert!(reg.try_acquire(&room, RoomMutexKind::Insert).is_some());
    assert!(reg.try_acquire(&other, RoomMutexKind::Federation).is_some());
    assert!(reg.try_acquire(&room, RoomMutexKind::Insert).is_none());
}

#[test]
fn fire_wakes_every_watcher_and_not_later_ones() {
    let mut rot = RotationHandler::new();
    let watchers: Vec<_> = (0..5).map(|_| rot.watch()).collect();
    assert!(watchers.iter().all(|w| !rot.has_rotated(w)));
    rot.fire();
    assert!(watchers.iter().all(|w| rot.has_rotated(w)));
    let late = rot.watch();
    assert!(!rot.has_rotated(&late));
    rot.fire();
    assert!(rot.has_rotated(&late));
}

#[test]
fn fire_without_watchers_leaves_nothing() {
    let mut rot = RotationHandler::default();
    rot.fire();
    rot.fire();
    let w = rot.watch();
    assert!(!rot.has_rotated(&w));
}

#[test]
fn failures_accumulate() {
    let mut rl = RateLimiter::new();
    let key = RateLimitKey::Server("bad.org".to_string());
    assert!(rl.get(&key).is_none());
    let mut last = 0;
    for (n, t) in [(1u32, 100u64), (2, 150), (3, 150), (4, 900)] {
        rl.record_failure(RateLimitKey::Server("bad.org".to_string()), t);
        let st = rl.get(&key).unwrap();
        assert_eq!(st.tries, n);
        assert!(st.last_failure >= last);
        last = st.last_failure;
    }
    assert!(rl.get(&RateLimitKey::Event("bad.org".to_string())).is_none());
}

#[test]
fn signature_keys_compare_by_content() {
    let mut rl = RateLimiter::new();
    let k = |v: &[&str]| RateLimitKey::Signatures(v.iter().map(|s| s.to_string()).collect());
    rl.record_failure(k(&["a", "b"]), 10);
    rl.record_failure(k(&["a", "b"]), 20);
    rl.record_failure(k(&["b", "a"]), 30);
    assert_eq!(rl.get(&k(&["a", "b"])).unwrap().tries, 2);
    assert_eq!(rl.get(&k(&["b", "a"])).unwrap().tries, 1);
    assert!(rl.get(&k(&["a"])).is_none());
}

#[test]
fn backoff_waits() {
    let lin = Backoff::Linear { step: 300, max: 1000 };
    assert_eq!(wait_after(lin, 0), 0);
    assert_eq!(wait_after(lin, 1), 300);
    assert_eq!(wait_after(lin, 3), 900);
    assert_eq!(wait_after(lin, 4), 1000);
    let exp = Backoff::Exponential { base: 100, max: 1000 };
    assert_eq!(wait_after(exp, 0), 0);
    assert_eq!(wait_after(exp, 1), 100);
    assert_eq!(wait_after(exp, 2), 200);
    assert_eq!(wait_after(exp, 4), 800);
    assert_eq!(wait_after(exp, 5), 1000);
    assert_eq!(wait_after(exp, u32::MAX), 1000);
    assert_eq!(wait_after(Backoff::Linear { step: u64::MAX, max: u64::MAX }, u32::MAX), u64::MAX);
}

#[test]
fn should_backoff_until_wait_has_passed() {
    let mut rl = RateLimiter::new();
    let key = RateLimitKey::Event("$ev".to_string());
    let policy = Backoff::Linear { step: 100, max: 10_000 };
    assert!(!rl.should_backoff(&key, 0, policy));
    rl.record_failure(RateLimitKey::Event("$ev".to_string()), 1000);
    rl.record_failure(RateLimitKey::Event("$ev".to_string()), 1000);
    assert!(rl.should_backoff(&key, 1000, policy));
    assert!(rl.should_backoff(&key, 1199, policy));
    assert!(!rl.should_backoff(&key, 1200, policy));
    assert!(rl.should_backoff(&key, 500, policy));
}

#[test]
fn duplicate_polls_attach() {
    let mut reg = SyncRegistry::new();
    let (u, d) = ("@u:local".to_string(), "DEV".to_string());
    assert_eq!(reg.get_or_create(&u, &d, Some("s1".to_string()), 1), SyncAttach::Start(1));
    assert_eq!(reg.get_or_create(&u, &d, Some("s1".to_string()), 2), SyncAttach::Attach(1));
    assert_eq!(reg.get_or_create(&u, &d, Some("s2".to_string()), 3), SyncAttach::Start(3));
    assert_eq!(reg.get_or_create(&u, &d, Some("s1".to_string()), 4), SyncAttach::Start(4));
    assert_eq!(reg.get_or_create(&u, &"OTHER".to_string(), Some("s1".to_string()), 5), SyncAttach::Start(5));
    assert_eq!(reg.get_or_create(&u, &d, None, 6), SyncAttach::Start(6));
    assert_eq!(reg.get_or_create(&u, &d, None, 7), SyncAttach::Attach(6));
}

#[test]
fn ranking_dedups_and_pins() {
    let own = "me".to_string();
    let origin = "origin".to_string();
    for _ in 0..20 {
        let input = vec!["b", "a", "me", "b", "c", "a"].into_iter().map(String::from).collect();
        let r = rank_servers(input, &own, Some(&origin));
        assert_eq!(r[0], "me");
        let mut sorted = r.clone();
        sorted.sort();
        assert_eq!(sorted, vec!["a", "b", "c", "me"]);
        let input = vec!["b", "origin", "a"].into_iter().map(String::from).collect();
        let r = rank_servers(input, &own, Some(&origin));
        assert_eq!(r[0], "origin");
        assert_eq!(r.len(), 3);
    }
    assert!(rank_servers(Vec::new(), &own, None).is_empty());
}

#[test]
fn ranking_shuffles() {
    let own = "me".to_string();
    let input: Vec<String> = (0..8).map(|i| format!("s{i}")).collect();
    let first = rank_servers(input.clone(), &own, None);
    let changed = (0..50).any(|_| rank_servers(input.clone(), &own, None) != first);
    assert!(changed);
}

#[test]
fn pattern_sets_match_unanchored() {
    let p = PatternSet::new(&vec!["ab+c".to_string(), "^x$".to_string()]).unwrap();
    assert!(p.is_match(&"zzabbbczz".to_string()));
    assert!(p.is_match(&"x".to_string()));
    assert!(!p.is_match(&"xx".to_string()));
    assert!(!PatternSet::empty().is_match(&"anything".to_string()));
    assert!(PatternSet::new(&vec!["(".to_string()]).is_none());
}

#[test]
fn response_from_value() {
    let r: RumaResponse<u32> = RumaResponse::from(7);
    assert_eq!(r.0, 7);
}
