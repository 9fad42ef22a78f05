use conduwuit::globals::{Config, Service};
use conduwuit::patterns::PatternSet;
use conduwuit::signing_keys::{Keypair, ServerSigningKeys, VerifyKey};

fn load(version: &str, unstable: bool) -> Service {
    let config = Config {
        server_name: "local".to_string(),
        forbidden_alias_names: PatternSet::empty(),
        allow_unstable_room_versions: unstable,
        default_room_version: version.to_string(),
    };
    Service::load(config, Keypair { version: "k1".to_string(), public_key: vec![9, 9] })
}

fn keys(v: &[(&str, u8)]) -> Vec<(String, VerifyKey)> {
    v.iter().map(|(id, b)| (id.to_string(), VerifyKey { key: vec![*b] })).collect()
}

fn as_pairs(v: Vec<(String, VerifyKey)>) -> Vec<(String, Vec<u8>)> {
    let mut r: Vec<_> = v.into_iter().map(|(id, k)| (id, k.key)).collect();
    r.sort();
    r
}

#[test]
fn room_versions_and_fallback() {
    let s = load("11", false);
    assert_eq!(s.supported_room_versions(), vec!["6", "7", "8", "9", "10", "11"]);
    assert_eq!(s.default_room_version(), "11");
    let s = load("3", false);
    assert_eq!(s.default_room_version(), "10");
    let s = load("3", true);
    assert_eq!(s.default_room_version(), "3");
    assert_eq!(s.supported_room_versions().len(), 10);
    assert_eq!(load("99", true).default_room_version(), "10");
}

#[test]
fn signing_keys_merge() {
    let mut s = load("10", false);
    let origin = "remote.org".to_string();
    assert!(s.signing_keys_for(&origin).is_empty());
    let first = ServerSigningKeys {
        server_name: origin.clone(),
        verify_keys: keys(&[("ed25519:a", 1)]),
        old_verify_keys: keys(&[("ed25519:old", 2)]),
    };
    let merged = s.add_signing_key(&origin, &first);
    assert_eq!(as_pairs(merged), vec![("ed25519:a".to_string(), vec![1]), ("ed25519:old".to_string(), vec![2])]);
    let second = ServerSigningKeys {
        server_name: origin.clone(),
        verify_keys: keys(&[("ed25519:a", 5), ("ed25519:b", 6)]),
        old_verify_keys: Vec::new(),
    };
    let merged = as_pairs(s.add_signing_key(&origin, &second));
    assert_eq!(merged.len(), 3);
    assert!(merged.contains(&("ed25519:a".to_string(), vec![5])));
    assert_eq!(as_pairs(s.signing_keys_for(&origin)), merged);
}

#[test]
fn own_keys_include_live_key() {
    let mut s = load("10", false);
    let own = "local".to_string();
    assert_eq!(as_pairs(s.signing_keys_for(&own)), vec![("ed25519:k1".to_string(), vec![9, 9])]);
    let stale = ServerSigningKeys {
        server_name: own.clone(),
        verify_keys: keys(&[("ed25519:k1", 1), ("ed25519:k0", 2)]),
        old_verify_keys: Vec::new(),
    };
    s.add_signing_key(&own, &stale);
    assert_eq!(
        as_pairs(s.signing_keys_for(&own)),
        vec![("ed25519:k0".to_string(), vec![2]), ("ed25519:k1".to_string(), vec![9, 9])]
    );
}

#[test]
fn shutdown_fires_rotation() {
    let mut s = load("10", false);
    let w = s.rotate.watch();
    s.shutdown();
    assert!(s.shutdown);
    assert!(s.rotate.has_rotated(&w));
}

#[test]
fn federation_handle_times() {
    let mut s = load("10", false);
    let room = "!r:local".to_string();
    assert!(s.roomid_federationhandletime.get(&room).is_none());
    s.roomid_federationhandletime.insert(&room, &"$a".to_string(), 5);
    s.roomid_federationhandletime.insert(&room, &"$b".to_string(), 9);
    assert_eq!(s.roomid_federationhandletime.get(&room), Some(("$b".to_string(), 9)));
    s.roomid_federationhandletime.remove(&room);
    assert!(s.roomid_federationhandletime.get(&room).is_none());
}
