use conduwuit::alias::{AliasDirectory, AliasError, AliasLookup, NamespaceRegex, RegistrationInfo, RoomAlias, RoomInformation};
use conduwuit::globals::{Config, Service};
use conduwuit::patterns::PatternSet;
use conduwuit::routes::{
    appservice_claimed, create_alias_route, delete_alias_route, get_alias_route, local_alias_response,
    remote_alias_response, CreateAliasRequest, DeleteAliasRequest, GetAliasRequest,
};
use conduwuit::ruma_wrapper::Ruma;
use conduwuit::signing_keys::Keypair;

fn service(name: &str, forbidden: &[&str]) -> Service {
    let patterns: Vec<String> = forbidden.iter().map(|s| s.to_string()).collect();
    let config = Config {
        server_name: name.to_string(),
        forbidden_alias_names: PatternSet::new(&patterns).unwrap(),
        allow_unstable_room_versions: false,
        default_room_version: "10".to_string(),
    };
    Service::load(config, Keypair { version: "a1".to_string(), public_key: vec![1, 2, 3] })
}

fn request<T>(body: T, appservice_info: Option<RegistrationInfo>) -> Ruma<T> {
    Ruma { body, sender_user: None, sender_device: None, sender_servername: None, appservice_info }
}

fn alias(s: &str) -> RoomAlias {
    RoomAlias::parse(s).unwrap()
}

fn appservice(id: &str, exclusive: &[&str], shared: &[&str]) -> RegistrationInfo {
    let ex: Vec<String> = exclusive.iter().map(|s| s.to_string()).collect();
    let sh: Vec<String> = shared.iter().map(|s| s.to_string()).collect();
    RegistrationInfo {
        id: id.to_string(),
        aliases: NamespaceRegex {
            exclusive: PatternSet::new(&ex).unwrap(),
            non_exclusive: PatternSet::new(&sh).unwrap(),
        },
    }
}

fn create(s: &Service, d: &mut AliasDirectory, apps: &Vec<RegistrationInfo>, a: &str, room: &str, who: Option<RegistrationInfo>) -> Result<(), AliasError> {
    let body = request(CreateAliasRequest { room_alias: alias(a), room_id: room.to_string() }, who);
    create_alias_route(s, d, apps, &body)
}

fn delete(s: &Service, d: &mut AliasDirectory, apps: &Vec<RegistrationInfo>, a: &str, who: Option<RegistrationInfo>) -> Result<(), AliasError> {
    let body = request(DeleteAliasRequest { room_alias: alias(a) }, who);
    delete_alias_route(s, d, apps, &body)
}

fn lookup(s: &Service, d: &AliasDirectory, apps: &Vec<RegistrationInfo>, a: &str) -> Result<AliasLookup, AliasError> {
    get_alias_route(s, d, apps, &request(GetAliasRequest { room_alias: alias(a) }, None))
}

#[test]
fn parse_splits_at_first_colon() {
    let a = alias("#foo:example.org:8448");
    assert_eq!(a.alias(), "foo");
    assert_eq!(a.server_name(), "example.org:8448");
    assert_eq!(a.as_str(), "#foo:example.org:8448");
    let b = alias("#:local");
    assert_eq!(b.alias(), "");
}

#[test]
fn parse_rejects_malformed() {
    for bad in ["", "foo:local", "!foo:local", "#foo", "#foo:", "#"] {
        assert!(matches!(RoomAlias::parse(bad), Err(AliasError::InvalidInput)), "{bad}");
    }
}

#[test]
fn create_then_resolve_then_delete() {
    let s = service("local", &[]);
    let mut d = AliasDirectory::new();
    let apps = Vec::new();
    assert_eq!(create(&s, &mut d, &apps, "#foo:local", "!room:local", None), Ok(()));
    match lookup(&s, &d, &apps, "#foo:local") {
        Ok(AliasLookup::Found(room)) => assert_eq!(room, "!room:local"),
        _ => panic!("alias should resolve"),
    }
    assert_eq!(delete(&s, &mut d, &apps, "#foo:local", None), Ok(()));
    assert!(matches!(lookup(&s, &d, &apps, "#foo:local"), Err(AliasError::NotFound)));
    assert_eq!(delete(&s, &mut d, &apps, "#foo:local", None), Err(AliasError::NotFound));
}

#[test]
fn second_create_conflicts_and_keeps_mapping() {
    let s = service("local", &[]);
    let mut d = AliasDirectory::new();
    let apps = Vec::new();
    assert_eq!(create(&s, &mut d, &apps, "#foo:local", "!one:local", None), Ok(()));
    assert_eq!(create(&s, &mut d, &apps, "#foo:local", "!two:local", None), Err(AliasError::Conflict));
    assert_eq!(d.resolve_local_alias(&alias("#foo:local")), Some("!one:local".to_string()));
}

#[test]
fn foreign_alias_is_invalid_input() {
    let s = service("local", &["foo"]);
    let mut d = AliasDirectory::new();
    let apps = vec![appservice("bridge", &["#.*"], &[])];
    assert_eq!(create(&s, &mut d, &apps, "#foo:elsewhere", "!r:local", None), Err(AliasError::InvalidInput));
    assert_eq!(delete(&s, &mut d, &apps, "#foo:elsewhere", None), Err(AliasError::InvalidInput));
    assert!(matches!(lookup(&s, &d, &apps, "#foo:elsewhere"), Ok(AliasLookup::Remote)));
}

#[test]
fn forbidden_name_is_rejected() {
    let s = service("local", &["^admin"]);
    let mut d = AliasDirectory::new();
    let apps = Vec::new();
    assert_eq!(create(&s, &mut d, &apps, "#admins:local", "!r:local", None), Err(AliasError::Forbidden));
    assert_eq!(create(&s, &mut d, &apps, "#the_admin:local", "!r:local", None), Ok(()));
}

#[test]
fn exclusive_namespace_is_reserved() {
    let s = service("local", &[]);
    let mut d = AliasDirectory::new();
    let bridge = appservice("bridge", &["^#irc_.*"], &[]);
    let apps = vec![appservice("bridge", &["^#irc_.*"], &[])];
    assert_eq!(create(&s, &mut d, &apps, "#irc_chan:local", "!r:local", None), Err(AliasError::Forbidden));
    assert_eq!(create(&s, &mut d, &apps, "#irc_chan:local", "!r:local", Some(bridge)), Ok(()));
    let other = appservice("other", &["^#tg_.*"], &[]);
    assert_eq!(create(&s, &mut d, &apps, "#plain:local", "!r:local", Some(other)), Err(AliasError::Forbidden));
    assert_eq!(delete(&s, &mut d, &apps, "#irc_chan:local", None), Err(AliasError::Forbidden));
}

#[test]
fn unknown_alias_asks_matching_appservices() {
    let s = service("local", &[]);
    let mut d = AliasDirectory::new();
    let apps = vec![
        appservice("a", &["^#tg_.*"], &[]),
        appservice("b", &[], &["^#irc_.*"]),
        appservice("c", &["^#irc_x"], &[]),
    ];
    match lookup(&s, &d, &apps, "#irc_x:local") {
        Ok(AliasLookup::AskAppservices(v)) => assert_eq!(v, vec![1, 2]),
        _ => panic!("expected appservice queries"),
    }
    assert_eq!(appservice_claimed(&d, &alias("#irc_x:local")), Err(AliasError::ConfigInconsistency));
    d.set_alias(&alias("#irc_x:local"), &"!bridged:local".to_string());
    assert_eq!(appservice_claimed(&d, &alias("#irc_x:local")), Ok("!bridged:local".to_string()));
}

#[test]
fn example_org_scenario() {
    let s = service("example.org", &[]);
    let mut d = AliasDirectory::new();
    let apps = Vec::new();
    assert_eq!(create(&s, &mut d, &apps, "#general:example.org", "!abc:example.org", None), Ok(()));
    let room = match lookup(&s, &d, &apps, "#general:example.org") {
        Ok(AliasLookup::Found(room)) => room,
        _ => panic!("alias should resolve"),
    };
    assert_eq!(room, "!abc:example.org");
    let servers = vec!["matrix.org".to_string(), "example.org".to_string(), "a.net".to_string()];
    let r = local_alias_response(&s, room, servers);
    assert_eq!(r.room_id, "!abc:example.org");
    assert_eq!(r.servers[0], "example.org");
    assert_eq!(r.servers.len(), 3);
}

#[test]
fn remote_response_pins_alias_server() {
    let s = service("local", &[]);
    let a = alias("#room:remote.org");
    for _ in 0..20 {
        let info = RoomInformation {
            room_id: "!r:remote.org".to_string(),
            servers: vec!["b.org".to_string(), "a.org".to_string(), "b.org".to_string()],
        };
        let r = remote_alias_response(&s, &a, info, vec!["c.org".to_string(), "a.org".to_string()]);
        assert_eq!(r.room_id, "!r:remote.org");
        assert_eq!(r.servers[0], "remote.org");
        let mut rest = r.servers.clone();
        rest.sort();
        assert_eq!(rest, vec!["a.org", "b.org", "c.org", "remote.org"]);
    }
}

#[test]
fn remote_response_prefers_own_server() {
    let s = service("local", &[]);
    let a = alias("#room:remote.org");
    for _ in 0..20 {
        let info = RoomInformation { room_id: "!r:remote.org".to_string(), servers: vec!["x.org".to_string()] };
        let r = remote_alias_response(&s, &a, info, vec!["local".to_string(), "y.org".to_string()]);
        assert_eq!(r.servers[0], "local");
        assert_eq!(r.servers.len(), 4);
    }
}
