//! Tests of the host registry: the group index, first-match lookup, and the
//! merge of a probe session's results — the end-to-end flow without the
//! network.

use russh::auth::{AuthType, Identity, Server, ServerManager};
use russh::net::{Address, Pinger, ProbeEvent};

const LOOPBACK: Address = Address::V4(0x7F000001);

fn server(name: &str, group: &str, hostname: &str) -> Server {
    Server::new(
        name.to_string(),
        group.to_string(),
        hostname.to_string(),
        "22".to_string(),
        "root".to_string(),
    )
}

#[test]
fn groups_appear_once_in_first_use_order() {
    let mut m = ServerManager::new(Vec::new());
    m.add_server(server("h1", "web", "a.example"));
    m.add_server(server("h2", "db", "b.example"));
    m.add_server(server("h3", "web", "c.example"));
    let groups = m.get_groups();
    assert_eq!(groups, vec!["web", "db"]);
}

#[test]
fn get_servers_by_returns_exactly_the_groups_keys() {
    let mut m = ServerManager::new(Vec::new());
    m.add_server(server("h1", "web", "a.example"));
    m.add_server(server("h2", "db", "b.example"));
    m.add_server(server("h3", "web", "c.example"));
    let web = m.get_servers_by("web");
    assert_eq!(web.len(), 2);
    assert_eq!(web[0].name(), "h1");
    assert_eq!(web[1].name(), "h3");
    let db = m.get_servers_by("db");
    assert_eq!(db.len(), 1);
    assert_eq!(db[0].name(), "h2");
    assert_eq!(m.get_servers_by("nope").len(), 0);
}

#[test]
fn get_server_by_takes_the_first_match() {
    let mut m = ServerManager::new(Vec::new());
    m.add_server(server("dup", "web", "first.example"));
    m.add_server(server("dup", "db", "second.example"));
    let found = m.get_server_by("dup").unwrap();
    assert_eq!(found.hostname(), "first.example");
    assert!(m.get_server_by("missing").is_none());
}

#[test]
fn get_servers_lists_every_record() {
    let mut m = ServerManager::new(Vec::new());
    m.add_server(server("h1", "web", "a.example"));
    m.add_server(server("h2", "db", "b.example"));
    let all = m.get_servers();
    assert_eq!(all.len(), 2);
    assert_eq!(all[0].name(), "h1");
    assert_eq!(all[1].name(), "h2");
}

#[test]
fn get_identity_finds_the_first_match() {
    let ids = vec![
        Identity::new("root".to_string(), None),
        Identity::new("admin".to_string(), Some("/k/admin".to_string())),
    ];
    let m = ServerManager::new(ids);
    let id = m.get_identity("admin").unwrap();
    assert_eq!(id.user(), "admin");
    match id.auth() {
        AuthType::Key(f) => assert_eq!(f, "/k/admin"),
        AuthType::Password => panic!("expected key authentication"),
    }
    assert!(m.get_identity("nobody").is_none());
}

#[test]
fn merge_marks_resolved_hosts_and_skips_the_rest() {
    // H1 resolves to the loopback address; H2 never resolves. After a probe
    // session in which the loopback replies, H1 is live and H2 untouched.
    let mut m = ServerManager::new(Vec::new());
    let k1 = m.add_server(server("h1", "web", "localhost"));
    let _k2 = m.add_server(server("h2", "web", "no.such.host.invalid"));

    let web = m.get_servers_by("web");
    assert_eq!(web.len(), 2);

    m.set_resolved(k1, LOOPBACK);

    let mut p = Pinger::new();
    p.add_target(LOOPBACK);
    let events = vec![ProbeEvent::Reply(LOOPBACK), ProbeEvent::TimedOut];
    p.drain_events(&events);

    m.merge_liveness(p.results());

    let web = m.get_servers_by("web");
    assert!(web[0].alive());
    assert_eq!(web[0].resolved(), Some(LOOPBACK));
    assert!(!web[1].alive());
    assert_eq!(web[1].resolved(), None);
}

#[test]
fn merge_copies_a_negative_mark_too() {
    let mut m = ServerManager::new(Vec::new());
    let k = m.add_server(server("h", "g", "x.example"));
    m.set_resolved(k, LOOPBACK);

    let mut p = Pinger::new();
    p.add_target(LOOPBACK);
    p.on_reply(LOOPBACK);
    m.merge_liveness(p.results());
    assert!(m.get_servers_by("g")[0].alive());

    // a later session with no reply writes the mark back to false
    let targets = p.begin_probe();
    assert_eq!(targets, vec![LOOPBACK]);
    m.merge_liveness(p.results());
    assert!(!m.get_servers_by("g")[0].alive());
}

#[test]
fn server_accessors_return_the_fields() {
    let s = server("name1", "group1", "host1.example");
    assert_eq!(s.name(), "name1");
    assert_eq!(s.group(), "group1");
    assert_eq!(s.hostname(), "host1.example");
    assert_eq!(s.port(), "22");
    assert_eq!(s.user(), "root");
    assert_eq!(s.resolved(), None);
    assert!(!s.alive());
}
