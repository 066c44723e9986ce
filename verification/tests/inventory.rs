//! Tests of the loaded inventory, the configuration value, the process
//! argument builders, and the run-mode decision.

use russh::app::{run_mode, split_host_arg, Format, RunMode};
use russh::config::{Config, ConfigError, CredentialManager};
use russh::process::{mode_program, scp_args, ssh_args, ProcessMode, Transfer};
use russh::server::{AuthMethod, Identity, Server, ServerGroup, Servers};

fn inv_server(name: &str, hostname: &str, user: &str) -> Server {
    Server {
        name: name.to_string(),
        hostname: hostname.to_string(),
        user: user.to_string(),
        port: 22,
        description: format!("{} at {}", name, hostname),
    }
}

fn sample() -> Servers {
    let mut s = Servers::new();
    s.add_identity(
        "root".to_string(),
        Identity::new("root".to_string(), Some("/k/root".to_string())),
    );
    s.add_group(
        "web".to_string(),
        ServerGroup { servers: vec![inv_server("w1", "w1.example", "root"), inv_server("dup", "web-dup.example", "root")] },
    );
    s.add_group(
        "db".to_string(),
        ServerGroup { servers: vec![inv_server("dup", "db-dup.example", "nobody")] },
    );
    s
}

#[test]
fn find_by_group_returns_that_groups_servers() {
    let s = sample();
    let web = s.find_by_group("web");
    assert_eq!(web.len(), 2);
    assert_eq!(web[0].name, "w1");
}

#[test]
fn find_by_name_takes_the_last_match() {
    let s = sample();
    let found = s.find_by_name("dup").unwrap();
    assert_eq!(found.hostname, "db-dup.example");
    assert!(s.find_by_name("missing").is_none());
}

#[test]
fn identity_is_found_by_the_servers_user() {
    let s = sample();
    let w1 = s.find_by_name("w1").unwrap();
    let id = s.identity(w1).unwrap();
    assert_eq!(id.user, "root");
    let orphan = s.find_by_name("dup").unwrap();
    assert!(s.identity(orphan).is_none()); // user "nobody" has no identity
}

#[test]
fn server_with_identity_needs_both() {
    let s = sample();
    let (srv, id) = s.server_with_identity("w1").unwrap();
    assert_eq!(srv.name, "w1");
    assert_eq!(id.user, "root");
    assert!(s.server_with_identity("dup").is_none());
    assert!(s.server_with_identity("missing").is_none());
}

#[test]
fn method_distinguishes_key_and_password() {
    let with_key = Identity::new("a".to_string(), Some("/k/a".to_string()));
    match with_key.method() {
        AuthMethod::Key(f) => assert_eq!(f, "/k/a"),
        AuthMethod::Password => panic!("expected a key"),
    }
    let plain = Identity::new("b".to_string(), None);
    assert!(matches!(plain.method(), AuthMethod::Password));
}

#[test]
fn config_hands_out_its_parts() {
    let servers = russh::auth::ServerManager::new(Vec::new());
    let credentials = CredentialManager::new();
    let mut c = Config::new(servers, credentials, Some("vim".to_string()));
    assert_eq!(c.editor().unwrap(), "vim");
    assert_eq!(c.server_manager().get_groups().len(), 0);
    {
        let (sm, cm) = c.get_managers();
        sm.add_server(russh::auth::Server::new(
            "h".to_string(),
            "g".to_string(),
            "h.example".to_string(),
            "22".to_string(),
            "root".to_string(),
        ));
        cm.add(russh::auth::Identity::new("root".to_string(), None));
    }
    assert_eq!(c.server_manager().get_groups(), vec!["g"]);
    assert_eq!(c.credential_manager().find("root").unwrap().user(), "root");
    assert!(c.credential_manager().find("x").is_none());
}

#[test]
fn config_error_carries_its_message() {
    let e = ConfigError::ParseError("The `groups` section does not exists.".to_string());
    assert_eq!(e.message(), "The `groups` section does not exists.");
    let io = ConfigError::IoError("gone".to_string());
    assert_eq!(io.message(), "gone");
}

#[test]
fn ssh_args_build_the_connection_string() {
    let srv = inv_server("w1", "w1.example", "root");
    let id = Identity::new("root".to_string(), Some("/k/root".to_string()));
    assert_eq!(ssh_args(&srv, &id), vec!["-i", "/k/root", "root@w1.example"]);
    let plain = Identity::new("root".to_string(), None);
    assert_eq!(ssh_args(&srv, &plain), vec!["root@w1.example"]);
}

#[test]
fn scp_args_place_the_remote_side() {
    let srv = inv_server("w1", "w1.example", "root");
    let id = Identity::new("root".to_string(), None);
    assert_eq!(
        scp_args(&srv, &id, Transfer::FromHost { from: "/remote/f", to: "local" }),
        vec!["root@w1.example:/remote/f", "local"]
    );
    assert_eq!(
        scp_args(&srv, &id, Transfer::ToHost { from: "local", to: "/remote/f" }),
        vec!["local", "root@w1.example:/remote/f"]
    );
    let keyed = Identity::new("root".to_string(), Some("/k/r".to_string()));
    assert_eq!(
        scp_args(&srv, &keyed, Transfer::ToHost { from: "l", to: "/r" }),
        vec!["-i", "/k/r", "l", "root@w1.example:/r"]
    );
}

#[test]
fn mode_program_names_the_binary() {
    assert_eq!(mode_program(&ProcessMode::Ssh), "ssh");
    assert_eq!(mode_program(&ProcessMode::Scp), "scp");
}

#[test]
fn split_host_arg_takes_the_first_two_fields() {
    assert_eq!(split_host_arg("host:path"), Some(("host", "path")));
    assert_eq!(split_host_arg("a:b:c"), Some(("a", "b")));
    assert_eq!(split_host_arg("host:"), Some(("host", "")));
    assert_eq!(split_host_arg(":path"), Some(("", "path")));
    assert_eq!(split_host_arg("plain"), None);
}

#[test]
fn run_mode_decides_as_the_arguments_say() {
    match run_mode(true, true, Some("web"), None) {
        RunMode::List(Some(g), Format::Pretty) => assert_eq!(g, "web"),
        _ => panic!("expected a pretty listing of one group"),
    }
    match run_mode(true, false, None, None) {
        RunMode::List(None, Format::Plain) => {}
        _ => panic!("expected a plain listing of everything"),
    }
    match run_mode(false, true, Some("h1"), None) {
        RunMode::Ssh(h) => assert_eq!(h, "h1"),
        _ => panic!("expected ssh"),
    }
    match run_mode(false, true, Some("h1:/src"), Some("dst")) {
        RunMode::Scp(h, Transfer::FromHost { from, to }) => {
            assert_eq!(h, "h1");
            assert_eq!(from, "/src");
            assert_eq!(to, "dst");
        }
        _ => panic!("expected an scp from the host"),
    }
    match run_mode(false, true, Some("src"), Some("h2:/dst")) {
        RunMode::Scp(h, Transfer::ToHost { from, to }) => {
            assert_eq!(h, "h2");
            assert_eq!(from, "src");
            assert_eq!(to, "/dst");
        }
        _ => panic!("expected an scp to the host"),
    }
    assert!(matches!(run_mode(false, true, Some("a"), Some("b")), RunMode::Unknown));
    assert!(matches!(run_mode(false, true, None, None), RunMode::Unknown));
}

#[test]
fn empty_inventory_finds_nothing() {
    let s = Servers::new();
    assert!(s.find_by_name("x").is_none());
    assert!(s.server_with_identity("x").is_none());
    assert_eq!(split_host_arg(""), None);
}
