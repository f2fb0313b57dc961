//! The configuration model: tables, getters, setters, rendering.

use mussh::config::{Alias, Command, Host, Hosts, MusshToml};
use mussh::config::{add_system_path, assoc_get, search_paths};
use mussh::util::pad_left;

fn host(hostname: &str, username: &str) -> Host {
    Host {
        hostname: hostname.to_string(),
        pem: None,
        port: None,
        username: username.to_string(),
        alias: Vec::new(),
    }
}

#[test]
fn add_cmd_binds_and_replaces() {
    let mut toml = MusshToml::default();
    toml.add_cmd("python", Command { command: "python --version".to_string() });
    toml.add_cmd("uptime", Command { command: "uptime".to_string() });
    assert_eq!(toml.cmd().len(), 2);
    toml.add_cmd("python", Command { command: "python3 --version".to_string() });
    assert_eq!(toml.cmd().len(), 2);
    let got = assoc_get(toml.cmd(), &"python".to_string()).expect("python should be bound");
    assert_eq!(got.command, "python3 --version");
}

#[test]
fn remove_cmd_drops_the_binding() {
    let mut toml = MusshToml::default();
    toml.add_cmd("python", Command { command: "python --version".to_string() });
    toml.add_cmd("uptime", Command { command: "uptime".to_string() });
    assert!(toml.remove_cmd("python"));
    assert_eq!(toml.cmd().len(), 1);
    assert!(assoc_get(toml.cmd(), &"python".to_string()).is_none());
    assert!(!toml.remove_cmd("python"));
    assert_eq!(toml.cmd().len(), 1);
}

#[test]
fn add_hostlist_and_host_bind() {
    let mut toml = MusshToml::default();
    toml.add_hostlist("all", Hosts { hostnames: vec!["m1".to_string(), "m2".to_string()] });
    toml.add_host("m1", host("m1.ex", "u"));
    assert_eq!(toml.hostlist().len(), 1);
    assert_eq!(toml.hosts().len(), 1);
    let g = assoc_get(toml.hostlist(), &"all".to_string()).expect("group should be bound");
    assert_eq!(g.hostnames(), &vec!["m1".to_string(), "m2".to_string()]);
    assert!(assoc_get(toml.hosts(), &"m9".to_string()).is_none());
}

#[test]
fn host_getters_and_setters() {
    let mut h = Host::default();
    h.set_hostname("m1.ex");
    h.set_username("u");
    h.set_port(2222);
    h.set_pem("/home/u/key.pem");
    assert_eq!(h.hostname(), "m1.ex");
    assert_eq!(h.username(), "u");
    assert_eq!(h.port(), Some(2222));
    assert_eq!(h.pem(), Some(&"/home/u/key.pem".to_string()));
}

#[test]
fn alias_pairs_keep_declaration_order() {
    let mut h = host("m1.ex", "u");
    h.alias.push(Alias { command: "py3".to_string(), aliasfor: "python".to_string() });
    h.alias.push(Alias { command: "py2".to_string(), aliasfor: "python".to_string() });
    let pairs = h.alias().expect("aliases should be present");
    assert_eq!(
        pairs,
        vec![
            ("python".to_string(), "py3".to_string()),
            ("python".to_string(), "py2".to_string()),
        ]
    );
    let bare = host("m2.ex", "u");
    assert!(bare.alias().is_none());
}

#[test]
fn command_and_alias_getters() {
    let mut c = Command::default();
    c.set_command("uptime");
    assert_eq!(c.command(), "uptime");
    let a = Alias { command: "py3".to_string(), aliasfor: "python".to_string() };
    assert_eq!(a.command(), "py3");
    assert_eq!(a.aliasfor(), "python");
}

#[test]
fn hosts_set_hostnames() {
    let mut g = Hosts::default();
    g.set_hostnames(vec!["a".to_string(), "b".to_string()]);
    assert_eq!(g.hostnames(), &vec!["a".to_string(), "b".to_string()]);
}

#[test]
fn pad_left_pads_on_the_left() {
    assert_eq!(pad_left("abc", 5), "  abc");
    assert_eq!(pad_left("abcdef", 3), "abcdef");
    assert_eq!(pad_left("", 4), "    ");
}

#[test]
fn search_paths_in_discovery_order() {
    let paths = search_paths(
        &Some("/tmp/conf.toml".to_string()),
        &Some("/work".to_string()),
        &Some("/home/u".to_string()),
        &Some("box1".to_string()),
    );
    assert_eq!(
        paths,
        vec![
            "/tmp/conf.toml".to_string(),
            "/work/.mussh/mussh.toml".to_string(),
            "/home/u/.mussh/box1/mussh.toml".to_string(),
            "/etc/mussh/mussh.toml".to_string(),
        ]
    );
    let bare = search_paths(&None, &None, &Some("/home/u".to_string()), &None);
    assert_eq!(
        bare,
        vec!["/home/u/.mussh/mussh.toml".to_string(), "/etc/mussh/mussh.toml".to_string()]
    );
}

#[test]
fn add_system_path_appends() {
    let mut paths = vec!["a".to_string()];
    add_system_path(&mut paths);
    assert_eq!(paths, vec!["a".to_string(), "/etc/mussh/mussh.toml".to_string()]);
}

#[test]
fn display_strings_render() {
    let g = Hosts { hostnames: vec!["m1".to_string(), "m2".to_string(), "m8".to_string()] };
    assert_eq!(g.display_string(), "m1, m2, m8");

    let mut h = host("m1.ex", "u");
    assert_eq!(h.display_string(), "u@m1.ex:22");
    h.set_port(2222);
    h.set_pem("/k.pem");
    h.alias.push(Alias { command: "py3".to_string(), aliasfor: "python".to_string() });
    h.alias.push(Alias { command: "vi".to_string(), aliasfor: "emacs".to_string() });
    assert_eq!(
        h.display_string(),
        "u@m1.ex:2222 /k.pem { python: py3, emacs: vi }"
    );

    let c = Command { command: "uptime".to_string() };
    assert_eq!(c.display_string(), "uptime");
}
