//! The configuration text: writing, reading, and the reload round trip.

use mussh::codec::{parse_lines, serialize_lines};
use mussh::config::{Alias, Command, Host, Hosts, MusshToml};
use mussh::error::MusshErrKind;
use mussh::logfmt::{host_log_path, log_line};
use mussh::util::u64_to_string;

fn full_config() -> MusshToml {
    let mut toml = MusshToml::default();
    toml.add_hostlist("all", Hosts {
        hostnames: vec!["m1".to_string(), "m2".to_string(), "m8".to_string()],
    });
    toml.add_hostlist("empty", Hosts { hostnames: Vec::new() });
    toml.add_host("m1", Host {
        hostname: "m1.ex".to_string(),
        pem: Some("/home/u/key.pem".to_string()),
        port: Some(2222),
        username: "u".to_string(),
        alias: vec![
            Alias { command: "py3".to_string(), aliasfor: "python".to_string() },
            Alias { command: "vi".to_string(), aliasfor: "emacs".to_string() },
        ],
    });
    toml.add_host("lh", Host {
        hostname: "localhost".to_string(),
        pem: None,
        port: None,
        username: String::new(),
        alias: Vec::new(),
    });
    toml.add_cmd("python", Command { command: "python --version".to_string() });
    toml.add_cmd("uptime", Command { command: "uptime".to_string() });
    toml
}

#[test]
fn serializer_emits_the_canonical_lines() {
    let mut toml = MusshToml::default();
    toml.add_hostlist("all", Hosts {
        hostnames: vec!["m1".to_string(), "m2".to_string()],
    });
    toml.add_host("m1", Host {
        hostname: "m1.ex".to_string(),
        pem: None,
        port: Some(2222),
        username: "u".to_string(),
        alias: vec![Alias { command: "py3".to_string(), aliasfor: "python".to_string() }],
    });
    toml.add_cmd("python", Command { command: "python --version".to_string() });
    let lines = serialize_lines(&toml);
    assert_eq!(
        lines,
        vec![
            "[hostlist.all]".to_string(),
            "hostnames = [\"m1\", \"m2\"]".to_string(),
            "[hosts.m1]".to_string(),
            "hostname = \"m1.ex\"".to_string(),
            "username = \"u\"".to_string(),
            "port = 2222".to_string(),
            "[[hosts.m1.alias]]".to_string(),
            "command = \"py3\"".to_string(),
            "aliasfor = \"python\"".to_string(),
            "[cmd.python]".to_string(),
            "command = \"python --version\"".to_string(),
        ]
    );
}

#[test]
fn store_then_load_returns_the_same_configuration() {
    let toml = full_config();
    let lines = serialize_lines(&toml);
    let back = parse_lines(&lines).expect("the canonical text should load");
    assert_eq!(back, toml);
    // and the reloaded value writes the very same text again
    assert_eq!(serialize_lines(&back), lines);
}

#[test]
fn load_then_store_reproduces_the_text() {
    let text = vec![
        "[hostlist.all]".to_string(),
        "hostnames = [\"m1\"]".to_string(),
        "[hosts.m1]".to_string(),
        "hostname = \"m1.ex\"".to_string(),
        "username = \"u\"".to_string(),
        "[cmd.uptime]".to_string(),
        "command = \"uptime\"".to_string(),
    ];
    let toml = parse_lines(&text).expect("the canonical text should load");
    assert_eq!(serialize_lines(&toml), text);
    assert_eq!(toml.hosts().len(), 1);
    assert_eq!(toml.hosts()[0].1.hostname, "m1.ex");
}

#[test]
fn awkward_strings_survive_the_round_trip() {
    let mut toml = MusshToml::default();
    toml.add_hostlist("odd", Hosts {
        hostnames: vec!["a, b".to_string(), String::new(), "c]".to_string()],
    });
    toml.add_host("w.x", Host {
        hostname: "10.0.0.1".to_string(),
        pem: Some("/tmp/it's \"here\"".to_string()),
        port: Some(65535),
        username: "user name".to_string(),
        alias: Vec::new(),
    });
    toml.add_cmd("list", Command { command: "ls -l \"/tmp/x y\"; echo [done]".to_string() });
    let lines = serialize_lines(&toml);
    let back = parse_lines(&lines).expect("every canonical text should load");
    assert_eq!(serialize_lines(&back), lines);
    assert_eq!(back, toml);
}

#[test]
fn malformed_text_is_refused() {
    let garbage = vec!["not a section".to_string()];
    assert_eq!(parse_lines(&garbage), Err(MusshErrKind::ConfigInvalid));
    let stray = vec!["hostname = \"x\"".to_string()];
    assert_eq!(parse_lines(&stray), Err(MusshErrKind::ConfigInvalid));
    let empty: Vec<String> = Vec::new();
    assert_eq!(parse_lines(&empty), Ok(MusshToml::default()));
}

#[test]
fn log_line_prefixes_the_timestamp() {
    assert_eq!(log_line(0, "hi"), "1970-01-01T00:00:00.000Z: hi");
    assert_eq!(
        log_line(1431648000000, "booted"),
        "2015-05-15T00:00:00.000Z: booted"
    );
    assert_eq!(
        log_line(1431648754321, "x"),
        "2015-05-15T00:12:34.321Z: x"
    );
}

#[test]
fn host_log_path_joins() {
    assert_eq!(host_log_path("/home/u/.mussh", "m1"), "/home/u/.mussh/m1.log");
}

#[test]
fn decimal_text_is_exact() {
    assert_eq!(u64_to_string(0), "0");
    assert_eq!(u64_to_string(7), "7");
    assert_eq!(u64_to_string(12345), "12345");
    assert_eq!(u64_to_string(u64::MAX), "18446744073709551615");
}
