//! The selection resolver: expansion, exclusion, warnings, aliases, plans.

use mussh::config::{Alias, Command, Host, Hosts, MusshToml};
use mussh::error::MusshErrKind;
use mussh::selection::{build_plan, SelectionRequest};

fn host(hostname: &str, username: &str) -> Host {
    Host {
        hostname: hostname.to_string(),
        pem: None,
        port: None,
        username: username.to_string(),
        alias: Vec::new(),
    }
}

fn names(v: &[&str]) -> Vec<String> {
    v.iter().map(|s| s.to_string()).collect()
}

fn request(hosts: &[&str], commands: &[&str]) -> SelectionRequest {
    SelectionRequest {
        hosts: names(hosts),
        commands: names(commands),
        sync_hosts: Vec::new(),
        sync_commands: Vec::new(),
        sync_mode: false,
        dry_run: false,
    }
}

fn fixture() -> MusshToml {
    let mut toml = MusshToml::default();
    toml.add_hostlist("all", Hosts {
        hostnames: names(&["m1", "m2", "m8"]),
    });
    toml.add_host("m1", host("m1.ex", "u"));
    toml.add_host("m2", host("m2.ex", "u"));
    toml.add_host("m8", host("m8.ex", "u"));
    toml.add_cmd("python", Command { command: "python --version".to_string() });
    toml.add_cmd("uptime", Command { command: "uptime".to_string() });
    toml
}

#[test]
fn alias_substitutes_on_its_host_only() {
    let mut toml = fixture();
    let mut m1 = host("m1.ex", "u");
    m1.alias.push(Alias { command: "py3".to_string(), aliasfor: "python".to_string() });
    toml.add_host("m1", m1);
    toml.add_cmd("py3", Command { command: "python3 --version".to_string() });

    let (plan, _) = build_plan(&toml, &request(&["m1", "m2"], &["python"]));
    let plan = plan.expect("the plan should not be empty");
    assert_eq!(plan.rest.len(), 2);
    assert_eq!(plan.rest[0].host, "m1");
    assert_eq!(plan.rest[0].cmds[0].name, "python");
    assert_eq!(plan.rest[0].cmds[0].cmd, "python3 --version");
    assert_eq!(plan.rest[1].host, "m2");
    assert_eq!(plan.rest[1].cmds[0].cmd, "python --version");
}

#[test]
fn alias_to_unknown_command_falls_back() {
    let mut toml = fixture();
    let mut m1 = host("m1.ex", "u");
    m1.alias.push(Alias { command: "ghost".to_string(), aliasfor: "python".to_string() });
    toml.add_host("m1", m1);

    let (plan, _) = build_plan(&toml, &request(&["m1"], &["python"]));
    let plan = plan.expect("the plan should not be empty");
    assert_eq!(plan.rest[0].cmds[0].cmd, "python --version");
}

#[test]
fn group_expands_and_exclusion_removes() {
    let toml = fixture();
    let (plan, _) = build_plan(&toml, &request(&["all", "!m8"], &["uptime"]));
    let plan = plan.expect("the plan should not be empty");
    let hosts: Vec<&str> = plan.rest.iter().map(|e| e.host.as_str()).collect();
    assert_eq!(hosts, vec!["m1", "m2"]);
}

#[test]
fn duplicates_collapse_to_first_occurrence() {
    let toml = fixture();
    let (plan, _) = build_plan(&toml, &request(&["m2", "all"], &["uptime"]));
    let plan = plan.expect("the plan should not be empty");
    let hosts: Vec<&str> = plan.rest.iter().map(|e| e.host.as_str()).collect();
    assert_eq!(hosts, vec!["m2", "m1", "m8"]);
}

#[test]
fn unknown_tokens_leave_nothing() {
    let toml = fixture();
    let (plan, warnings) = build_plan(&toml, &request(&["ghost"], &["nope"]));
    assert_eq!(plan, Err(MusshErrKind::SelectionEmpty));
    assert_eq!(warnings.unknown_hosts, vec!["ghost".to_string()]);
    assert_eq!(warnings.unknown_commands, vec!["nope".to_string()]);
}

#[test]
fn exclusion_of_everything_is_empty() {
    let toml = fixture();
    let (plan, warnings) = build_plan(&toml, &request(&["m1", "!m1"], &["uptime"]));
    assert_eq!(plan, Err(MusshErrKind::SelectionEmpty));
    assert!(warnings.unknown_hosts.is_empty());
}

#[test]
fn unknown_command_drops_but_rest_survive() {
    let toml = fixture();
    let (plan, warnings) = build_plan(&toml, &request(&["m1"], &["nope", "uptime"]));
    let plan = plan.expect("the plan should not be empty");
    assert_eq!(plan.rest[0].cmds.len(), 1);
    assert_eq!(plan.rest[0].cmds[0].name, "uptime");
    assert_eq!(warnings.unknown_commands, vec!["nope".to_string()]);
}

#[test]
fn listed_but_unconfigured_host_is_warned() {
    let mut toml = fixture();
    toml.add_hostlist("odd", Hosts { hostnames: names(&["m1", "m9"]) });
    let (plan, warnings) = build_plan(&toml, &request(&["odd"], &["uptime"]));
    let plan = plan.expect("the plan should not be empty");
    let hosts: Vec<&str> = plan.rest.iter().map(|e| e.host.as_str()).collect();
    assert_eq!(hosts, vec!["m1"]);
    assert_eq!(warnings.unknown_hosts, vec!["m9".to_string()]);
}

#[test]
fn sync_cohort_takes_shared_pairs() {
    let mut toml = fixture();
    toml.add_host("pre", host("pre.ex", "u"));
    let req = SelectionRequest {
        hosts: names(&["m1", "pre"]),
        commands: names(&["uptime", "python"]),
        sync_hosts: names(&["pre"]),
        sync_commands: names(&["uptime"]),
        sync_mode: false,
        dry_run: false,
    };
    let (plan, _) = build_plan(&toml, &req);
    let plan = plan.expect("the plan should not be empty");
    assert_eq!(plan.sync.len(), 1);
    assert_eq!(plan.sync[0].host, "pre");
    assert_eq!(plan.sync[0].cmds.len(), 1);
    assert_eq!(plan.sync[0].cmds[0].name, "uptime");
    // "pre" keeps only what the sync phase does not already run
    assert_eq!(plan.rest.len(), 2);
    assert_eq!(plan.rest[1].host, "pre");
    let pre_names: Vec<&str> = plan.rest[1].cmds.iter().map(|c| c.name.as_str()).collect();
    assert_eq!(pre_names, vec!["python"]);
    // "m1" is untouched by the cut
    let m1_names: Vec<&str> = plan.rest[0].cmds.iter().map(|c| c.name.as_str()).collect();
    assert_eq!(m1_names, vec!["uptime", "python"]);
}

#[test]
fn duplicate_command_tokens_run_twice() {
    // command tokens are taken literally: a name asked for twice runs twice
    let toml = fixture();
    let (plan, _) = build_plan(&toml, &request(&["m1"], &["uptime", "uptime"]));
    let plan = plan.expect("the plan should not be empty");
    let names: Vec<&str> = plan.rest[0].cmds.iter().map(|c| c.name.as_str()).collect();
    assert_eq!(names, vec!["uptime", "uptime"]);
}

#[test]
fn sync_selection_has_its_own_exclusions() {
    let mut toml = fixture();
    toml.add_host("pre", host("pre.ex", "u"));
    let req = SelectionRequest {
        hosts: names(&["m1"]),
        commands: names(&["uptime"]),
        sync_hosts: names(&["all", "pre", "!m1", "!m2", "!m8"]),
        sync_commands: names(&["python"]),
        sync_mode: false,
        dry_run: false,
    };
    let (plan, _) = build_plan(&toml, &req);
    let plan = plan.expect("the plan should not be empty");
    let sync_hosts: Vec<&str> = plan.sync.iter().map(|e| e.host.as_str()).collect();
    assert_eq!(sync_hosts, vec!["pre"]);
    // the main selection is untouched by the sync exclusions
    let rest_hosts: Vec<&str> = plan.rest.iter().map(|e| e.host.as_str()).collect();
    assert_eq!(rest_hosts, vec!["m1"]);
}
