//! Transport decisions: executor choice, authentication, statuses.

use mussh::config::Host;
use mussh::error::MusshErrKind;
use mussh::multiplex::CmdStatus;
use mussh::transport::{
    choose_auth, choose_executor, classify_ssh_failure, continue_after, effective_port,
    resolve_shell, status_from_exit, status_from_ssh_failure, AuthMethod, ExecutorKind,
    SshFailure,
};

fn host(hostname: &str) -> Host {
    Host {
        hostname: hostname.to_string(),
        pem: None,
        port: None,
        username: "u".to_string(),
        alias: Vec::new(),
    }
}

#[test]
fn localhost_gets_the_local_shell() {
    assert_eq!(choose_executor(&host("localhost")), ExecutorKind::LocalShell);
    assert_eq!(choose_executor(&host("m1.ex")), ExecutorKind::Ssh);
}

#[test]
fn port_defaults_to_twenty_two() {
    assert_eq!(effective_port(&host("m1.ex")), 22);
    let mut h = host("m1.ex");
    h.port = Some(2222);
    assert_eq!(effective_port(&h), 2222);
}

#[test]
fn pem_wins_over_agent() {
    let mut h = host("m1.ex");
    assert_eq!(choose_auth(&h), AuthMethod::Agent);
    h.pem = Some("/home/u/key.pem".to_string());
    assert_eq!(choose_auth(&h), AuthMethod::PubkeyFile("/home/u/key.pem".to_string()));
}

#[test]
fn missing_shell_is_shell_not_found() {
    assert_eq!(resolve_shell(Some("/bin/sh".to_string())), Ok("/bin/sh".to_string()));
    assert_eq!(resolve_shell(None), Err(MusshErrKind::ShellNotFound));
}

#[test]
fn zero_exit_passes_everything_else_fails() {
    assert_eq!(status_from_exit(0), CmdStatus::Passed);
    assert_eq!(status_from_exit(1), CmdStatus::Failed(None));
    assert_eq!(status_from_exit(-1), CmdStatus::Failed(None));
}

#[test]
fn ssh_steps_classify() {
    assert_eq!(classify_ssh_failure(SshFailure::Connect), MusshErrKind::SshSession);
    assert_eq!(classify_ssh_failure(SshFailure::Handshake), MusshErrKind::SshSession);
    assert_eq!(
        classify_ssh_failure(SshFailure::Authentication),
        MusshErrKind::SshAuthentication
    );
    assert_eq!(classify_ssh_failure(SshFailure::Channel), MusshErrKind::SshChannel);
    assert_eq!(
        status_from_ssh_failure(SshFailure::Authentication),
        CmdStatus::Failed(Some(MusshErrKind::SshAuthentication))
    );
}

#[test]
fn only_cancellation_stops_a_worker() {
    assert!(continue_after(&CmdStatus::Passed));
    assert!(continue_after(&CmdStatus::Failed(None)));
    assert!(continue_after(&CmdStatus::Failed(Some(MusshErrKind::SshSession))));
    assert!(!continue_after(&CmdStatus::Cancelled));
}

#[test]
fn error_kinds_describe_themselves() {
    assert_eq!(MusshErrKind::SelectionEmpty.describe(), "no host/command pairs selected");
    assert_eq!(MusshErrKind::ShellNotFound.describe(), "no shell found for localhost");
    assert_eq!(MusshErrKind::Cancelled.describe(), "cancelled");
}
