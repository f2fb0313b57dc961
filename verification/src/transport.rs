//! Transport decisions: which executor a host gets, how an SSH session
//! authenticates, and how what the transport observed becomes a status.
//!
//! The transport itself — spawning a shell, opening a TCP connection,
//! driving the SSH session — stays outside this crate.  It hands plain
//! values in and takes the decisions made here back out.

use vstd::prelude::*;
use crate::config::Host;
use crate::error::MusshErrKind;
use crate::multiplex::CmdStatus;

verus! {

/// Which backend executes a command on a host.
#[derive(Clone, Debug, PartialEq, Eq)]
pub enum ExecutorKind {
    /// Spawn a local shell: the host is the literal `localhost`.
    LocalShell,
    /// Connect over SSH.
    Ssh,
}

/// How an SSH session authenticates.
#[derive(Clone, Debug, PartialEq, Eq)]
pub enum AuthMethod {
    /// Public-key authentication with the key file at this path.
    PubkeyFile(String),
    /// Try each identity the local SSH agent offers, first success wins.
    Agent,
}

/// The step at which an SSH execution failed, as the transport observed it.
#[derive(Clone, Copy, Debug, PartialEq, Eq, Structural)]
pub enum SshFailure {
    /// The TCP connection could not be opened.
    Connect,
    /// The SSH handshake failed.
    Handshake,
    /// Neither the key file nor any agent identity authenticated.
    Authentication,
    /// The session channel failed after authentication.
    Channel,
}

/// The local shell runs exactly the host named `localhost`; every other
/// name goes over SSH.
pub fn choose_executor(host: &Host) -> (r: ExecutorKind)
    ensures
        host.hostname@ == "localhost"@ ==> r == ExecutorKind::LocalShell,
        host.hostname@ != "localhost"@ ==> r == ExecutorKind::Ssh,
{
    let lh = String::from_str("localhost");
    if host.hostname == lh {
        ExecutorKind::LocalShell
    } else {
        ExecutorKind::Ssh
    }
}

/// The port to connect to: the configured one, or 22.
pub fn effective_port(host: &Host) -> (r: u16)
    ensures
        r == (match host.port {
            Some(p) => p,
            None => 22u16,
        }),
{
    match host.port {
        Some(p) => p,
        None => 22,
    }
}

/// A configured key file wins; without one the agent is asked.
pub fn choose_auth(host: &Host) -> (r: AuthMethod)
    ensures
        host.pem matches Some(p) ==> (r matches AuthMethod::PubkeyFile(q) && q@ == p@),
        host.pem is None ==> r == AuthMethod::Agent,
{
    match &host.pem {
        Some(p) => AuthMethod::PubkeyFile(p.clone()),
        None => AuthMethod::Agent,
    }
}

/// The shell for `localhost`: the value of the `SHELL` environment
/// variable; with it unset, the command fails with `ShellNotFound`.
pub fn resolve_shell(shell_env: Option<String>) -> (r: Result<String, MusshErrKind>)
    ensures
        shell_env matches Some(s) ==> r == Ok::<String, MusshErrKind>(s),
        shell_env is None ==> r == Err::<String, MusshErrKind>(MusshErrKind::ShellNotFound),
{
    match shell_env {
        Some(s) => Ok(s),
        None => Err(MusshErrKind::ShellNotFound),
    }
}

/// A command passes exactly when its exit status is zero; any other exit
/// is a failure that carries no transport kind.
pub fn status_from_exit(code: i32) -> (r: CmdStatus)
    ensures
        code == 0 ==> r == CmdStatus::Passed,
        code != 0 ==> r == CmdStatus::Failed(None::<MusshErrKind>),
{
    if code == 0 {
        CmdStatus::Passed
    } else {
        CmdStatus::Failed(None)
    }
}

/// The failure kind for each SSH step: the connection and the handshake are
/// session failures, a refused key file or an exhausted agent is an
/// authentication failure, and everything after authentication is a channel
/// failure.
pub fn classify_ssh_failure(step: SshFailure) -> (r: MusshErrKind)
    ensures
        r == (match step {
            SshFailure::Connect => MusshErrKind::SshSession,
            SshFailure::Handshake => MusshErrKind::SshSession,
            SshFailure::Authentication => MusshErrKind::SshAuthentication,
            SshFailure::Channel => MusshErrKind::SshChannel,
        }),
{
    match step {
        SshFailure::Connect => MusshErrKind::SshSession,
        SshFailure::Handshake => MusshErrKind::SshSession,
        SshFailure::Authentication => MusshErrKind::SshAuthentication,
        SshFailure::Channel => MusshErrKind::SshChannel,
    }
}

/// The status a failed SSH step yields for its command.
pub fn status_from_ssh_failure(step: SshFailure) -> (r: CmdStatus)
    ensures
        r == CmdStatus::Failed(Some(
            match step {
                SshFailure::Connect => MusshErrKind::SshSession,
                SshFailure::Handshake => MusshErrKind::SshSession,
                SshFailure::Authentication => MusshErrKind::SshAuthentication,
                SshFailure::Channel => MusshErrKind::SshChannel,
            },
        )),
{
    CmdStatus::Failed(Some(classify_ssh_failure(step)))
}

/// A host worker walks its command list in order and stops early only when
/// the run was cancelled: one command's failure never silences the next.
pub fn continue_after(status: &CmdStatus) -> (r: bool)
    ensures
        r == !(status is Cancelled),
{
    match status {
        CmdStatus::Cancelled => false,
        _ => true,
    }
}

} // verus!
