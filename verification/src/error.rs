//! The error taxonomy: every failure the library reports falls under one of
//! these kinds.  Startup kinds abort a run; the per-outcome kinds are carried
//! inside an `Outcome` and never abort the run.

use vstd::prelude::*;

verus! {

/// The kind of a failure.
#[derive(Clone, Copy, Debug, PartialEq, Eq, Structural)]
pub enum MusshErrKind {
    /// No configuration file could be found.
    ConfigMissing,
    /// A configuration file was found but could not be understood.
    ConfigInvalid,
    /// The selection yielded no (host, command) pair at all.
    SelectionEmpty,
    /// `localhost` execution was requested but no shell is known.
    ShellNotFound,
    /// The SSH session could not be established.
    SshSession,
    /// Authentication against the SSH server failed.
    SshAuthentication,
    /// The SSH channel failed after authentication.
    SshChannel,
    /// A read or write failed.
    IoError,
    /// The run was cancelled before this command finished.
    Cancelled,
    /// A worker ended abnormally.
    Internal,
}

impl MusshErrKind {
    /// The text that `describe` returns for each kind.
    pub open spec fn describe_spec(self) -> Seq<char> {
        match self {
            MusshErrKind::ConfigMissing => "configuration file missing"@,
            MusshErrKind::ConfigInvalid => "configuration file invalid"@,
            MusshErrKind::SelectionEmpty => "no host/command pairs selected"@,
            MusshErrKind::ShellNotFound => "no shell found for localhost"@,
            MusshErrKind::SshSession => "ssh session failure"@,
            MusshErrKind::SshAuthentication => "ssh authentication failure"@,
            MusshErrKind::SshChannel => "ssh channel failure"@,
            MusshErrKind::IoError => "i/o failure"@,
            MusshErrKind::Cancelled => "cancelled"@,
            MusshErrKind::Internal => "internal failure"@,
        }
    }

    /// A short, fixed description of the kind.
    pub fn describe(&self) -> (r: &'static str)
        ensures
            r@ == self.describe_spec(),
    {
        match self {
            MusshErrKind::ConfigMissing => "configuration file missing",
            MusshErrKind::ConfigInvalid => "configuration file invalid",
            MusshErrKind::SelectionEmpty => "no host/command pairs selected",
            MusshErrKind::ShellNotFound => "no shell found for localhost",
            MusshErrKind::SshSession => "ssh session failure",
            MusshErrKind::SshAuthentication => "ssh authentication failure",
            MusshErrKind::SshChannel => "ssh channel failure",
            MusshErrKind::IoError => "i/o failure",
            MusshErrKind::Cancelled => "cancelled",
            MusshErrKind::Internal => "internal failure",
        }
    }
}

} // verus!
