//! Verified core of an SSH command multiplexer.
//!
//! A configuration names hosts, host groups and commands.  The selection
//! resolver turns host and command tokens into an execution plan, honouring
//! group expansion, `!` exclusions and per-host command aliases.  The
//! multiplexer turns a plan and the per-command transport reports into timed
//! outcomes, with a barrier between the sync cohort and the remaining hosts.
//! Everything that decides or computes lives here; the unverified binary
//! around this crate only performs I/O and hands plain values in and out.

pub mod codec;
pub mod config;
pub mod error;
pub mod logfmt;
pub mod multiplex;
pub mod selection;
pub mod transport;
pub mod util;
