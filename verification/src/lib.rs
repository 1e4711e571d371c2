//! Discovery and termination of processes listening on local TCP ports.
//!
//! The library contains the verified core of a port-conflict helper:
//! parsing the output of the system socket-listing tool into structured
//! records, planning a batched termination request for a set of process
//! identifiers, and a fixed catalog of ports that common development
//! servers bind. Spawning the external tools themselves is left to the
//! (unverified) host around this crate; the host hands the captured
//! output text in and receives plain values back.

pub mod catalog;
pub mod parse;
pub mod terminate;
