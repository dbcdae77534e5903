//! The application's configuration parameters.
//!
//! They are gathered at the process edge — command line or environment —
//! and handed in as plain values; nothing in the core reads the
//! environment itself.

use vstd::prelude::*;

verus! {

/// The logging verbosity levels the application accepts.
#[derive(Clone, Copy, Debug, PartialEq, Eq, Structural)]
pub enum Level {
    Error,
    Warn,
    Info,
    Debug,
    Trace,
}

/// The configuration parameters for the application: the logging level,
/// the host address to bind on, and the port the server listens on.
pub struct Config {
    pub log: Level,
    pub host: String,
    pub port: i32,
}

impl Config {
    /// Bundles the parameters.
    pub fn new(log: Level, host: String, port: i32) -> (c: Config)
        ensures
            c.log == log,
            c.host@ == host@,
            c.port == port,
    {
        Config { log, host, port }
    }
}

} // verus!
