use vstd::prelude::*;

verus! {

/// Which executor interface the server drives.
#[derive(PartialEq, Eq, Structural, Clone, Copy, Debug)]
pub enum ServerMode {
    Xeno,
    Generic,
}

/// The server's settings.
pub struct Args {
    /// Port to listen on.
    pub port: u16,
    /// Bind address.
    pub bind: String,
    /// Print every incoming log to standard output.
    pub console: bool,
    /// File that every incoming log is appended to.
    pub log_file: Option<String>,
    /// Shared secret that every changing request must carry.
    pub secret: Option<String>,
    /// Most log entries kept in memory.
    pub max_entries: usize,
    /// Base URL of the executor's local interface.
    pub xeno_url: String,
    pub mode: ServerMode,
    /// Directory where the server writes scripts for the executor.
    pub exchange_dir: String,
    /// The exchange directory as the executor's file system names it.
    pub executor_exchange_dir: Option<String>,
    /// Directory of the stored scan data.
    pub storage_dir: String,
}

} // verus!
