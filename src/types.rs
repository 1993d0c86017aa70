//! Plain records: index-wide statistics and service configuration.

use vstd::prelude::*;

verus! {

/// Index-wide statistics: the format version and the number of documents.
pub struct Stats {
    pub version: String,
    pub total_docs: i32,
}

impl Stats {
    /// The statistics of an empty index: version `0.1.0`, no documents.
    pub fn new() -> (r: Stats)
        ensures
            r.version@ == "0.1.0"@,
            r.total_docs == 0,
    {
        Stats { version: "0.1.0".to_owned(), total_docs: 0 }
    }
}

/// Where the service listens and where its database lives.
pub struct Config {
    pub http_addr: String,
    pub database_path: String,
}

impl Config {
    /// The defaults: `127.0.0.1:4000` and `/tmp/rustysearch.db`.
    pub fn new() -> (r: Config)
        ensures
            r.http_addr@ == "127.0.0.1:4000"@,
            r.database_path@ == "/tmp/rustysearch.db"@,
    {
        Config {
            http_addr: "127.0.0.1:4000".to_owned(),
            database_path: "/tmp/rustysearch.db".to_owned(),
        }
    }
}

impl Default for Config {
    fn default() -> (r: Config)
        ensures
            r.http_addr@ == "127.0.0.1:4000"@,
            r.database_path@ == "/tmp/rustysearch.db"@,
    {
        Config::new()
    }
}

} // verus!
