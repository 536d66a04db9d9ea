//! Process arguments: the raw optional values handed in from the command
//! line, and the resolved settings with their documented defaults.

use vstd::prelude::*;

verus! {

/// Arguments as parsed, before defaults are applied.
#[derive(Debug, Clone)]
pub struct RawArgs {
    pub db_path: Option<String>,
    pub host: Option<String>,
    pub port: Option<u16>,
    pub http: bool,
}

/// Resolved settings: database directory, bind address and port, and
/// whether the HTTP interface runs.
#[derive(Debug, Clone)]
pub struct Args {
    pub db_path: String,
    pub host: String,
    pub port: u16,
    pub http: bool,
}

impl RawArgs {
    /// Resolve the settings, filling absent values with the defaults.
    pub fn populate(self) -> (r: Args)
        ensures
            r.db_path@ == (match self.db_path {
                Some(p) => p@,
                None => "./default.db"@,
            }),
            r.host@ == (match self.host {
                Some(h) => h@,
                None => "127.0.0.1"@,
            }),
            r.port == (match self.port {
                Some(p) => p,
                None => 4040u16,
            }),
            r.http == self.http,
    {
        Args {
            db_path: match self.db_path {
                Some(p) => p,
                None => "./default.db".to_owned(),
            },
            host: match self.host {
                Some(h) => h,
                None => "127.0.0.1".to_owned(),
            },
            port: match self.port {
                Some(p) => p,
                None => 4040,
            },
            http: self.http,
        }
    }
}

impl Default for Args {
    /// The documented defaults: `./default.db`, `127.0.0.1`, port 4040,
    /// HTTP on.
    fn default() -> (r: Self)
        ensures
            r.db_path@ == "./default.db"@,
            r.host@ == "127.0.0.1"@,
            r.port == 4040,
            r.http == true,
    {
        Args {
            db_path: "./default.db".to_owned(),
            host: "127.0.0.1".to_owned(),
            port: 4040,
            http: true,
        }
    }
}

impl Args {
    /// The database directory.
    pub fn db_path(&self) -> (r: &String)
        ensures
            r@ == self.db_path@,
    {
        &self.db_path
    }

    /// The bind address.
    pub fn host(&self) -> (r: &str)
        ensures
            r@ == self.host@,
    {
        self.host.as_str()
    }

    /// The bind port.
    pub fn port(&self) -> (r: u16)
        ensures
            r == self.port,
    {
        self.port
    }

    /// Whether the HTTP interface runs.
    pub fn http(&self) -> (r: bool)
        ensures
            r == self.http,
    {
        self.http
    }
}

} // verus!
