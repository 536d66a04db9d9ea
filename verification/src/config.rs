//! The serving configuration derived from the resolved arguments.

use vstd::prelude::*;

use crate::args::Args;

verus! {

/// What the serving layer needs: the bind address and port, and whether
/// the HTTP interface runs.
#[derive(Debug, Clone)]
pub struct Config {
    pub host: String,
    pub port: u16,
    pub http: bool,
}

impl From<Args> for Config {
    fn from(args: Args) -> (r: Config) {
        Config { host: args.host, port: args.port, http: args.http }
    }
}

impl vstd::std_specs::convert::FromSpecImpl<Args> for Config {
    open spec fn obeys_from_spec() -> bool {
        true
    }

    open spec fn from_spec(args: Args) -> Config {
        Config { host: args.host, port: args.port, http: args.http }
    }
}

} // verus!
