//! The launcher's configuration: the selected client, the installed
//! clients and the decompiler in use.
use vstd::prelude::*;
use vstd::string::*;

verus! {

/// An installed client and its version.
#[derive(Clone, Debug)]
pub struct Client {
    pub name: String,
    pub version: String,
}

/// The launcher's configuration.
#[derive(Clone, Debug)]
pub struct Config {
    pub client: Option<String>,
    pub clients: Vec<Client>,
    pub decompiler: String,
}

impl Config {
    /// The configuration written when none exists yet: no client selected,
    /// none installed, and the `medal` decompiler.
    pub fn initial() -> (r: Config)
        ensures
            r.client is None,
            r.clients@.len() == 0,
            r.decompiler@ == "medal"@,
    {
        Config { client: None, clients: Vec::new(), decompiler: String::from_str("medal") }
    }
}

} // verus!
