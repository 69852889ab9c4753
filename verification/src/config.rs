//! The service configuration: the values the command line hands the server
//! before it starts.

use vstd::prelude::*;

verus! {

/// Configuration of the server: where it listens, whether the write-ahead
/// persistence log is enabled, and the password clients must present.
pub struct Configuration {
    /// The server's TCP port.
    pub port: u16,
    /// Whether the persistence log is written and replayed.
    pub persist: bool,
    /// The password a client must present with each request.
    pub password: String,
}

impl Configuration {
    /// A configuration holding exactly the given values.
    pub fn new(port: u16, persist: bool, password: String) -> (c: Configuration)
        ensures
            c.port == port,
            c.persist == persist,
            c.password == password,
    {
        Configuration { port, persist, password }
    }
}

} // verus!
