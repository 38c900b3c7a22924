//! Port-mapped input and output.

use vstd::prelude::*;

verus! {

/// An I/O port, by its number.
#[derive(Debug, Clone, Copy, PartialEq, Eq, Structural)]
pub struct IOPort(u16);

impl IOPort {
    /// The number of the port, in contracts.
    pub closed spec fn spec_port(&self) -> u16 {
        self.0
    }

    /// The port with number `port`.
    pub fn new(port: u16) -> (io: Self)
        ensures
            io.port() == port,
    {
        Self(port)
    }

    /// The number of the port.
    #[verifier::when_used_as_spec(spec_port)]
    pub fn port(&self) -> (port: u16)
        ensures
            port == self.port(),
    {
        self.0
    }
}

} // verus!
