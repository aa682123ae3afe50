//! The read-only endpoints of the web server that the management client
//! asks.

use vstd::prelude::*;
use vstd::string::StringExecFns;

verus! {

/// One of the server's four endpoints.
#[derive(Clone, Copy, Debug, PartialEq, Eq)]
pub enum Endpoint {
    /// Whether the server is healthy.
    Health,
    /// The server's status.
    Status,
    /// Information about the server.
    Info,
    /// The server's metrics, as plain text.
    Metrics,
}

impl Endpoint {
    /// The endpoint's path below the base address.
    pub open spec fn path_text(self) -> Seq<char> {
        match self {
            Endpoint::Health => "/health"@,
            Endpoint::Status => "/api/v1/status"@,
            Endpoint::Info => "/api/v1/info"@,
            Endpoint::Metrics => "/metrics"@,
        }
    }

    /// The endpoint's path below the base address.
    pub fn path(self) -> (p: &'static str)
        ensures
            p@ == self.path_text(),
    {
        match self {
            Endpoint::Health => "/health",
            Endpoint::Status => "/api/v1/status",
            Endpoint::Info => "/api/v1/info",
            Endpoint::Metrics => "/metrics",
        }
    }

    /// The address to ask: the base address with the path behind it, and
    /// nothing between them or after.
    pub fn url(self, base: &str) -> (address: String)
        ensures
            address@ == base@ + self.path_text(),
    {
        let mut address = String::from_str(base);
        address.append(self.path());
        address
    }

    /// Whether the answer's body is JSON; the metrics are plain text.
    pub fn answers_json(self) -> (json: bool)
        ensures
            json == !(self is Metrics),
    {
        match self {
            Endpoint::Metrics => false,
            _ => true,
        }
    }
}

} // verus!
