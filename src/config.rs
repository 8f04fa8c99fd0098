//! Settings of the agent-facing service, loaded once at start.

use vstd::prelude::*;

verus! {

/// The service's whole configuration.
#[derive(Debug)]
pub struct ServerToml {
    pub server: Server,
    pub agent: Agent,
}

/// Where the service listens.
#[derive(Debug)]
pub struct Server {
    pub addr: String,
}

/// Timing of the agents' sessions.
#[derive(Debug)]
pub struct Agent {
    /// Seconds between two heartbeats of an agent.
    pub heartbeat_delay: i32,
    /// Seconds a presence entry lives without contact.
    pub offline_ex: i64,
}

impl Agent {
    /// The presence time to live in seconds; none when the setting is negative.
    pub fn presence_ttl(&self) -> (r: Option<u64>)
        ensures
            self.offline_ex < 0 ==> r is None,
            self.offline_ex >= 0 ==> r == Some(self.offline_ex as u64),
    {
        if self.offline_ex < 0 {
            None
        } else {
            Some(self.offline_ex as u64)
        }
    }
}

} // verus!
