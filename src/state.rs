//! Lifecycle state of an agent as the durable store records it.

use vstd::prelude::*;

verus! {

/// Whether the durable store considers an agent reachable.
#[derive(Clone, Copy, Debug, PartialEq, Eq, Structural)]
pub enum AgentState {
    Online,
    Offline,
}

/// The text under which a lifecycle state is stored.
pub open spec fn state_name(s: AgentState) -> Seq<char> {
    match s {
        AgentState::Online => seq!['O', 'n', 'l', 'i', 'n', 'e'],
        AgentState::Offline => seq!['O', 'f', 'f', 'l', 'i', 'n', 'e'],
    }
}

impl AgentState {
    /// The stored text of this state: `Online` or `Offline`.
    pub fn to_string(&self) -> (r: String)
        ensures
            r@ == state_name(*self),
    {
        match self {
            AgentState::Online => {
                let r = "Online".to_string();
                proof {
                    reveal_strlit("Online");
                }
                assert(r@ =~= state_name(*self));
                r
            },
            AgentState::Offline => {
                let r = "Offline".to_string();
                proof {
                    reveal_strlit("Offline");
                }
                assert(r@ =~= state_name(*self));
                r
            },
        }
    }
}

} // verus!
