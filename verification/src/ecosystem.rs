//! Agents of a multi-agent ecosystem.
use vstd::prelude::*;

verus! {

/// The role an agent plays in the ecosystem.
#[derive(Debug, Clone, Copy, PartialEq, Eq, Structural)]
pub enum AgentType {
    /// runs levers (execution)
    Execution,
    /// keeps state (memory)
    Memory,
    /// reasons (intelligence)
    Intelligence,
    /// carries a git-native identity
    Identity,
}

} // verus!
