//! An agent-based simulation engine.
//!
//! A population of agents, each an id paired with a state value, advances
//! through discrete synchronized steps.  Every step has two phases: a
//! read-only decide phase in which each agent computes intended state
//! changes (updates) without observing anyone's in-progress changes, and an
//! apply phase in which the queued updates are folded into each agent's
//! state.  The engine runs this protocol either in one process
//! ([`manager::LocalManager`]) or spread over worker processes that
//! coordinate through a shared store ([`distributed`]).

pub mod codec;
pub mod simulation;
pub mod population;
pub mod example;
pub mod manager;
pub mod store;
pub mod distributed;
pub mod router;
