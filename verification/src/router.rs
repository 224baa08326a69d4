//! Agent references that can cross process boundaries.
//!
//! An agent path distinguishes an agent living in this process from one
//! owned by a process reachable at a network address.  The engine defines
//! the local side fully; resolving a remote path is a request/response
//! call the embedding process makes over its transport, with the
//! [`Router`] carrying the address to dial.

use vstd::prelude::*;
use crate::simulation::{Agent, Codable};
use crate::population::{LocalPopulation, find_agent};

verus! {

/// A reference to an agent: in this process, or behind a network address.
pub enum AgentPath {
    Local(u64),
    Remote(u64, String),
}

/// The request/response endpoint that resolves agents living on other
/// processes.  Serving requests and dialling peers is transport work the
/// embedding process performs; the engine only carries the address.
pub struct Router {
    pub addr: String,
}

impl Router {
    pub fn new(addr: String) -> (r: Router)
        ensures
            r.addr == addr,
    {
        Router { addr }
    }
}

/// Resolve a path against this process's population: a `Local` id is
/// looked up directly; a `Remote` reference is not this process's to
/// answer, so the lookup reports nothing and the caller turns to its
/// router.
pub fn resolve_local<S: Codable>(path: &AgentPath, population: &LocalPopulation<S>) -> (r: Option<
    Agent<S>,
>)
    ensures
        match *path {
            AgentPath::Local(id) => match r {
                Some(a) => find_agent(population@, id) == Some(a@) && a@.id == id,
                None => find_agent(population@, id) is None,
            },
            AgentPath::Remote(_, _) => r is None,
        },
{
    match path {
        AgentPath::Local(id) => population.get(*id),
        AgentPath::Remote(_, _) => None,
    }
}

} // verus!
