//! The data-model contracts of the engine: agents, the value traits their
//! states and updates satisfy, and the [`Simulation`] policy trait.
//!
//! A single simulation step consists of two synchronized phases:
//! 1. decide: a read-only phase in which agents decide on what updates to
//!    apply.  The updates themselves are not applied in this phase.
//! 2. update: a phase in which each agent folds its queued updates into a
//!    new state.

use vstd::prelude::*;
use crate::population::LocalPopulation;

verus! {

/// A value type that can cross the engine's serialization boundary: it has
/// a deep copy, a byte encoding and a decoding that inverts the encoding.
pub trait Codable: View + Sized {
    /// The abstract values the executable type can actually hold — for
    /// example, strings whose length fits the encoding's length prefix.
    /// Every value observed through an executable call satisfies this.
    spec fn wf_value(v: Self::V) -> bool;

    /// The byte encoding of an abstract value.
    spec fn spec_encode(v: Self::V) -> Seq<u8>;

    /// The abstract value a byte blob decodes to, if any.
    spec fn spec_decode(bytes: Seq<u8>) -> Option<Self::V>;

    /// Law: decoding an encoded value yields the value again.
    proof fn lemma_round_trip(v: Self::V)
        requires
            Self::wf_value(v),
        ensures
            Self::spec_decode(Self::spec_encode(v)) == Some(v),
    ;

    fn encode(&self) -> (r: Vec<u8>)
        ensures
            r@ == Self::spec_encode(self@),
            Self::wf_value(self@),
    ;

    fn decode(bytes: &[u8]) -> (r: Option<Self>)
        ensures
            match r {
                Some(v) => Self::spec_decode(bytes@) == Some(v@) && Self::wf_value(v@),
                None => Self::spec_decode(bytes@) is None,
            },
    ;

    /// A deep copy: a snapshot with the same abstract value.
    fn dup(&self) -> (r: Self)
        ensures
            r@ == self@,
    ;
}

/// Agent state values: anything the engine can copy, compare in
/// specifications, and move through the shared store.
pub trait State: Codable {

}

impl<T: Codable> State for T {

}

/// Update values: one discrete state transition, opaque to the engine.
pub trait Update: Codable {

}

impl<T: Codable> Update for T {

}

/// World values: shared read-only data each agent sees during a step.
pub trait World: Codable {

}

impl<T: Codable> World for T {

}

/// An agent is a unique id paired with a state value.
pub struct Agent<S> {
    pub id: u64,
    pub state: S,
}

/// The abstract value of an agent: its id and its state's abstract value.
pub struct AgentView<V> {
    pub id: u64,
    pub state: V,
}

impl<S: View> View for Agent<S> {
    type V = AgentView<S::V>;

    open spec fn view(&self) -> AgentView<S::V> {
        AgentView { id: self.id, state: self.state@ }
    }
}

/// The abstract values of a sequence of agents.
pub open spec fn agents_view<S: View>(agents: Seq<Agent<S>>) -> Seq<AgentView<S::V>> {
    agents.map_values(|a: Agent<S>| a@)
}

/// The abstract value of a sequence of (target id, update) pairs.
pub open spec fn pairs_view<U: View>(pairs: Seq<(u64, U)>) -> Seq<(u64, U::V)> {
    pairs.map_values(|p: (u64, U)| (p.0, p.1@))
}

/// The abstract value of a sequence of updates.
pub open spec fn updates_view<U: View>(updates: Seq<U>) -> Seq<U::V> {
    updates.map_values(|u: U| u@)
}

/// The policy object: what an agent decides, and how an update is folded
/// into a state.  Implementations define the main logic of a simulation.
pub trait Simulation: Sized {
    type State: State;
    type Update: Update;
    type World: World;

    /// What folding one update into a state yields, as a mathematical
    /// function of the two values: `apply_update` must be pure.
    spec fn spec_apply(
        &self,
        state: <Self::State as View>::V,
        update: <Self::Update as View>::V,
    ) -> <Self::State as View>::V;

    /// The (target id, update) pairs one agent emits in the decide phase,
    /// as a mathematical function of the agent, the world and the
    /// population snapshot: `decide` must be read-only and deterministic.
    spec fn spec_decide(
        &self,
        agent: AgentView<<Self::State as View>::V>,
        world: <Self::World as View>::V,
        population: Seq<AgentView<<Self::State as View>::V>>,
    ) -> Seq<(u64, <Self::Update as View>::V)>;

    /// Compute the new state after one update.
    fn apply_update(&self, state: Self::State, update: &Self::Update) -> (r: Self::State)
        ensures
            r@ == self.spec_apply(state@, update@),
    ;

    /// Compute updates for this agent and/or other agents.  Read-only: the
    /// population is borrowed immutably for the whole decide phase.
    fn decide(
        &self,
        agent: &Agent<Self::State>,
        world: &Self::World,
        population: &LocalPopulation<Self::State>,
    ) -> (r: Vec<(u64, Self::Update)>)
        ensures
            pairs_view(r@) == self.spec_decide(agent@, world@, population@),
    ;

    /// What folding a whole queue of updates into a state yields.  The
    /// law [`Simulation::lemma_update_is_fold`] pins this down to the left
    /// fold of [`Simulation::spec_apply`] over the queue's order.
    spec fn spec_update(
        &self,
        state: <Self::State as View>::V,
        updates: Seq<<Self::Update as View>::V>,
    ) -> <Self::State as View>::V;

    /// Law: folding a queue of updates applies them one at a time, left to
    /// right, and folding an empty queue leaves the state unchanged.
    /// Every implementation must prove this of its `spec_update`, which
    /// determines it uniquely as the left fold of `spec_apply`.
    proof fn lemma_update_is_fold(
        &self,
        state: <Self::State as View>::V,
        updates: Seq<<Self::Update as View>::V>,
    )
        ensures
            updates.len() == 0 ==> self.spec_update(state, updates) == state,
            updates.len() > 0 ==> self.spec_update(state, updates) == self.spec_update(
                self.spec_apply(state, updates[0]),
                updates.drop_first(),
            ),
    ;

    /// Compute a final updated state given a starting state and queued
    /// updates: the left fold of `apply_update` over the queue's order.
    /// An implementation may batch differently, but must still meet this
    /// contract; in particular an empty update list leaves the state
    /// unchanged.
    fn update(&self, state: Self::State, updates: &Vec<Self::Update>) -> (r: Self::State)
        ensures
            r@ == self.spec_update(state@, updates_view(updates@)),
    ;
}

/// The left fold of `spec_apply` over a sequence of updates.
pub open spec fn spec_fold<S: Simulation>(
    sim: &S,
    state: <S::State as View>::V,
    updates: Seq<<S::Update as View>::V>,
) -> <S::State as View>::V
    decreases updates.len(),
{
    if updates.len() == 0 {
        state
    } else {
        spec_fold(sim, sim.spec_apply(state, updates[0]), updates.drop_first())
    }
}

/// Law: for any sequence of updates applied to a state, `spec_update` is
/// exactly repeated application of `spec_apply`, one update at a time, in
/// the queue's order; applied to the empty sequence it leaves the state
/// unchanged.
pub proof fn lemma_update_matches_fold<S: Simulation>(
    sim: &S,
    state: <S::State as View>::V,
    updates: Seq<<S::Update as View>::V>,
)
    ensures
        sim.spec_update(state, updates) == spec_fold(sim, state, updates),
        sim.spec_update(state, Seq::<<S::Update as View>::V>::empty()) == state,
        spec_fold(sim, state, Seq::<<S::Update as View>::V>::empty()) == state,
    decreases updates.len(),
{
    sim.lemma_update_is_fold(state, updates);
    sim.lemma_update_is_fold(state, Seq::<<S::Update as View>::V>::empty());
    if updates.len() > 0 {
        lemma_update_matches_fold(sim, sim.spec_apply(state, updates[0]), updates.drop_first());
    }
}

/// Law: folding a queue extended by one more update is folding the queue,
/// then applying the extra update.
pub proof fn lemma_fold_unrolls<S: Simulation>(
    sim: &S,
    state: <S::State as View>::V,
    updates: Seq<<S::Update as View>::V>,
    u: <S::Update as View>::V,
)
    ensures
        spec_fold(sim, state, updates.push(u)) == sim.spec_apply(
            spec_fold(sim, state, updates),
            u,
        ),
    decreases updates.len(),
{
    if updates.len() == 0 {
        assert(updates.push(u)[0] == u);
        assert(updates.push(u).drop_first() =~= Seq::<<S::Update as View>::V>::empty());
        assert(spec_fold(sim, state, updates) == state);
        assert(spec_fold(sim, state, updates.push(u)) == spec_fold(
            sim,
            sim.spec_apply(state, u),
            updates.push(u).drop_first(),
        ));
        assert(spec_fold(
            sim,
            sim.spec_apply(state, u),
            Seq::<<S::Update as View>::V>::empty(),
        ) == sim.spec_apply(state, u));
    } else {
        assert(updates.push(u)[0] == updates[0]);
        assert(updates.push(u).drop_first() =~= updates.drop_first().push(u));
        lemma_fold_unrolls(sim, sim.spec_apply(state, updates[0]), updates.drop_first(), u);
        assert(spec_fold(sim, state, updates.push(u)) == spec_fold(
            sim,
            sim.spec_apply(state, updates[0]),
            updates.drop_first().push(u),
        ));
    }
}

} // verus!
