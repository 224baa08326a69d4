//! The distributed realization: population and pending updates live in a
//! shared store; workers coordinate through phase-membership sets.
//!
//! The store holds per-agent encoded state (keyed by id), a `population`
//! membership set, the two phase sets `to_decide` and `to_update`,
//! per-agent pending-update lists, and one world slot.  Each agent id
//! cycles forever: `to_decide` → (decide executed) → `to_update` →
//! (update executed) → `to_decide` → …  A worker repeatedly pops an id
//! ready for the current sub-phase, executes the phase logic, and
//! republishes the id into the next phase's set; the barrier between
//! sub-phases holds once the count of ids that finished the phase equals
//! the population count.

use vstd::prelude::*;
use core::marker::PhantomData;
use crate::simulation::{Agent, AgentView, Codable, Simulation, pairs_view, updates_view, agents_view};
use crate::population::{LocalPopulation, random_u64};
use crate::store::{Store, StoreView, KvMap, list_push, kv_as_map, lemma_kv_index_at};

verus! {

// ---------------------------------------------------------------------------
// Store well-formedness for a given simulation's types
// ---------------------------------------------------------------------------

/// Every stored state blob decodes, and the population set tracks exactly
/// the ids that have a state.
pub open spec fn states_ok<S: Codable>(sv: StoreView) -> bool {
    &&& sv.population == sv.states.dom()
    &&& forall|id: u64| #[trigger]
        sv.states.dom().contains(id) ==> S::spec_decode(sv.states[id]) is Some
}

/// Every queued update blob decodes.
pub open spec fn updates_ok<U: Codable>(sv: StoreView) -> bool {
    forall|id: u64, j: int| #![auto]
        sv.updates.dom().contains(id) && 0 <= j < sv.updates[id].len() ==> U::spec_decode(
            sv.updates[id][j],
        ) is Some
}

/// The world slot decodes.
pub open spec fn world_ok<W: Codable>(sv: StoreView) -> bool {
    W::spec_decode(sv.world) is Some
}

/// Everything a worker relies on of the store's contents.
pub open spec fn store_ok<Sim: Simulation>(sv: StoreView) -> bool {
    &&& states_ok::<Sim::State>(sv)
    &&& updates_ok::<Sim::Update>(sv)
    &&& world_ok::<Sim::World>(sv)
}

/// Between sub-phases (and when no spawn or kill races a round), every
/// population member sits in exactly one phase set, and the phase sets
/// hold no stale ids.
pub open spec fn phase_clean(sv: StoreView) -> bool {
    &&& sv.to_decide.disjoint(sv.to_update)
    &&& sv.population == sv.to_decide.union(sv.to_update)
}

// ---------------------------------------------------------------------------
// The distributed population
// ---------------------------------------------------------------------------

/// The population as stored in the shared store.
pub struct DistPopulation<S: Codable> {
    pub store: Store,
    pub state_type: PhantomData<S>,
}

impl<S: Codable> DistPopulation<S> {
    pub open spec fn wf(&self) -> bool {
        &&& self.store.wf()
        &&& states_ok::<S>(self.store@)
    }

    pub fn new() -> (r: Self)
        ensures
            r.wf(),
            r.store@.states == Map::<u64, Seq<u8>>::empty(),
            r.store@.updates == Map::<u64, Seq<Seq<u8>>>::empty(),
            r.store@.population == Set::<u64>::empty(),
            r.store@.to_decide == Set::<u64>::empty(),
            r.store@.to_update == Set::<u64>::empty(),
            r.store@.world == Seq::<u8>::empty(),
    {
        let r = DistPopulation { store: Store::new(), state_type: PhantomData };
        proof {
            assert(r.store@.population =~= r.store@.states.dom());
        }
        r
    }

    /// Create a new agent under a freshly drawn random id and return the
    /// id.  The state is encoded and stored, the id joins `population` and
    /// `to_update` (a new agent first participates from the apply
    /// sub-phase, beginning life with a no-op fold), and any stale
    /// `to_decide` entry under the same id is cleared, so that even a
    /// colliding draw leaves each id in at most one phase set.
    pub fn spawn(&mut self, state: S) -> (id: u64)
        requires
            old(self).wf(),
        ensures
            final(self).wf(),
            final(self).store@.states == old(self).store@.states.insert(
                id,
                S::spec_encode(state@),
            ),
            final(self).store@.population == old(self).store@.population.insert(id),
            final(self).store@.to_update == old(self).store@.to_update.insert(id),
            final(self).store@.to_decide == old(self).store@.to_decide.remove(id),
            final(self).store@.updates == old(self).store@.updates,
            final(self).store@.world == old(self).store@.world,
            phase_clean(old(self).store@) ==> phase_clean(final(self).store@),
    {
        let id = random_u64();
        let ghost sv = state@;
        let blob = state.encode();
        proof {
            S::lemma_round_trip(sv);
            assert(blob.deep_view() =~= blob@);
        }
        self.store.states.set(id, blob);
        self.store.population.add(id);
        self.store.to_decide.remove(id);
        self.store.to_update.add(id);
        proof {
            assert(self.store@.population =~= self.store@.states.dom());
            if phase_clean(old(self).store@) {
                assert(self.store@.to_decide.disjoint(self.store@.to_update));
                assert(self.store@.population =~= self.store@.to_decide.union(
                    self.store@.to_update,
                ));
            }
        }
        id
    }

    /// Get an agent by id: load and decode its stored state.
    pub fn get(&self, id: u64) -> (r: Option<Agent<S>>)
        requires
            self.wf(),
        ensures
            match r {
                Some(a) => a.id == id && self.store@.states.dom().contains(id)
                    && S::spec_decode(self.store@.states[id]) == Some(a.state@),
                None => !self.store@.states.dom().contains(id),
            },
    {
        match self.store.states.get(id) {
            Some(blob) => {
                proof {
                    assert(blob.deep_view() =~= blob@);
                }
                match S::decode(blob.as_slice()) {
                    Some(state) => Some(Agent { id, state }),
                    None => unreached(),
                }
            },
            None => None,
        }
    }

    /// Delete an agent by id: remove its state and its population
    /// membership.  Pending phase-set entries and queued updates are left
    /// behind; a worker meeting such an id treats the missing agent as a
    /// no-op.
    pub fn kill(&mut self, id: u64)
        requires
            old(self).wf(),
        ensures
            final(self).wf(),
            final(self).store@.states == old(self).store@.states.remove(id),
            final(self).store@.population == old(self).store@.population.remove(id),
            final(self).store@.to_decide == old(self).store@.to_decide,
            final(self).store@.to_update == old(self).store@.to_update,
            final(self).store@.updates == old(self).store@.updates,
            final(self).store@.world == old(self).store@.world,
    {
        self.store.states.del(id);
        self.store.population.remove(id);
        proof {
            assert(self.store@.population =~= self.store@.states.dom());
        }
    }
}

// ---------------------------------------------------------------------------
// The distributed manager
// ---------------------------------------------------------------------------

/// The coordinating side: owns the store bootstrap and the world slot.
pub struct DistManager<S: Simulation> {
    pub population: DistPopulation<S::State>,
}

impl<S: Simulation> DistManager<S> {
    pub open spec fn wf(&self) -> bool {
        &&& self.population.wf()
        &&& world_ok::<S::World>(self.population.store@)
    }

    /// Set up an empty store with the encoded world in its world slot.
    pub fn new(world: S::World) -> (r: Self)
        ensures
            r.wf(),
            r.population.store@.world == <S::World as Codable>::spec_encode(world@),
            r.population.store@.states == Map::<u64, Seq<u8>>::empty(),
            r.population.store@.updates == Map::<u64, Seq<Seq<u8>>>::empty(),
            r.population.store@.population == Set::<u64>::empty(),
            r.population.store@.to_decide == Set::<u64>::empty(),
            r.population.store@.to_update == Set::<u64>::empty(),
    {
        let ghost wv = world@;
        let mut population = DistPopulation::<S::State>::new();
        let blob = world.encode();
        proof {
            <S::World as Codable>::lemma_round_trip(wv);
        }
        population.store.world = blob;
        DistManager { population }
    }

    /// Replace the world value; the coordinating process may refresh it
    /// between steps.
    pub fn set_world(&mut self, world: S::World)
        requires
            old(self).wf(),
        ensures
            final(self).wf(),
            final(self).population.store@.world == <S::World as Codable>::spec_encode(world@),
            final(self).population.store.states == old(self).population.store.states,
            final(self).population.store.updates == old(self).population.store.updates,
            final(self).population.store.population == old(self).population.store.population,
            final(self).population.store.to_decide == old(self).population.store.to_decide,
            final(self).population.store.to_update == old(self).population.store.to_update,
    {
        let ghost wv = world@;
        let blob = world.encode();
        proof {
            <S::World as Codable>::lemma_round_trip(wv);
        }
        self.population.store.world = blob;
    }

    /// Read the current world value back from the store.
    pub fn world(&self) -> (r: S::World)
        requires
            self.wf(),
        ensures
            <S::World as Codable>::spec_decode(self.population.store@.world) == Some(r@),
    {
        match <S::World as Codable>::decode(self.population.store.world.as_slice()) {
            Some(w) => w,
            None => unreached(),
        }
    }
}

// ---------------------------------------------------------------------------
// What the two sub-phases do to the store, as mathematical functions
// ---------------------------------------------------------------------------

/// The population snapshot a worker reads out of the store's state slots,
/// in storage order.
pub open spec fn spec_snapshot<S: Codable>(entries: Seq<(u64, Vec<u8>)>) -> Seq<AgentView<S::V>> {
    entries.map_values(
        |e: (u64, Vec<u8>)| AgentView { id: e.0, state: S::spec_decode(e.1@).unwrap() },
    )
}

/// The pending-update map after publishing one decided agent's emitted
/// pairs: each update is encoded and appended to its target's list.
pub open spec fn push_encoded<U: Codable>(
    updates: Map<u64, Seq<Seq<u8>>>,
    pairs: Seq<(u64, U::V)>,
) -> Map<u64, Seq<Seq<u8>>>
    decreases pairs.len(),
{
    if pairs.len() == 0 {
        updates
    } else {
        push_encoded::<U>(
            list_push(updates, pairs[0].0, U::spec_encode(pairs[0].1)),
            pairs.drop_first(),
        )
    }
}

/// The pending-update map after one id's decide sub-phase step: a missing
/// agent is a no-op; otherwise its decide runs against the snapshot and
/// the world, and everything it emits is published.
pub open spec fn decide_one<Sim: Simulation>(
    sim: Sim,
    world: <Sim::World as View>::V,
    snap: Seq<AgentView<<Sim::State as View>::V>>,
    states: Map<u64, Seq<u8>>,
    updates: Map<u64, Seq<Seq<u8>>>,
    id: u64,
) -> Map<u64, Seq<Seq<u8>>> {
    if states.dom().contains(id) {
        let agent = AgentView {
            id,
            state: <Sim::State as Codable>::spec_decode(states[id]).unwrap(),
        };
        push_encoded::<Sim::Update>(updates, sim.spec_decide(agent, world, snap))
    } else {
        updates
    }
}

/// The pending-update map after a decide sub-phase that handled the given
/// ids in the given order.
pub open spec fn decide_fold<Sim: Simulation>(
    sim: Sim,
    world: <Sim::World as View>::V,
    snap: Seq<AgentView<<Sim::State as View>::V>>,
    states: Map<u64, Seq<u8>>,
    updates: Map<u64, Seq<Seq<u8>>>,
    order: Seq<u64>,
) -> Map<u64, Seq<Seq<u8>>>
    decreases order.len(),
{
    if order.len() == 0 {
        updates
    } else {
        decide_fold(
            sim,
            world,
            snap,
            states,
            decide_one(sim, world, snap, states, updates, order[0]),
            order.drop_first(),
        )
    }
}

proof fn lemma_decide_fold_append<Sim: Simulation>(
    sim: Sim,
    world: <Sim::World as View>::V,
    snap: Seq<AgentView<<Sim::State as View>::V>>,
    states: Map<u64, Seq<u8>>,
    updates: Map<u64, Seq<Seq<u8>>>,
    a: Seq<u64>,
    b: Seq<u64>,
)
    ensures
        decide_fold(sim, world, snap, states, updates, a + b) == decide_fold(
            sim,
            world,
            snap,
            states,
            decide_fold(sim, world, snap, states, updates, a),
            b,
        ),
    decreases a.len(),
{
    if a.len() == 0 {
        assert(a + b =~= b);
    } else {
        assert((a + b)[0] == a[0]);
        assert((a + b).drop_first() =~= a.drop_first() + b);
        lemma_decide_fold_append(
            sim,
            world,
            snap,
            states,
            decide_one(sim, world, snap, states, updates, a[0]),
            a.drop_first(),
            b,
        );
    }
}

/// The abstract values of a stored update list.
pub open spec fn decode_updates<U: Codable>(lst: Seq<Seq<u8>>) -> Seq<U::V> {
    lst.map_values(|b: Seq<u8>| U::spec_decode(b).unwrap())
}

/// The state and pending-update maps after one id's update sub-phase
/// step: its pending list is taken either way; a missing agent drops the
/// updates, a present one folds them into its state and stores the result.
pub open spec fn update_one<Sim: Simulation>(
    sim: Sim,
    states: Map<u64, Seq<u8>>,
    updates: Map<u64, Seq<Seq<u8>>>,
    id: u64,
) -> (Map<u64, Seq<u8>>, Map<u64, Seq<Seq<u8>>>) {
    let lst: Seq<Seq<u8>> = if updates.dom().contains(id) {
        updates[id]
    } else {
        Seq::empty()
    };
    if states.dom().contains(id) {
        let old_state = <Sim::State as Codable>::spec_decode(states[id]).unwrap();
        let new_state = sim.spec_update(old_state, decode_updates::<Sim::Update>(lst));
        (
            states.insert(id, <Sim::State as Codable>::spec_encode(new_state)),
            updates.remove(id),
        )
    } else {
        (states, updates.remove(id))
    }
}

/// The state and pending-update maps after an update sub-phase that
/// handled the given ids in the given order.
pub open spec fn update_fold<Sim: Simulation>(
    sim: Sim,
    states: Map<u64, Seq<u8>>,
    updates: Map<u64, Seq<Seq<u8>>>,
    order: Seq<u64>,
) -> (Map<u64, Seq<u8>>, Map<u64, Seq<Seq<u8>>>)
    decreases order.len(),
{
    if order.len() == 0 {
        (states, updates)
    } else {
        let step = update_one(sim, states, updates, order[0]);
        update_fold(sim, step.0, step.1, order.drop_first())
    }
}

proof fn lemma_update_fold_append<Sim: Simulation>(
    sim: Sim,
    states: Map<u64, Seq<u8>>,
    updates: Map<u64, Seq<Seq<u8>>>,
    a: Seq<u64>,
    b: Seq<u64>,
)
    ensures
        update_fold(sim, states, updates, a + b) == update_fold(
            sim,
            update_fold(sim, states, updates, a).0,
            update_fold(sim, states, updates, a).1,
            b,
        ),
    decreases a.len(),
{
    if a.len() == 0 {
        assert(a + b =~= b);
    } else {
        assert((a + b)[0] == a[0]);
        assert((a + b).drop_first() =~= a.drop_first() + b);
        let step = update_one(sim, states, updates, a[0]);
        lemma_update_fold_append(sim, step.0, step.1, a.drop_first(), b);
    }
}

/// An update sub-phase never touches the entries of an id it did not pop.
proof fn lemma_update_fold_frame<Sim: Simulation>(
    sim: Sim,
    states: Map<u64, Seq<u8>>,
    updates: Map<u64, Seq<Seq<u8>>>,
    order: Seq<u64>,
    id: u64,
)
    requires
        !order.contains(id),
    ensures
        update_fold(sim, states, updates, order).0.dom().contains(id) == states.dom().contains(
            id,
        ),
        states.dom().contains(id) ==> update_fold(sim, states, updates, order).0[id]
            == states[id],
        update_fold(sim, states, updates, order).1.dom().contains(id)
            == updates.dom().contains(id),
        updates.dom().contains(id) ==> update_fold(sim, states, updates, order).1[id]
            == updates[id],
    decreases order.len(),
{
    if order.len() > 0 {
        assert(order[0] != id);
        let step = update_one(sim, states, updates, order[0]);
        assert forall|k: int|
            0 <= k < order.drop_first().len() implies order.drop_first()[k] != id by {
            assert(order.drop_first()[k] == order[k + 1]);
        }
        assert(!order.drop_first().contains(id));
        lemma_update_fold_frame(sim, step.0, step.1, order.drop_first(), id);
    }
}

/// An update sub-phase stores states for exactly the ids that had one.
proof fn lemma_update_fold_dom<Sim: Simulation>(
    sim: Sim,
    states: Map<u64, Seq<u8>>,
    updates: Map<u64, Seq<Seq<u8>>>,
    order: Seq<u64>,
)
    ensures
        update_fold(sim, states, updates, order).0.dom() == states.dom(),
    decreases order.len(),
{
    if order.len() > 0 {
        let step = update_one(sim, states, updates, order[0]);
        assert(step.0.dom() =~= states.dom());
        lemma_update_fold_dom(sim, step.0, step.1, order.drop_first());
    }
}

/// Law: an update sub-phase folds, for every id it pops whose agent
/// exists, exactly that id's pending updates into that id's stored state —
/// the new stored blob is the encoding of the fold of the decoded pending
/// list over the decoded old state — and takes the id's pending list.
pub proof fn lemma_update_fold_per_agent<Sim: Simulation>(
    sim: Sim,
    states: Map<u64, Seq<u8>>,
    updates: Map<u64, Seq<Seq<u8>>>,
    order: Seq<u64>,
    id: u64,
)
    requires
        order.no_duplicates(),
        order.contains(id),
        states.dom().contains(id),
    ensures
        update_fold(sim, states, updates, order).0.dom().contains(id),
        update_fold(sim, states, updates, order).0[id] == <Sim::State as Codable>::spec_encode(
            sim.spec_update(
                <Sim::State as Codable>::spec_decode(states[id]).unwrap(),
                decode_updates::<Sim::Update>(
                    if updates.dom().contains(id) {
                        updates[id]
                    } else {
                        Seq::empty()
                    },
                ),
            ),
        ),
        !update_fold(sim, states, updates, order).1.dom().contains(id),
    decreases order.len(),
{
    let step = update_one(sim, states, updates, order[0]);
    assert forall|p: int, q: int|
        0 <= p < q < order.drop_first().len() implies order.drop_first()[p]
        != order.drop_first()[q] by {
        assert(order.drop_first()[p] == order[p + 1]);
        assert(order.drop_first()[q] == order[q + 1]);
    }
    if order[0] == id {
        assert forall|k: int|
            0 <= k < order.drop_first().len() implies order.drop_first()[k] != id by {
            assert(order.drop_first()[k] == order[k + 1]);
            assert(order[0] != order[k + 1]);
        }
        assert(!order.drop_first().contains(id));
        lemma_update_fold_frame(sim, step.0, step.1, order.drop_first(), id);
    } else {
        let k = choose|k: int| 0 <= k < order.len() && order[k] == id;
        assert(order.drop_first()[k - 1] == id);
        assert(order.drop_first().contains(id));
        assert(step.0.dom().contains(id));
        assert(step.0[id] == states[id]);
        assert(step.1.dom().contains(id) == updates.dom().contains(id));
        if updates.dom().contains(id) {
            assert(step.1[id] == updates[id]);
        }
        lemma_update_fold_per_agent(sim, step.0, step.1, order.drop_first(), id);
    }
}

/// What one full worker round does to the stored states and pending
/// lists: the decide sub-phase's publications — over the snapshot read in
/// the given storage order, with ids popped in order `d` — followed by the
/// update sub-phase's folds, with ids popped in order `u`.
pub open spec fn round_fold<Sim: Simulation>(
    sim: Sim,
    world: Seq<u8>,
    snap_entries: Seq<(u64, Vec<u8>)>,
    states: Map<u64, Seq<u8>>,
    updates: Map<u64, Seq<Seq<u8>>>,
    d: Seq<u64>,
    u: Seq<u64>,
) -> (Map<u64, Seq<u8>>, Map<u64, Seq<Seq<u8>>>) {
    update_fold::<Sim>(
        sim,
        states,
        decide_fold::<Sim>(
            sim,
            <Sim::World as Codable>::spec_decode(world).unwrap(),
            spec_snapshot::<Sim::State>(snap_entries),
            states,
            updates,
            d,
        ),
        u,
    )
}

/// The pop orders `d` and `u` witness one full round from the `pre` store
/// contents (whose state slots sat in storage order `pre_entries`) to the
/// `post` contents: `d` popped exactly what was ready to decide, `u`
/// popped the whole population, and the stored states and pending lists
/// changed by exactly the round's two folds.
pub open spec fn spec_round_run<Sim: Simulation>(
    sim: Sim,
    pre: StoreView,
    pre_entries: Seq<(u64, Vec<u8>)>,
    post: StoreView,
    d: Seq<u64>,
    u: Seq<u64>,
) -> bool {
    &&& d.no_duplicates()
    &&& d.to_set() == pre.to_decide
    &&& u.no_duplicates()
    &&& u.to_set() == pre.population
    &&& post.states == round_fold::<Sim>(sim, pre.world, pre_entries, pre.states, pre.updates, d, u).0
    &&& post.updates == round_fold::<Sim>(
        sim,
        pre.world,
        pre_entries,
        pre.states,
        pre.updates,
        d,
        u,
    ).1
}

/// A run of whole rounds: each record holds the storage order the round's
/// snapshot was read in and the round's two pop orders, and each round's
/// outcome feeds the next.  The first round pops whatever sat in
/// `to_decide`; every later round starts with the whole population there.
pub open spec fn spec_rounds_run<Sim: Simulation>(
    sim: Sim,
    world: Seq<u8>,
    states: Map<u64, Seq<u8>>,
    updates: Map<u64, Seq<Seq<u8>>>,
    ready: Set<u64>,
    population: Set<u64>,
    trace: Seq<(Seq<(u64, Vec<u8>)>, Seq<u64>, Seq<u64>)>,
    post_states: Map<u64, Seq<u8>>,
    post_updates: Map<u64, Seq<Seq<u8>>>,
) -> bool
    decreases trace.len(),
{
    if trace.len() == 0 {
        post_states == states && post_updates == updates
    } else {
        let entries = trace[0].0;
        let d = trace[0].1;
        let u = trace[0].2;
        let stepped = round_fold::<Sim>(sim, world, entries, states, updates, d, u);
        &&& (forall|p: int, q: int| 0 <= p < q < entries.len() ==> entries[p].0 != entries[q].0)
        &&& kv_as_map(entries) == states
        &&& d.no_duplicates()
        &&& d.to_set() == ready
        &&& u.no_duplicates()
        &&& u.to_set() == population
        &&& spec_rounds_run::<Sim>(
            sim,
            world,
            stepped.0,
            stepped.1,
            population,
            population,
            trace.drop_first(),
            post_states,
            post_updates,
        )
    }
}

/// Extending a run by one more round at its end.
proof fn lemma_rounds_run_snoc<Sim: Simulation>(
    sim: Sim,
    world: Seq<u8>,
    states: Map<u64, Seq<u8>>,
    updates: Map<u64, Seq<Seq<u8>>>,
    ready: Set<u64>,
    population: Set<u64>,
    trace: Seq<(Seq<(u64, Vec<u8>)>, Seq<u64>, Seq<u64>)>,
    rec: (Seq<(u64, Vec<u8>)>, Seq<u64>, Seq<u64>),
    pre_states: Map<u64, Seq<u8>>,
    pre_updates: Map<u64, Seq<Seq<u8>>>,
    post_states: Map<u64, Seq<u8>>,
    post_updates: Map<u64, Seq<Seq<u8>>>,
)
    requires
        spec_rounds_run::<Sim>(
            sim,
            world,
            states,
            updates,
            ready,
            population,
            trace,
            pre_states,
            pre_updates,
        ),
        forall|p: int, q: int| 0 <= p < q < rec.0.len() ==> rec.0[p].0 != rec.0[q].0,
        kv_as_map(rec.0) == pre_states,
        rec.1.no_duplicates(),
        rec.1.to_set() == if trace.len() == 0 {
            ready
        } else {
            population
        },
        rec.2.no_duplicates(),
        rec.2.to_set() == population,
        post_states == round_fold::<Sim>(sim, world, rec.0, pre_states, pre_updates, rec.1, rec.2).0,
        post_updates == round_fold::<Sim>(
            sim,
            world,
            rec.0,
            pre_states,
            pre_updates,
            rec.1,
            rec.2,
        ).1,
    ensures
        spec_rounds_run::<Sim>(
            sim,
            world,
            states,
            updates,
            ready,
            population,
            trace.push(rec),
            post_states,
            post_updates,
        ),
    decreases trace.len(),
{
    let trace1 = trace.push(rec);
    if trace.len() == 0 {
        assert(trace1[0] == rec);
        assert(trace1.drop_first() =~= Seq::<(Seq<(u64, Vec<u8>)>, Seq<u64>, Seq<u64>)>::empty());
        assert(pre_states == states && pre_updates == updates);
        let stepped = round_fold::<Sim>(sim, world, rec.0, states, updates, rec.1, rec.2);
        assert(post_states == stepped.0 && post_updates == stepped.1);
        assert(spec_rounds_run::<Sim>(
            sim,
            world,
            stepped.0,
            stepped.1,
            population,
            population,
            trace1.drop_first(),
            post_states,
            post_updates,
        ));
    } else {
        assert(trace1[0] == trace[0]);
        assert(trace1.drop_first() =~= trace.drop_first().push(rec));
        let stepped = round_fold::<Sim>(
            sim,
            world,
            trace[0].0,
            states,
            updates,
            trace[0].1,
            trace[0].2,
        );
        lemma_rounds_run_snoc::<Sim>(
            sim,
            world,
            stepped.0,
            stepped.1,
            population,
            population,
            trace.drop_first(),
            rec,
            pre_states,
            pre_updates,
            post_states,
            post_updates,
        );
        assert(spec_rounds_run::<Sim>(
            sim,
            world,
            stepped.0,
            stepped.1,
            population,
            population,
            trace1.drop_first(),
            post_states,
            post_updates,
        ));
    }
}

// ---------------------------------------------------------------------------
// The worker
// ---------------------------------------------------------------------------

/// Build the population snapshot a decide sub-phase reads against.
fn snapshot<S: Codable>(states: &KvMap<Vec<u8>>) -> (r: Vec<Agent<S>>)
    requires
        states.wf(),
        forall|id: u64| #[trigger]
            states@.dom().contains(id) ==> S::spec_decode(states@[id]) is Some,
    ensures
        agents_view(r@) == spec_snapshot::<S>(states.entries@),
{
    let mut r: Vec<Agent<S>> = Vec::new();
    let n = states.entries.len();
    let mut i: usize = 0;
    proof {
        assert(agents_view(r@) =~= spec_snapshot::<S>(states.entries@.subrange(0, 0)));
    }
    while i < n
        invariant
            states.wf(),
            forall|id: u64| #[trigger]
                states@.dom().contains(id) ==> S::spec_decode(states@[id]) is Some,
            n == states.entries@.len(),
            0 <= i <= n,
            agents_view(r@) == spec_snapshot::<S>(states.entries@.subrange(0, i as int)),
        decreases n - i,
    {
        let id = states.entries[i].0;
        proof {
            lemma_kv_index_at(states.entries@, i as int);
            assert(states@.dom().contains(id));
            assert(states.entries@[i as int].1.deep_view() =~= states.entries@[i as int].1@);
            assert(states@[id] == states.entries@[i as int].1@);
        }
        let state = match S::decode(states.entries[i].1.as_slice()) {
            Some(s) => s,
            None => unreached(),
        };
        let ghost prev = r@;
        let ghost newbie = Agent { id, state: holder(&state) };
        r.push(Agent { id, state });
        proof {
            let sub0 = states.entries@.subrange(0, i as int);
            let sub1 = states.entries@.subrange(0, i as int + 1);
            assert(agents_view(prev).len() == prev.len());
            assert(spec_snapshot::<S>(sub0).len() == sub0.len());
            assert(prev.len() == i);
            assert(r@ == prev.push(newbie));
            assert forall|k: int|
                0 <= k < r@.len() implies agents_view(r@)[k] == spec_snapshot::<S>(sub1)[k] by {
                assert(sub1[k] == states.entries@[k]);
                if k < i as int {
                    assert(r@[k] == prev[k]);
                    assert(agents_view(prev)[k] == spec_snapshot::<S>(sub0)[k]);
                    assert(sub0[k] == states.entries@[k]);
                } else {
                    assert(r@[k] == newbie);
                }
            }
            assert(agents_view(r@) =~= spec_snapshot::<S>(sub1));
        }
        i = i + 1;
    }
    proof {
        assert(states.entries@.subrange(0, n as int) =~= states.entries@);
    }
    r
}

/// A spec-level copy of an executable value (to name a value that the
/// executable code is about to move).
spec fn holder<S>(state: &S) -> S {
    *state
}

/// One worker process's executor: it repeatedly takes ids ready for the
/// current sub-phase from the shared store and runs the phase logic.
pub struct DistWorker<S: Simulation> {
    pub simulation_type: PhantomData<S>,
}

impl<S: Simulation> DistWorker<S> {
    pub fn new() -> (r: Self) {
        DistWorker { simulation_type: PhantomData }
    }

    /// The decide sub-phase: pop ids off `to_decide` until none is left.
    /// For each id whose agent still exists, run its decide against the
    /// snapshot and the stored world, publish every emitted update to its
    /// target's pending list, and move the id into `to_update`; ids whose
    /// agent is gone are dropped silently.  States, population and world
    /// are untouched, and the published updates are exactly those of the
    /// popped ids' decides, folded in the order the ids were popped.
    pub fn decide(&self, simulation: &S, store: &mut Store)
        requires
            old(store).wf(),
            store_ok::<S>(old(store)@),
        ensures
            final(store).wf(),
            store_ok::<S>(final(store)@),
            final(store).states == old(store).states,
            final(store).world == old(store).world,
            final(store).population == old(store).population,
            final(store)@.to_decide == Set::<u64>::empty(),
            final(store)@.to_update == old(store)@.to_update.union(
                old(store)@.to_decide.intersect(old(store)@.population),
            ),
            exists|order: Seq<u64>|
                order.no_duplicates() && order.to_set() == old(store)@.to_decide
                    && final(store)@.updates == decide_fold::<S>(
                    *simulation,
                    <S::World as Codable>::spec_decode(old(store)@.world).unwrap(),
                    spec_snapshot::<S::State>(old(store).states.entries@),
                    old(store)@.states,
                    old(store)@.updates,
                    order,
                ),
    {
        let world = match <S::World as Codable>::decode(store.world.as_slice()) {
            Some(w) => w,
            None => unreached(),
        };
        let ghost worldv = world@;
        let snap_agents = snapshot::<S::State>(&store.states);
        let pop = LocalPopulation::from_agents(snap_agents);
        let ghost snapv = spec_snapshot::<S::State>(old(store).states.entries@);
        let ghost mut processed: Seq<u64> = Seq::empty();
        proof {
            assert(processed.to_set() =~= Set::<u64>::empty());
            assert(store@.to_decide.union(processed.to_set()) =~= old(store)@.to_decide);
            assert(old(store)@.to_update.union(
                processed.to_set().intersect(old(store)@.population),
            ) =~= old(store)@.to_update);
        }
        loop
            invariant
                store.wf(),
                store_ok::<S>(store@),
                store.states == old(store).states,
                store.world == old(store).world,
                store.population == old(store).population,
                worldv == <S::World as Codable>::spec_decode(old(store)@.world).unwrap(),
                worldv == world@,
                pop@ == snapv,
                snapv == spec_snapshot::<S::State>(old(store).states.entries@),
                processed.no_duplicates(),
                processed.to_set().disjoint(store@.to_decide),
                old(store)@.to_decide == store@.to_decide.union(processed.to_set()),
                store@.to_update == old(store)@.to_update.union(
                    processed.to_set().intersect(old(store)@.population),
                ),
                store@.updates == decide_fold::<S>(
                    *simulation,
                    worldv,
                    snapv,
                    old(store)@.states,
                    old(store)@.updates,
                    processed,
                ),
            ensures
                store.wf(),
                store_ok::<S>(store@),
                store.states == old(store).states,
                store.world == old(store).world,
                store.population == old(store).population,
                store@.to_decide == Set::<u64>::empty(),
                processed.no_duplicates(),
                processed.to_set() == old(store)@.to_decide,
                store@.to_update == old(store)@.to_update.union(
                    processed.to_set().intersect(old(store)@.population),
                ),
                store@.updates == decide_fold::<S>(
                    *simulation,
                    worldv,
                    snapv,
                    old(store)@.states,
                    old(store)@.updates,
                    processed,
                ),
                worldv == <S::World as Codable>::spec_decode(old(store)@.world).unwrap(),
                snapv == spec_snapshot::<S::State>(old(store).states.entries@),
            decreases store.to_decide.ids@.len(),
        {
            let popped = store.to_decide.pop();
            match popped {
                None => {
                    proof {
                        assert(store@.to_decide =~= Set::<u64>::empty());
                        assert(processed.to_set() =~= old(store)@.to_decide);
                    }
                    break ;
                },
                Some(id) => {
                    let ghost pre_updates = store@.updates;
                    let ghost pre_to_update = store@.to_update;
                    let ghost pre_to_decide = store.to_decide;
                    proof {
                        assert(!processed.to_set().contains(id));
                        assert(old(store)@.to_decide.contains(id));
                    }
                    match store.states.get(id) {
                        Some(blob) => {
                            proof {
                                assert(blob.deep_view() =~= blob@);
                            }
                            let state = match <S::State as Codable>::decode(blob.as_slice()) {
                                Some(s) => s,
                                None => unreached(),
                            };
                            let agent = Agent { id, state };
                            let pairs = simulation.decide(&agent, &world, &pop);
                            let ghost pv = pairs_view(pairs@);
                            proof {
                                assert(agent@ == AgentView {
                                    id,
                                    state: <S::State as Codable>::spec_decode(
                                        old(store)@.states[id],
                                    ).unwrap(),
                                });
                                assert(pv == simulation.spec_decide(agent@, worldv, snapv));
                                assert(pv.skip(0) =~= pv);
                            }
                            let m = pairs.len();
                            let mut j: usize = 0;
                            while j < m
                                invariant
                                    store.wf(),
                                    updates_ok::<S::Update>(store@),
                                    store.states == old(store).states,
                                    store.world == old(store).world,
                                    store.population == old(store).population,
                                    store.to_decide == pre_to_decide,
                                    store@.to_update == pre_to_update,
                                    m == pairs@.len(),
                                    0 <= j <= m,
                                    pv == pairs_view(pairs@),
                                    push_encoded::<S::Update>(store@.updates, pv.skip(j as int))
                                        == push_encoded::<S::Update>(pre_updates, pv),
                                decreases m - j,
                            {
                                proof {
                                    assert(pv.skip(j as int)[0] == pv[j as int]);
                                    assert(pv.skip(j as int).drop_first() =~= pv.skip(
                                        j as int + 1,
                                    ));
                                }
                                let target = pairs[j].0;
                                let ghost uv = pv[j as int].1;
                                let ghost upd_before = store@.updates;
                                let blob = pairs[j].1.encode();
                                proof {
                                    <S::Update as Codable>::lemma_round_trip(uv);
                                    assert(pairs@[j as int].1@ == uv);
                                    assert(blob@ == <S::Update as Codable>::spec_encode(uv));
                                }
                                store.push_update(target, blob);
                                proof {
                                    assert(store@.updates == list_push(upd_before, target, blob@));
                                    assert forall|id2: u64, k: int| #![auto]
                                        store@.updates.dom().contains(id2) && 0 <= k
                                            < store@.updates[id2].len() implies <S::Update as Codable>::spec_decode(
                                        store@.updates[id2][k],
                                    ) is Some by {
                                        if id2 == target {
                                            if k == store@.updates[id2].len() - 1 {
                                                assert(store@.updates[id2][k] == blob@);
                                            } else {
                                                assert(upd_before.dom().contains(id2));
                                                assert(store@.updates[id2][k]
                                                    == upd_before[id2][k]);
                                            }
                                        } else {
                                            assert(store@.updates[id2] == upd_before[id2]);
                                        }
                                    }
                                }
                                j = j + 1;
                            }
                            proof {
                                assert(pv.skip(m as int) =~= Seq::<
                                    (u64, <S::Update as View>::V),
                                >::empty());
                                assert(store@.updates == push_encoded::<S::Update>(
                                    pre_updates,
                                    pv,
                                ));
                            }
                            store.to_update.add(id);
                        },
                        None => {
                            proof {
                                assert(!old(store)@.population.contains(id));
                            }
                        },
                    }
                    proof {
                        // the processed order grows by this id
                        assert(decide_one::<S>(
                            *simulation,
                            worldv,
                            snapv,
                            old(store)@.states,
                            pre_updates,
                            id,
                        ) == store@.updates);
                        let processed1 = processed.push(id);
                        assert(!processed.contains(id));
                        assert forall|p: int, q: int|
                            0 <= p < q < processed1.len() implies processed1[p]
                            != processed1[q] by {
                            if q == processed.len() {
                                assert(processed1[p] == processed[p]);
                                assert(processed.contains(processed[p]));
                            }
                        }
                        assert(processed1.no_duplicates());
                        assert forall|x: u64| processed1.to_set().contains(x)
                            <==> processed.to_set().insert(id).contains(x) by {
                            if processed1.contains(x) {
                                let w = choose|w: int|
                                    0 <= w < processed1.len() && processed1[w] == x;
                                if w < processed.len() {
                                    assert(processed[w] == x);
                                    assert(processed.contains(x));
                                }
                            }
                            if processed.contains(x) {
                                let w = choose|w: int|
                                    0 <= w < processed.len() && processed[w] == x;
                                assert(processed1[w] == x);
                                assert(processed1.contains(x));
                            }
                            if x == id {
                                assert(processed1[processed.len() as int] == x);
                                assert(processed1.contains(x));
                            }
                        }
                        assert(processed1.to_set() =~= processed.to_set().insert(id));
                        assert(processed + seq![id] =~= processed1);
                        lemma_decide_fold_append::<S>(
                            *simulation,
                            worldv,
                            snapv,
                            old(store)@.states,
                            old(store)@.updates,
                            processed,
                            seq![id],
                        );
                        assert(seq![id][0] == id);
                        assert(seq![id].drop_first() =~= Seq::<u64>::empty());
                        assert(decide_fold::<S>(
                            *simulation,
                            worldv,
                            snapv,
                            old(store)@.states,
                            pre_updates,
                            seq![id],
                        ) == decide_fold::<S>(
                            *simulation,
                            worldv,
                            snapv,
                            old(store)@.states,
                            decide_one::<S>(
                                *simulation,
                                worldv,
                                snapv,
                                old(store)@.states,
                                pre_updates,
                                id,
                            ),
                            seq![id].drop_first(),
                        ));
                        assert(decide_fold::<S>(
                            *simulation,
                            worldv,
                            snapv,
                            old(store)@.states,
                            store@.updates,
                            Seq::<u64>::empty(),
                        ) == store@.updates);
                        assert(decide_fold::<S>(
                            *simulation,
                            worldv,
                            snapv,
                            old(store)@.states,
                            old(store)@.updates,
                            processed1,
                        ) == store@.updates);
                        processed = processed1;
                        assert(old(store)@.to_decide =~= store@.to_decide.union(
                            processed.to_set(),
                        ));
                        assert(store@.to_update =~= old(store)@.to_update.union(
                            processed.to_set().intersect(old(store)@.population),
                        ));
                    }
                },
            }
        }
        proof {
            assert(store@.to_update =~= old(store)@.to_update.union(
                old(store)@.to_decide.intersect(old(store)@.population),
            ));
            assert(processed.no_duplicates() && processed.to_set() == old(store)@.to_decide
                && store@.updates == decide_fold::<S>(
                *simulation,
                <S::World as Codable>::spec_decode(old(store)@.world).unwrap(),
                spec_snapshot::<S::State>(old(store).states.entries@),
                old(store)@.states,
                old(store)@.updates,
                processed,
            ));
        }
    }
}


impl<S: Simulation> DistWorker<S> {
    /// The update sub-phase: pop ids off `to_update` until none is left.
    /// Each popped id's pending list is taken either way; when its agent
    /// still exists the decoded updates are folded into the decoded state,
    /// the new state is stored, and the id moves into `to_decide`; a
    /// missing agent drops its updates silently.  The stores' states and
    /// pending lists end exactly as folding the popped ids in pop order
    /// prescribes.
    pub fn update(&self, simulation: &S, store: &mut Store)
        requires
            old(store).wf(),
            store_ok::<S>(old(store)@),
        ensures
            final(store).wf(),
            store_ok::<S>(final(store)@),
            final(store).world == old(store).world,
            final(store).population == old(store).population,
            final(store)@.to_update == Set::<u64>::empty(),
            final(store)@.to_decide == old(store)@.to_decide.union(
                old(store)@.to_update.intersect(old(store)@.population),
            ),
            exists|order: Seq<u64>|
                order.no_duplicates() && order.to_set() == old(store)@.to_update
                    && final(store)@.states == update_fold::<S>(
                    *simulation,
                    old(store)@.states,
                    old(store)@.updates,
                    order,
                ).0 && final(store)@.updates == update_fold::<S>(
                    *simulation,
                    old(store)@.states,
                    old(store)@.updates,
                    order,
                ).1,
    {
        let ghost mut processed: Seq<u64> = Seq::empty();
        proof {
            assert(processed.to_set() =~= Set::<u64>::empty());
            assert(store@.to_update.union(processed.to_set()) =~= old(store)@.to_update);
            assert(old(store)@.to_decide.union(processed.to_set().intersect(
                old(store)@.population,
            )) =~= old(store)@.to_decide);
        }
        loop
            invariant
                store.wf(),
                store_ok::<S>(store@),
                store.world == old(store).world,
                store.population == old(store).population,
                processed.no_duplicates(),
                processed.to_set().disjoint(store@.to_update),
                old(store)@.to_update == store@.to_update.union(processed.to_set()),
                store@.to_decide == old(store)@.to_decide.union(
                    processed.to_set().intersect(old(store)@.population),
                ),
                store@.states == update_fold::<S>(
                    *simulation,
                    old(store)@.states,
                    old(store)@.updates,
                    processed,
                ).0,
                store@.updates == update_fold::<S>(
                    *simulation,
                    old(store)@.states,
                    old(store)@.updates,
                    processed,
                ).1,
            ensures
                store.wf(),
                store_ok::<S>(store@),
                store.world == old(store).world,
                store.population == old(store).population,
                store@.to_update == Set::<u64>::empty(),
                processed.no_duplicates(),
                processed.to_set() == old(store)@.to_update,
                store@.to_decide == old(store)@.to_decide.union(
                    old(store)@.to_update.intersect(old(store)@.population),
                ),
                store@.states == update_fold::<S>(
                    *simulation,
                    old(store)@.states,
                    old(store)@.updates,
                    processed,
                ).0,
                store@.updates == update_fold::<S>(
                    *simulation,
                    old(store)@.states,
                    old(store)@.updates,
                    processed,
                ).1,
            decreases store.to_update.ids@.len(),
        {
            let popped = store.to_update.pop();
            match popped {
                None => {
                    proof {
                        assert(store@.to_update =~= Set::<u64>::empty());
                        assert(processed.to_set() =~= old(store)@.to_update);
                        assert(store@.to_decide =~= old(store)@.to_decide.union(
                            old(store)@.to_update.intersect(old(store)@.population),
                        ));
                    }
                    break ;
                },
                Some(id) => {
                    let ghost pre_states = store@.states;
                    let ghost pre_updates = store@.updates;
                    let ghost pre_to_decide = store@.to_decide;
                    proof {
                        assert(!processed.to_set().contains(id));
                    }
                    let lst: Vec<Vec<u8>> = match store.updates.remove_entry(id) {
                        Some(l) => l,
                        None => Vec::new(),
                    };
                    let ghost lstv: Seq<Seq<u8>> = if pre_updates.dom().contains(id) {
                        pre_updates[id]
                    } else {
                        Seq::empty()
                    };
                    proof {
                        assert(lst.deep_view() =~= lstv);
                        assert forall|j: int| 0 <= j < lstv.len()
                            implies <S::Update as Codable>::spec_decode(lstv[j]) is Some by {}
                    }
                    match store.states.get(id) {
                        Some(blob) => {
                            proof {
                                assert(blob.deep_view() =~= blob@);
                            }
                            let state = match <S::State as Codable>::decode(blob.as_slice()) {
                                Some(s) => s,
                                None => unreached(),
                            };
                            let ghost old_state = state@;
                            let m = lst.len();
                            let mut us: Vec<S::Update> = Vec::new();
                            let mut k: usize = 0;
                            proof {
                                assert(updates_view(us@) =~= decode_updates::<S::Update>(
                                    lstv.subrange(0, 0),
                                ));
                            }
                            while k < m
                                invariant
                                    m == lst@.len(),
                                    lst.deep_view() == lstv,
                                    0 <= k <= m,
                                    forall|j: int| 0 <= j < lstv.len()
                                        ==> <S::Update as Codable>::spec_decode(lstv[j]) is Some,
                                    updates_view(us@) == decode_updates::<S::Update>(
                                        lstv.subrange(0, k as int),
                                    ),
                                decreases m - k,
                            {
                                proof {
                                    assert(lst@[k as int].deep_view() =~= lst@[k as int]@);
                                    assert(lst.deep_view()[k as int] == lst@[k as int].deep_view());
                                    assert(lstv[k as int] == lst@[k as int]@);
                                }
                                let u = match <S::Update as Codable>::decode(lst[k].as_slice()) {
                                    Some(u) => u,
                                    None => unreached(),
                                };
                                let ghost prev_us = us@;
                                let ghost newbie = holder(&u);
                                us.push(u);
                                proof {
                                    let sub0 = lstv.subrange(0, k as int);
                                    let sub1 = lstv.subrange(0, k as int + 1);
                                    assert(updates_view(prev_us).len() == prev_us.len());
                                    assert(decode_updates::<S::Update>(sub0).len() == sub0.len());
                                    assert(prev_us.len() == k);
                                    assert(us@ == prev_us.push(newbie));
                                    assert forall|j: int|
                                        0 <= j < us@.len() implies updates_view(us@)[j]
                                        == decode_updates::<S::Update>(sub1)[j] by {
                                        assert(sub1[j] == lstv[j]);
                                        if j < k as int {
                                            assert(us@[j] == prev_us[j]);
                                            assert(updates_view(prev_us)[j] == decode_updates::<
                                                S::Update,
                                            >(sub0)[j]);
                                            assert(sub0[j] == lstv[j]);
                                        } else {
                                            assert(us@[j] == newbie);
                                        }
                                    }
                                    assert(updates_view(us@) =~= decode_updates::<S::Update>(
                                        sub1,
                                    ));
                                }
                                k = k + 1;
                            }
                            proof {
                                assert(lstv.subrange(0, m as int) =~= lstv);
                            }
                            let new_state = simulation.update(state, &us);
                            let ghost nsv = new_state@;
                            let blob2 = new_state.encode();
                            proof {
                                <S::State as Codable>::lemma_round_trip(nsv);
                                assert(blob2.deep_view() =~= blob2@);
                            }
                            store.states.set(id, blob2);
                            store.to_decide.add(id);
                            proof {
                                assert(store@.population =~= store@.states.dom());
                            }
                        },
                        None => {
                            proof {
                                assert(!old(store)@.population.contains(id));
                            }
                        },
                    }
                    proof {
                        let stepped = update_one::<S>(*simulation, pre_states, pre_updates, id);
                        assert(stepped.0 == store@.states && stepped.1 == store@.updates);
                        let processed1 = processed.push(id);
                        assert(!processed.contains(id));
                        assert forall|p: int, q: int|
                            0 <= p < q < processed1.len() implies processed1[p]
                            != processed1[q] by {
                            if q == processed.len() {
                                assert(processed1[p] == processed[p]);
                                assert(processed.contains(processed[p]));
                            }
                        }
                        assert(processed1.no_duplicates());
                        assert forall|x: u64| processed1.to_set().contains(x)
                            <==> processed.to_set().insert(id).contains(x) by {
                            if processed1.contains(x) {
                                let w = choose|w: int|
                                    0 <= w < processed1.len() && processed1[w] == x;
                                if w < processed.len() {
                                    assert(processed[w] == x);
                                    assert(processed.contains(x));
                                }
                            }
                            if processed.contains(x) {
                                let w = choose|w: int|
                                    0 <= w < processed.len() && processed[w] == x;
                                assert(processed1[w] == x);
                                assert(processed1.contains(x));
                            }
                            if x == id {
                                assert(processed1[processed.len() as int] == x);
                                assert(processed1.contains(x));
                            }
                        }
                        assert(processed1.to_set() =~= processed.to_set().insert(id));
                        assert(processed + seq![id] =~= processed1);
                        lemma_update_fold_append::<S>(
                            *simulation,
                            old(store)@.states,
                            old(store)@.updates,
                            processed,
                            seq![id],
                        );
                        assert(seq![id][0] == id);
                        assert(seq![id].drop_first() =~= Seq::<u64>::empty());
                        assert(update_fold::<S>(*simulation, pre_states, pre_updates, seq![id])
                            == update_fold::<S>(
                            *simulation,
                            stepped.0,
                            stepped.1,
                            seq![id].drop_first(),
                        ));
                        assert(update_fold::<S>(
                            *simulation,
                            store@.states,
                            store@.updates,
                            Seq::<u64>::empty(),
                        ) == (store@.states, store@.updates));
                        assert(update_fold::<S>(
                            *simulation,
                            old(store)@.states,
                            old(store)@.updates,
                            processed1,
                        ).0 == store@.states);
                        assert(update_fold::<S>(
                            *simulation,
                            old(store)@.states,
                            old(store)@.updates,
                            processed1,
                        ).1 == store@.updates);
                        processed = processed1;
                        assert(old(store)@.to_update =~= store@.to_update.union(
                            processed.to_set(),
                        ));
                        assert(store@.to_decide =~= old(store)@.to_decide.union(
                            processed.to_set().intersect(old(store)@.population),
                        ));
                    }
                },
            }
        }
    }

    /// One full round of the worker loop: the decide sub-phase, the
    /// barrier, the update sub-phase, the second barrier.  Run in a single
    /// process the two barriers are already satisfied when checked (that
    /// is what the two calls assert); a deployment with several worker
    /// processes busy-polls the same checks instead.  The stored states
    /// and pending lists end exactly as the round's two folds prescribe,
    /// for the pop orders the round actually used.
    pub fn step(&self, simulation: &S, store: &mut Store)
        requires
            old(store).wf(),
            store_ok::<S>(old(store)@),
            phase_clean(old(store)@),
        ensures
            final(store).wf(),
            store_ok::<S>(final(store)@),
            phase_clean(final(store)@),
            final(store).population == old(store).population,
            final(store).world == old(store).world,
            final(store)@.to_decide == final(store)@.population,
            final(store)@.to_update == Set::<u64>::empty(),
            exists|d: Seq<u64>, u: Seq<u64>| #[trigger] spec_round_run::<S>(
                *simulation,
                old(store)@,
                old(store).states.entries@,
                final(store)@,
                d,
                u,
            ),
    {
        let ghost pre = store@;
        let ghost pre_entries = store.states.entries@;
        self.decide(simulation, store);
        proof {
            lemma_barrier_after_decide(old(store)@, store@);
        }
        let ready = updates_ready(store);
        assert(ready);
        let ghost mid = store@;
        let ghost d: Seq<u64> = choose|order: Seq<u64>|
            order.no_duplicates() && order.to_set() == pre.to_decide && mid.updates
                == decide_fold::<S>(
                *simulation,
                <S::World as Codable>::spec_decode(pre.world).unwrap(),
                spec_snapshot::<S::State>(pre_entries),
                pre.states,
                pre.updates,
                order,
            );
        self.update(simulation, store);
        proof {
            assert(mid.to_decide == Set::<u64>::empty());
            assert(mid.to_update == mid.population);
            assert(store@.to_decide == mid.to_decide.union(
                mid.to_update.intersect(mid.population),
            ));
            assert(store@.population == mid.population);
            assert(mid.to_update.intersect(mid.population) =~= mid.population);
            assert(store@.to_decide =~= store@.population);
            assert(store@.to_decide.disjoint(store@.to_update));
            assert(store@.population =~= store@.to_decide.union(store@.to_update));
            assert(phase_clean(store@));
            let u: Seq<u64> = choose|order: Seq<u64>|
                order.no_duplicates() && order.to_set() == mid.to_update && store@.states
                    == update_fold::<S>(*simulation, mid.states, mid.updates, order).0
                    && store@.updates == update_fold::<S>(
                    *simulation,
                    mid.states,
                    mid.updates,
                    order,
                ).1;
            assert(mid.states == pre.states);
            assert(u.to_set() == pre.population);
            assert(store@.states == round_fold::<S>(
                *simulation,
                pre.world,
                pre_entries,
                pre.states,
                pre.updates,
                d,
                u,
            ).0);
            assert(store@.updates == round_fold::<S>(
                *simulation,
                pre.world,
                pre_entries,
                pre.states,
                pre.updates,
                d,
                u,
            ).1);
            assert(spec_round_run::<S>(*simulation, pre, pre_entries, store@, d, u));
        }
        let ready2 = decides_ready(store);
        assert(ready2);
    }

    /// Run the worker loop for the given number of full rounds.  A
    /// deployed worker loops forever; a bounded count keeps an in-process
    /// run finite while exercising the same cycle.  Zero rounds change
    /// nothing; any positive count ends a round boundary (everything back
    /// in `to_decide`), with the states and pending lists the composition
    /// of the rounds' folds over the pop orders the run actually used.
    pub fn start(&self, simulation: &S, store: &mut Store, rounds: u64)
        requires
            old(store).wf(),
            store_ok::<S>(old(store)@),
            phase_clean(old(store)@),
        ensures
            final(store).wf(),
            store_ok::<S>(final(store)@),
            phase_clean(final(store)@),
            final(store).population == old(store).population,
            final(store).world == old(store).world,
            rounds == 0 ==> *final(store) == *old(store),
            rounds > 0 ==> final(store)@.to_decide == final(store)@.population
                && final(store)@.to_update == Set::<u64>::empty(),
            exists|trace: Seq<(Seq<(u64, Vec<u8>)>, Seq<u64>, Seq<u64>)>|
                trace.len() == rounds && #[trigger] spec_rounds_run::<S>(
                    *simulation,
                    old(store)@.world,
                    old(store)@.states,
                    old(store)@.updates,
                    old(store)@.to_decide,
                    old(store)@.population,
                    trace,
                    final(store)@.states,
                    final(store)@.updates,
                ),
    {
        let mut round: u64 = 0;
        let ghost mut trace: Seq<(Seq<(u64, Vec<u8>)>, Seq<u64>, Seq<u64>)> = Seq::empty();
        while round < rounds
            invariant
                store.wf(),
                store_ok::<S>(store@),
                phase_clean(store@),
                store.population == old(store).population,
                store.world == old(store).world,
                0 <= round <= rounds,
                round == 0 ==> *store == *old(store),
                round > 0 ==> store@.to_decide == store@.population && store@.to_update
                    == Set::<u64>::empty(),
                trace.len() == round,
                spec_rounds_run::<S>(
                    *simulation,
                    old(store)@.world,
                    old(store)@.states,
                    old(store)@.updates,
                    old(store)@.to_decide,
                    old(store)@.population,
                    trace,
                    store@.states,
                    store@.updates,
                ),
            decreases rounds - round,
        {
            let ghost pre = store@;
            let ghost pre_entries = store.states.entries@;
            self.step(simulation, store);
            proof {
                let (d, u): (Seq<u64>, Seq<u64>) = choose|d: Seq<u64>, u: Seq<u64>|
                    #[trigger] spec_round_run::<S>(*simulation, pre, pre_entries, store@, d, u);
                let rec = (pre_entries, d, u);
                assert(kv_as_map(pre_entries) == pre.states);
                if round == 0 {
                    assert(pre.to_decide == old(store)@.to_decide);
                } else {
                    assert(pre.to_decide == old(store)@.population);
                }
                lemma_rounds_run_snoc::<S>(
                    *simulation,
                    old(store)@.world,
                    old(store)@.states,
                    old(store)@.updates,
                    old(store)@.to_decide,
                    old(store)@.population,
                    trace,
                    rec,
                    pre.states,
                    pre.updates,
                    store@.states,
                    store@.updates,
                );
                trace = trace.push(rec);
            }
            round = round + 1;
        }
    }
}

/// The barrier between the decide and the update sub-phases: every agent
/// has finished deciding once the count of ids ready to update equals the
/// population count.
pub fn updates_ready(store: &Store) -> (r: bool)
    requires
        store.wf(),
    ensures
        r == (store@.to_update.len() == store@.population.len()),
{
    store.to_update.card() == store.population.card()
}

/// The barrier at the end of a round: every agent is back in `to_decide`.
pub fn decides_ready(store: &Store) -> (r: bool)
    requires
        store.wf(),
    ensures
        r == (store@.to_decide.len() == store@.population.len()),
{
    store.to_decide.card() == store.population.card()
}

/// Law (the distributed barrier): with the phase sets clean — every
/// population member in exactly one of them, no stale ids — a completed
/// decide sub-phase leaves `to_update` holding exactly the population, so
/// its cardinality equals the population size before any worker proceeds
/// to the update sub-phase.
pub proof fn lemma_barrier_after_decide(pre: StoreView, post: StoreView)
    requires
        phase_clean(pre),
        post.population == pre.population,
        post.to_decide == Set::<u64>::empty(),
        post.to_update == pre.to_update.union(pre.to_decide.intersect(pre.population)),
    ensures
        post.to_update == post.population,
        phase_clean(post),
        post.to_update.len() == post.population.len(),
{
    assert(pre.to_decide.intersect(pre.population) =~= pre.to_decide);
    assert(post.to_update =~= pre.population);
    assert(post.population =~= post.to_decide.union(post.to_update));
}

} // verus!

