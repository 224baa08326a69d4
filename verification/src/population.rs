//! The storage of all agents, addressable by id.
//!
//! [`LocalPopulation`] is the plain in-process store; [`SharedPopulation`]
//! wraps one behind the exclusive-access discipline the local manager
//! relies on (many concurrent readers during the decide phase, a single
//! writer during the apply phase — the embedding process provides the
//! actual reader/writer lock and hands out access one call at a time).

use vstd::prelude::*;
use vstd::pervasive::VecAdditionalExecFns;
use crate::simulation::{Agent, AgentView, Codable, agents_view};

verus! {

/// Relies on uuid::Uuid::new_v4 — a randomly generated version-4 uuid —
/// as the engine's source of random draws: coordination-free id assignment
/// and per-candidate sampling draws.  This hands back the uuid's low 64
/// bits; nothing is promised of the value.
#[verifier::external_body]
pub(crate) fn random_u64() -> u64 {
    uuid::Uuid::new_v4().as_u128() as u64
}

/// The first agent with the given id, if any.
pub open spec fn find_agent<V>(agents: Seq<AgentView<V>>, id: u64) -> Option<AgentView<V>>
    decreases agents.len(),
{
    if agents.len() == 0 {
        None
    } else if agents[0].id == id {
        Some(agents[0])
    } else {
        find_agent(agents.drop_first(), id)
    }
}

/// Every agent's state after replacing the state of the agent with the
/// given id (a no-op when no agent has that id).
pub open spec fn set_agent_state<V>(agents: Seq<AgentView<V>>, id: u64, v: V) -> Seq<AgentView<V>> {
    agents.map_values(
        |a: AgentView<V>| if a.id == id {
            AgentView { id: a.id, state: v }
        } else {
            a
        },
    )
}

/// How `find_agent` relates to membership.
pub proof fn lemma_find_agent<V>(agents: Seq<AgentView<V>>, id: u64)
    ensures
        match find_agent(agents, id) {
            Some(a) => a.id == id && exists|i: int|
                0 <= i < agents.len() && agents[i] == a && agents[i].id == id,
            None => forall|i: int| 0 <= i < agents.len() ==> agents[i].id != id,
        },
    decreases agents.len(),
{
    if agents.len() > 0 && agents[0].id != id {
        lemma_find_agent(agents.drop_first(), id);
        match find_agent(agents.drop_first(), id) {
            Some(a) => {
                let i = choose|i: int|
                    0 <= i < agents.drop_first().len() && agents.drop_first()[i] == a
                        && agents.drop_first()[i].id == id;
                assert(agents[i + 1] == a);
            },
            None => {
                assert forall|i: int| 0 <= i < agents.len() implies agents[i].id != id by {
                    if i > 0 {
                        assert(agents.drop_first()[i - 1] == agents[i]);
                    }
                }
            },
        }
    }
}

/// When ids are pairwise distinct, `find_agent` finds every agent that is
/// present, at whatever position it sits.
pub proof fn lemma_find_agent_unique<V>(agents: Seq<AgentView<V>>, id: u64, i: int)
    requires
        forall|p: int, q: int| 0 <= p < q < agents.len() ==> agents[p].id != agents[q].id,
        0 <= i < agents.len(),
        agents[i].id == id,
    ensures
        find_agent(agents, id) == Some(agents[i]),
    decreases agents.len(),
{
    if i > 0 {
        assert(agents[0].id != id);
        assert(agents.drop_first()[i - 1] == agents[i]);
        assert forall|p: int, q: int|
            0 <= p < q < agents.drop_first().len() implies agents.drop_first()[p].id
            != agents.drop_first()[q].id by {
            assert(agents.drop_first()[p] == agents[p + 1]);
            assert(agents.drop_first()[q] == agents[q + 1]);
        }
        lemma_find_agent_unique(agents.drop_first(), id, i - 1);
    }
}

/// The in-process population: an owning store of agents, addressable by
/// id, with ids handed out by a monotonically increasing counter so that
/// an id is never reused once spawned, even after the agent is killed.
pub struct LocalPopulation<S: Codable> {
    last_id: u64,
    agents: Vec<Agent<S>>,
}

impl<S: Codable> View for LocalPopulation<S> {
    type V = Seq<AgentView<S::V>>;

    closed spec fn view(&self) -> Seq<AgentView<S::V>> {
        agents_view(self.agents@)
    }
}

impl<S: Codable> LocalPopulation<S> {
    /// The next id `spawn` will hand out; every live agent's id is below it.
    pub closed spec fn spec_last_id(&self) -> u64 {
        self.last_id
    }

    /// Ids are pairwise distinct and below the id counter.
    pub open spec fn wf(&self) -> bool {
        &&& forall|i: int, j: int| 0 <= i < j < self@.len() ==> self@[i].id != self@[j].id
        &&& forall|i: int| 0 <= i < self@.len() ==> self@[i].id < self.spec_last_id()
    }

    pub fn new() -> (r: Self)
        ensures
            r.wf(),
            r@ == Seq::<AgentView<S::V>>::empty(),
            r.spec_last_id() == 0,
    {
        let r = LocalPopulation { last_id: 0, agents: Vec::new() };
        proof {
            assert(r@ =~= Seq::<AgentView<S::V>>::empty());
        }
        r
    }

    pub fn len(&self) -> (n: usize)
        ensures
            n == self@.len(),
    {
        self.agents.len()
    }

    /// Read access to the agent at a storage position, for iteration.
    pub fn agent_at(&self, i: usize) -> (a: &Agent<S>)
        requires
            i < self@.len(),
        ensures
            a@ == self@[i as int],
    {
        &self.agents[i]
    }

    /// Create a new agent with the specified state, returning the new
    /// agent's id.  The id is fresh: no agent, live or dead, ever carried
    /// it before on this population instance.
    pub fn spawn(&mut self, state: S) -> (id: u64)
        requires
            old(self).wf(),
            old(self).spec_last_id() < u64::MAX,
        ensures
            final(self).wf(),
            id == old(self).spec_last_id(),
            final(self).spec_last_id() == id + 1,
            final(self)@ == old(self)@.push(AgentView { id, state: state@ }),
            find_agent(old(self)@, id) is None,
            find_agent(final(self)@, id) == Some(AgentView { id, state: state@ }),
    {
        let id = self.last_id;
        let ghost pre = self@;
        let agent = Agent { id, state };
        let ghost av = agent@;
        self.agents.push(agent);
        self.last_id = self.last_id + 1;
        proof {
            assert(self@ =~= pre.push(av));
            lemma_find_agent(pre, id);
            assert forall|p: int, q: int| 0 <= p < q < self@.len() implies self@[p].id
                != self@[q].id by {
                if q < pre.len() {
                } else {
                    assert(self@[q].id == id);
                    assert(self@[p].id < id);
                }
            }
            lemma_find_agent_unique(self@, id, pre.len() as int);
        }
        id
    }

    /// A read-only snapshot population over the given agents, for handing
    /// `decide` the same read access the local manager gives it.  The
    /// snapshot is not meant to spawn: its id counter starts at zero.
    pub fn from_agents(agents: Vec<Agent<S>>) -> (r: Self)
        ensures
            r@ == agents_view(agents@),
    {
        let ghost av = agents@;
        let r = LocalPopulation { last_id: 0, agents };
        proof {
            assert(r@ =~= agents_view(av));
        }
        r
    }

    /// Get a snapshot copy of an agent by id; callers never mutate through
    /// a `get` result.
    pub fn get(&self, id: u64) -> (r: Option<Agent<S>>)
        ensures
            match r {
                Some(a) => find_agent(self@, id) == Some(a@) && a@.id == id,
                None => find_agent(self@, id) is None,
            },
    {
        let n = self.agents.len();
        let mut i: usize = 0;
        proof {
            assert(self@.skip(0) =~= self@);
        }
        while i < n
            invariant
                n == self@.len(),
                0 <= i <= n,
                find_agent(self@, id) == find_agent(self@.skip(i as int), id),
            decreases n - i,
        {
            proof {
                assert(self@.skip(i as int)[0] == self@[i as int]);
                assert(self@.skip(i as int).drop_first() =~= self@.skip(i as int + 1));
            }
            let a = &self.agents[i];
            if a.id == id {
                return Some(Agent { id: a.id, state: a.state.dup() });
            }
            i = i + 1;
        }
        proof {
            assert(self@.skip(n as int) =~= Seq::<AgentView<S::V>>::empty());
        }
        None
    }

    /// Delete an agent by id.  Subsequent `get` calls with the id return
    /// nothing; killing an id that is not present is a no-op, and no other
    /// agent is disturbed either way.  The id counter never rolls back, so
    /// a killed id is never reissued.
    pub fn kill(&mut self, id: u64)
        requires
            old(self).wf(),
        ensures
            final(self).wf(),
            final(self).spec_last_id() == old(self).spec_last_id(),
            find_agent(final(self)@, id) is None,
            forall|o: u64| o != id ==> find_agent(final(self)@, o) == find_agent(old(self)@, o),
            match find_agent(old(self)@, id) {
                Some(_) => final(self)@.len() == old(self)@.len() - 1,
                None => final(self)@ == old(self)@,
            },
    {
        let ghost pre = self@;
        let n = self.agents.len();
        let mut i: usize = 0;
        while i < n
            invariant
                n == self@.len(),
                0 <= i <= n,
                *self == *old(self),
                pre == old(self)@,
                old(self).wf(),
                forall|k: int| 0 <= k < i ==> self@[k].id != id,
            decreases n - i,
        {
            if self.agents[i].id == id {
                self.agents.remove(i);
                proof {
                    let post = self@;
                    assert(post =~= pre.subrange(0, i as int) + pre.subrange(
                        i as int + 1,
                        pre.len() as int,
                    ));
                    assert forall|p: int, q: int| 0 <= p < q < post.len() implies post[p].id
                        != post[q].id by {
                        lemma_remove_index_maps(pre, i as int, p);
                        lemma_remove_index_maps(pre, i as int, q);
                    }
                    assert forall|k: int| 0 <= k < post.len() implies post[k].id
                        < self.spec_last_id() by {
                        lemma_remove_index_maps(pre, i as int, k);
                    }
                    // no agent with the id is left
                    assert forall|k: int| 0 <= k < post.len() implies post[k].id != id by {
                        lemma_remove_index_maps(pre, i as int, k);
                        if k >= i as int {
                            assert(post[k] == pre[k + 1]);
                            assert(pre[i as int].id != pre[k + 1].id);
                        }
                    }
                    lemma_find_agent(post, id);
                    // every other id resolves as before
                    assert forall|o: u64| o != id implies find_agent(post, o) == find_agent(
                        pre,
                        o,
                    ) by {
                        lemma_find_agent(pre, o);
                        match find_agent(pre, o) {
                            Some(a) => {
                                let k = choose|k: int|
                                    0 <= k < pre.len() && pre[k] == a && pre[k].id == o;
                                let k2: int = if k < i as int {
                                    k
                                } else {
                                    k - 1
                                };
                                lemma_remove_index_maps(pre, i as int, k2);
                                lemma_find_agent_unique(post, o, k2);
                            },
                            None => {
                                lemma_find_agent(post, o);
                                match find_agent(post, o) {
                                    Some(a) => {
                                        let k = choose|k: int|
                                            0 <= k < post.len() && post[k] == a && post[k].id == o;
                                        lemma_remove_index_maps(pre, i as int, k);
                                        assert(false);
                                    },
                                    None => {},
                                }
                            },
                        }
                    }
                    lemma_find_agent_unique(pre, id, i as int);
                }
                return ;
            }
            i = i + 1;
        }
        proof {
            lemma_find_agent(self@, id);
            match find_agent(self@, id) {
                Some(a) => {
                    let k = choose|k: int| 0 <= k < pre.len() && pre[k] == a && pre[k].id == id;
                    assert(false);
                },
                None => {},
            }
        }
    }

    /// The sequence `tested` holds one state copy per agent, each with the
    /// agent's abstract state, and the predicate rejected every one.
    pub open spec fn spec_rejected_by<F: Fn(&S) -> bool>(
        pop: Seq<AgentView<S::V>>,
        tested: Seq<S>,
        predicate: F,
    ) -> bool {
        &&& tested.len() == pop.len()
        &&& forall|k: int| #![trigger tested[k]]
            0 <= k < pop.len() ==> tested[k]@ == pop[k].state && call_ensures(
                predicate,
                (&tested[k],),
                false,
            )
    }

    /// Every agent's state was rejected by some run of the predicate.
    pub open spec fn spec_all_rejected<F: Fn(&S) -> bool>(
        pop: Seq<AgentView<S::V>>,
        predicate: F,
    ) -> bool {
        exists|tested: Seq<S>| #[trigger] Self::spec_rejected_by(pop, tested, predicate)
    }

    /// Every returned agent is a copy of a population member whose state
    /// some run of the predicate accepted.
    pub open spec fn spec_filter_sound<F: Fn(&S) -> bool>(
        pop: Seq<AgentView<S::V>>,
        out: Seq<Agent<S>>,
        predicate: F,
    ) -> bool {
        forall|j: int| #![trigger out[j]]
            0 <= j < out.len() ==> (exists|i: int| 0 <= i < pop.len() && pop[i] == out[j]@)
                && call_ensures(predicate, (&out[j].state,), true)
    }

    /// The sequence `tested` holds one state copy per agent; every agent is
    /// either represented in the output, or its copy was rejected by a run
    /// of the predicate — so nothing beyond the rejected is left out.
    pub open spec fn spec_filter_covered<F: Fn(&S) -> bool>(
        pop: Seq<AgentView<S::V>>,
        out: Seq<Agent<S>>,
        tested: Seq<S>,
        predicate: F,
    ) -> bool {
        &&& tested.len() == pop.len()
        &&& forall|k: int| #![trigger tested[k]]
            0 <= k < pop.len() ==> (exists|j: int| 0 <= j < out.len() && out[j]@ == pop[k]) || (
            tested[k]@ == pop[k].state && call_ensures(predicate, (&tested[k],), false))
    }

    /// Every population member is either represented in the output or its
    /// state was rejected by some run of the predicate.
    pub open spec fn spec_filter_complete<F: Fn(&S) -> bool>(
        pop: Seq<AgentView<S::V>>,
        out: Seq<Agent<S>>,
        predicate: F,
    ) -> bool {
        exists|tested: Seq<S>| #[trigger] Self::spec_filter_covered(pop, out, tested, predicate)
    }

    /// A selection of up to `n` agents.  Selection carries no uniformity
    /// promise and breaks ties arbitrarily; this realization hands out the
    /// first of the store's (unspecified) iteration order.
    pub fn sample(&self, n: usize) -> (r: Vec<Agent<S>>)
        ensures
            r@.len() == if n <= self@.len() {
                n as int
            } else {
                self@.len() as int
            },
            forall|j: int| 0 <= j < r@.len() ==> r@[j]@ == self@[j],
    {
        let count = if n <= self.agents.len() {
            n
        } else {
            self.agents.len()
        };
        let mut r: Vec<Agent<S>> = Vec::new();
        let mut i: usize = 0;
        while i < count
            invariant
                count <= self@.len(),
                0 <= i <= count,
                r@.len() == i,
                forall|j: int| 0 <= j < i ==> r@[j]@ == self@[j],
            decreases count - i,
        {
            let a = self.agent_at(i);
            r.push(Agent { id: a.id, state: a.state.dup() });
            i = i + 1;
        }
        r
    }

    /// The sequence `picks` names, for each sampled agent, the population
    /// position it is a copy of.
    pub open spec fn spec_sampled_from(
        pop: Seq<AgentView<S::V>>,
        out: Seq<Agent<S>>,
        picks: Seq<int>,
    ) -> bool {
        &&& picks.len() == out.len()
        &&& forall|j: int| #![trigger picks[j]]
            0 <= j < out.len() ==> 0 <= picks[j] < pop.len() && pop[picks[j]] == out[j]@
    }

    /// One run of the weighted selection.  Candidates were tested in
    /// storage order — all of them, unless the output filled up to `n`
    /// first; `tested` holds the state copy each candidate was judged by,
    /// `weights` what the weight function returned for it, and `draws` its
    /// one random draw.  `picks` names, in increasing order, exactly the
    /// candidates whose draw fell below their weight, and the output is
    /// their copies in that order.
    pub open spec fn spec_weighted_selection<F: Fn(&S) -> u64>(
        pop: Seq<AgentView<S::V>>,
        out: Seq<Agent<S>>,
        tested: Seq<S>,
        weights: Seq<u64>,
        draws: Seq<u64>,
        picks: Seq<int>,
        n: int,
        weight: F,
    ) -> bool {
        &&& tested.len() <= pop.len()
        &&& weights.len() == tested.len()
        &&& draws.len() == tested.len()
        &&& out.len() <= n
        &&& picks.len() == out.len()
        &&& out.len() == n || tested.len() == pop.len()
        &&& forall|k: int| #![trigger tested[k]]
            0 <= k < tested.len() ==> tested[k]@ == pop[k].state && call_ensures(
                weight,
                (&tested[k],),
                weights[k],
            )
        &&& forall|j: int| #![trigger picks[j]]
            0 <= j < picks.len() ==> 0 <= picks[j] < tested.len() && draws[picks[j]]
                < weights[picks[j]] && pop[picks[j]] == out[j]@
        &&& forall|j: int| #![trigger picks[j]]
            0 <= j && j + 1 < picks.len() ==> picks[j] < picks[j + 1]
        &&& forall|k: int| #![trigger draws[k]]
            0 <= k < tested.len() && draws[k] < weights[k] ==> picks.contains(k)
    }

    /// A selection of up to `n` agents, each included when one random draw
    /// over the full 64-bit range falls below the weight the predicate
    /// assigns to its state (the weight plays the role of an inclusion
    /// probability).  The result holds, in storage order, exactly the
    /// candidates that won their draw, truncated to `n`; because every
    /// candidate must win, the sample can hold fewer than `n` agents —
    /// documented behavior, not a shortfall.
    pub fn sample_by<F: Fn(&S) -> u64>(&self, weight: &F, n: usize) -> (r: Vec<Agent<S>>)
        requires
            forall|s: &S| #[trigger] call_requires(*weight, (s,)),
        ensures
            r@.len() <= n,
            exists|tested: Seq<S>, weights: Seq<u64>, draws: Seq<u64>, picks: Seq<int>|
                #[trigger] Self::spec_weighted_selection(
                    self@,
                    r@,
                    tested,
                    weights,
                    draws,
                    picks,
                    n as int,
                    *weight,
                ),
    {
        let m = self.agents.len();
        let mut r: Vec<Agent<S>> = Vec::new();
        let mut i: usize = 0;
        let ghost mut tested: Seq<S> = Seq::empty();
        let ghost mut weights: Seq<u64> = Seq::empty();
        let ghost mut draws: Seq<u64> = Seq::empty();
        let ghost mut picks: Seq<int> = Seq::empty();
        while i < m && r.len() < n
            invariant
                forall|s: &S| #[trigger] call_requires(*weight, (s,)),
                m == self@.len(),
                0 <= i <= m,
                r@.len() <= n,
                tested.len() == i,
                weights.len() == i,
                draws.len() == i,
                picks.len() == r@.len(),
                forall|k: int| #![trigger tested[k]]
                    0 <= k < i ==> tested[k]@ == self@[k].state && call_ensures(
                        *weight,
                        (&tested[k],),
                        weights[k],
                    ),
                forall|j: int| #![trigger picks[j]]
                    0 <= j < picks.len() ==> 0 <= picks[j] < i && draws[picks[j]]
                        < weights[picks[j]] && self@[picks[j]] == r@[j]@,
                forall|j: int| #![trigger picks[j]]
                    0 <= j && j + 1 < picks.len() ==> picks[j] < picks[j + 1],
                forall|k: int| #![trigger draws[k]]
                    0 <= k < i && draws[k] < weights[k] ==> picks.contains(k),
            decreases m - i,
        {
            let a = self.agent_at(i);
            let candidate = Agent { id: a.id, state: a.state.dup() };
            let w = weight(&candidate.state);
            let draw = random_u64();
            let ghost prev_picks = picks;
            if draw < w {
                let ghost prev = r@;
                proof {
                    assert(candidate@ == self@[i as int]);
                }
                r.push(candidate);
                proof {
                    picks = picks.push(i as int);
                    assert(r@[prev.len() as int]@ == self@[i as int]);
                    assert(forall|j: int| 0 <= j < prev.len() ==> r@[j] == prev[j]);
                    assert(picks[prev_picks.len() as int] == i as int);
                    assert(forall|j: int| 0 <= j < prev_picks.len() ==> picks[j] == prev_picks[j]);
                }
            }
            proof {
                tested = tested.push(candidate.state);
                weights = weights.push(w);
                draws = draws.push(draw);
                assert(tested[i as int]@ == self@[i as int].state);
                assert(weights[i as int] == w);
                assert(draws[i as int] == draw);
                assert forall|k: int|
                    0 <= k < i + 1 && draws[k] < weights[k] implies picks.contains(k) by {
                    if k == i as int {
                        assert(picks[picks.len() - 1] == k);
                    } else {
                        assert(prev_picks.contains(k));
                        let idx = choose|idx: int|
                            0 <= idx < prev_picks.len() && prev_picks[idx] == k;
                        assert(picks[idx] == k);
                    }
                }
            }
            i = i + 1;
        }
        proof {
            assert(Self::spec_weighted_selection(
                self@,
                r@,
                tested,
                weights,
                draws,
                picks,
                n as int,
                *weight,
            ));
        }
        r
    }

    /// Find an agent whose state satisfies the predicate.  Which match is
    /// returned when several exist is not part of the contract: storage
    /// iteration order is unspecified, so this serves "any match" queries,
    /// not order-sensitive ones.
    pub fn find<F: Fn(&S) -> bool>(&self, predicate: &F) -> (r: Option<Agent<S>>)
        requires
            forall|s: &S| #[trigger] call_requires(*predicate, (s,)),
        ensures
            match r {
                Some(a) => (exists|i: int| 0 <= i < self@.len() && self@[i] == a@)
                    && call_ensures(*predicate, (&a.state,), true),
                None => Self::spec_all_rejected(self@, *predicate),
            },
    {
        let n = self.agents.len();
        let mut i: usize = 0;
        let ghost mut tested: Seq<S> = Seq::empty();
        while i < n
            invariant
                forall|s: &S| #[trigger] call_requires(*predicate, (s,)),
                n == self@.len(),
                0 <= i <= n,
                tested.len() == i,
                forall|k: int| #![trigger tested[k]]
                    0 <= k < i ==> tested[k]@ == self@[k].state && call_ensures(
                        *predicate,
                        (&tested[k],),
                        false,
                    ),
            decreases n - i,
        {
            let a = self.agent_at(i);
            let candidate = Agent { id: a.id, state: a.state.dup() };
            if predicate(&candidate.state) {
                proof {
                    assert(candidate@ == self@[i as int]);
                    assert(exists|k: int| 0 <= k < self@.len() && self@[k] == candidate@);
                }
                return Some(candidate);
            }
            proof {
                tested = tested.push(candidate.state);
                assert(tested[i as int]@ == self@[i as int].state);
            }
            i = i + 1;
        }
        proof {
            assert(Self::spec_rejected_by(self@, tested, *predicate));
            assert(Self::spec_all_rejected(self@, *predicate));
        }
        None
    }

    /// A snapshot-at-call-time view of the agents whose states satisfy the
    /// predicate, as copies: the caller never mutates through them.
    pub fn filter<F: Fn(&S) -> bool>(&self, predicate: &F) -> (r: Vec<Agent<S>>)
        requires
            forall|s: &S| #[trigger] call_requires(*predicate, (s,)),
        ensures
            Self::spec_filter_sound(self@, r@, *predicate),
            Self::spec_filter_complete(self@, r@, *predicate),
    {
        let n = self.agents.len();
        let mut r: Vec<Agent<S>> = Vec::new();
        let mut i: usize = 0;
        let ghost mut rejected: Seq<S> = Seq::empty();
        let ghost mut verdicts: Seq<bool> = Seq::empty();
        while i < n
            invariant
                forall|s: &S| #[trigger] call_requires(*predicate, (s,)),
                n == self@.len(),
                0 <= i <= n,
                verdicts.len() == i,
                rejected.len() == i,
                forall|j: int| #![trigger r@[j]]
                    0 <= j < r@.len() ==> (exists|i2: int|
                        0 <= i2 < self@.len() && self@[i2] == r@[j]@) && call_ensures(
                        *predicate,
                        (&r@[j].state,),
                        true,
                    ),
                forall|k: int| #![trigger verdicts[k]]
                    0 <= k < i ==> if verdicts[k] {
                        exists|j: int| 0 <= j < r@.len() && r@[j]@ == self@[k]
                    } else {
                        rejected[k]@ == self@[k].state && call_ensures(
                            *predicate,
                            (&rejected[k],),
                            false,
                        )
                    },
            decreases n - i,
        {
            let a = self.agent_at(i);
            let candidate = Agent { id: a.id, state: a.state.dup() };
            let ghost prev_r = r@;
            if predicate(&candidate.state) {
                proof {
                    assert(candidate@ == self@[i as int]);
                    rejected = rejected.push(candidate.state);
                    verdicts = verdicts.push(true);
                }
                r.push(candidate);
                proof {
                    assert(r@[prev_r.len() as int]@ == self@[i as int]);
                    assert(forall|j: int| 0 <= j < prev_r.len() ==> r@[j] == prev_r[j]);
                    assert(exists|j: int| 0 <= j < r@.len() && r@[j]@ == self@[i as int]);
                }
            } else {
                proof {
                    rejected = rejected.push(candidate.state);
                    verdicts = verdicts.push(false);
                    assert(rejected[i as int]@ == self@[i as int].state);
                }
            }
            i = i + 1;
        }
        proof {
            assert forall|k: int| #![trigger rejected[k]]
                0 <= k < self@.len() implies (exists|j: int|
                0 <= j < r@.len() && r@[j]@ == self@[k]) || (rejected[k]@ == self@[k].state
                && call_ensures(*predicate, (&rejected[k],), false)) by {
                if verdicts[k] {
                } else {
                    assert(rejected[k]@ == self@[k].state);
                    assert(call_ensures(*predicate, (&rejected[k],), false));
                }
            }
            assert(Self::spec_filter_covered(self@, r@, rejected, *predicate));
            assert(Self::spec_filter_complete(self@, r@, *predicate));
            assert forall|j: int| #![trigger r@[j]]
                0 <= j < r@.len() implies (exists|i2: int|
                0 <= i2 < self@.len() && self@[i2] == r@[j]@) && call_ensures(
                *predicate,
                (&r@[j].state,),
                true,
            ) by {}
            assert(Self::spec_filter_sound(self@, r@, *predicate));
        }
        r
    }

    /// Replace the state of the agent with the given id, if present.
    /// Returns whether the agent was found; when it was not, the
    /// population is unchanged (`set_agent_state` is then the identity).
    pub fn set_state(&mut self, id: u64, state: S) -> (found: bool)
        requires
            old(self).wf(),
        ensures
            final(self).wf(),
            final(self).spec_last_id() == old(self).spec_last_id(),
            found == (find_agent(old(self)@, id) is Some),
            final(self)@ == set_agent_state(old(self)@, id, state@),
    {
        let ghost pre = self@;
        let n = self.agents.len();
        let mut i: usize = 0;
        while i < n
            invariant
                n == self@.len(),
                0 <= i <= n,
                *self == *old(self),
                old(self).wf(),
                pre == old(self)@,
                forall|k: int| 0 <= k < i ==> self@[k].id != id,
            decreases n - i,
        {
            if self.agents[i].id == id {
                let a = Agent { id, state };
                let ghost av = a@;
                self.agents.set(i, a);
                proof {
                    assert(self@ =~= pre.update(i as int, av));
                    assert forall|k: int|
                        0 <= k < pre.len() && k != i as int implies pre[k].id != id by {
                        if k > i as int {
                            assert(pre[i as int].id == id);
                        }
                    }
                    assert(self@ =~= set_agent_state(pre, id, state@));
                    lemma_find_agent_unique(pre, id, i as int);
                }
                return true;
            }
            i = i + 1;
        }
        proof {
            lemma_find_agent(pre, id);
            match find_agent(pre, id) {
                Some(a) => {
                    let k = choose|k: int| 0 <= k < pre.len() && pre[k] == a && pre[k].id == id;
                    assert(false);
                },
                None => {},
            }
            assert(self@ =~= set_agent_state(pre, id, state@));
        }
        false
    }
}

/// Law: spawned ids never repeat.  Every agent's id lies strictly below
/// the id counter, the counter only ever grows, and `spawn` returns the
/// counter's value — so no two `spawn` calls on one population instance
/// ever return the same id, even across intervening kills.
pub proof fn lemma_ids_below_counter<S: Codable>(pop: LocalPopulation<S>, i: int)
    requires
        pop.wf(),
        0 <= i < pop@.len(),
    ensures
        pop@[i].id < pop.spec_last_id(),
{
}

/// After removing the element at position `i`, position `k` of the result
/// holds what sat at `k` (before `i`) or at `k + 1` (at or after `i`).
proof fn lemma_remove_index_maps<V>(s: Seq<AgentView<V>>, i: int, k: int)
    requires
        0 <= i < s.len(),
        0 <= k < s.len() - 1,
    ensures
        (s.subrange(0, i) + s.subrange(i + 1, s.len() as int))[k] == if k < i {
            s[k]
        } else {
            s[k + 1]
        },
{
}

/// A population behind the engine's reader/writer discipline: concurrent
/// readers while deciding, one exclusive writer while applying.  Each call
/// holds access for its own duration only; the containing process supplies
/// the actual lock around the exclusive owner.
pub struct SharedPopulation<S: Codable> {
    pub population: LocalPopulation<S>,
}

impl<S: Codable> View for SharedPopulation<S> {
    type V = Seq<AgentView<S::V>>;

    open spec fn view(&self) -> Seq<AgentView<S::V>> {
        self.population@
    }
}

impl<S: Codable> SharedPopulation<S> {
    pub open spec fn wf(&self) -> bool {
        self.population.wf()
    }

    pub open spec fn spec_last_id(&self) -> u64 {
        self.population.spec_last_id()
    }

    pub fn new() -> (r: Self)
        ensures
            r.wf(),
            r@ == Seq::<AgentView<S::V>>::empty(),
            r.spec_last_id() == 0,
    {
        SharedPopulation { population: LocalPopulation::new() }
    }

    /// See [`LocalPopulation::spawn`].
    pub fn spawn(&mut self, state: S) -> (id: u64)
        requires
            old(self).wf(),
            old(self).spec_last_id() < u64::MAX,
        ensures
            final(self).wf(),
            id == old(self).spec_last_id(),
            final(self).spec_last_id() == id + 1,
            final(self)@ == old(self)@.push(AgentView { id, state: state@ }),
            find_agent(old(self)@, id) is None,
            find_agent(final(self)@, id) == Some(AgentView { id, state: state@ }),
    {
        self.population.spawn(state)
    }

    /// See [`LocalPopulation::get`].
    pub fn get(&self, id: u64) -> (r: Option<Agent<S>>)
        ensures
            match r {
                Some(a) => find_agent(self@, id) == Some(a@) && a@.id == id,
                None => find_agent(self@, id) is None,
            },
    {
        self.population.get(id)
    }

    /// See [`LocalPopulation::kill`].
    pub fn kill(&mut self, id: u64)
        requires
            old(self).wf(),
        ensures
            final(self).wf(),
            final(self).spec_last_id() == old(self).spec_last_id(),
            find_agent(final(self)@, id) is None,
            forall|o: u64| o != id ==> find_agent(final(self)@, o) == find_agent(old(self)@, o),
            match find_agent(old(self)@, id) {
                Some(_) => final(self)@.len() == old(self)@.len() - 1,
                None => final(self)@ == old(self)@,
            },
    {
        self.population.kill(id)
    }

    /// See [`LocalPopulation::set_state`].
    pub fn set_state(&mut self, id: u64, state: S) -> (found: bool)
        requires
            old(self).wf(),
        ensures
            final(self).wf(),
            final(self).spec_last_id() == old(self).spec_last_id(),
            found == (find_agent(old(self)@, id) is Some),
            final(self)@ == set_agent_state(old(self)@, id, state@),
    {
        self.population.set_state(id, state)
    }

    /// Read access for the decide phase.
    pub fn read(&self) -> (r: &LocalPopulation<S>)
        ensures
            r == &self.population,
    {
        &self.population
    }
}

} // verus!
