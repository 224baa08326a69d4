//! The local manager: one full simulation step over an in-process
//! population.
//!
//! A step is a decide phase followed by an apply phase.  During the decide
//! phase every agent's `decide` runs against the same read-only population
//! snapshot — the embedding process may fan the per-agent calls out over
//! worker threads, since each call only reads.  The emitted (target id,
//! update) pairs are merged into a pending-update queue, appending to any
//! existing queue for the target.  During the apply phase the manager takes
//! exclusive write access and folds each agent's queue into its state;
//! updates whose target no longer exists are dropped.

use vstd::prelude::*;
use vstd::seq_lib::group_to_multiset_ensures;
use vstd::multiset::Multiset;
use vstd::seq_lib::lemma_multiset_commutative;
use crate::simulation::{Agent, AgentView, Codable, Simulation, pairs_view, updates_view};
use crate::population::{SharedPopulation, find_agent, set_agent_state, lemma_find_agent,
    lemma_find_agent_unique};

verus! {

// ---------------------------------------------------------------------------
// The pending-update queue and its merge semantics
// ---------------------------------------------------------------------------

/// The updates queued for one target id (empty when the id has no entry).
pub open spec fn queue_for<UV>(q: Seq<(u64, Seq<UV>)>, id: u64) -> Seq<UV>
    decreases q.len(),
{
    if q.len() == 0 {
        Seq::empty()
    } else if q[0].0 == id {
        q[0].1
    } else {
        queue_for(q.drop_first(), id)
    }
}

/// The queue after appending one update for one target: the update goes to
/// the end of the target's existing queue, or opens a new entry at the end.
pub open spec fn merge_one<UV>(q: Seq<(u64, Seq<UV>)>, id: u64, u: UV) -> Seq<(u64, Seq<UV>)>
    decreases q.len(),
{
    if q.len() == 0 {
        seq![(id, seq![u])]
    } else if q[0].0 == id {
        seq![(q[0].0, q[0].1.push(u))] + q.drop_first()
    } else {
        seq![q[0]] + merge_one(q.drop_first(), id, u)
    }
}

/// The queue after merging a batch of (target id, update) pairs, in order.
pub open spec fn merge_pairs<UV>(
    q: Seq<(u64, Seq<UV>)>,
    pairs: Seq<(u64, UV)>,
) -> Seq<(u64, Seq<UV>)>
    decreases pairs.len(),
{
    if pairs.len() == 0 {
        q
    } else {
        merge_pairs(merge_one(q, pairs[0].0, pairs[0].1), pairs.drop_first())
    }
}

/// The updates a batch of pairs carries for one target, in batch order.
pub open spec fn pairs_for<UV>(pairs: Seq<(u64, UV)>, id: u64) -> Seq<UV>
    decreases pairs.len(),
{
    if pairs.len() == 0 {
        Seq::empty()
    } else if pairs[0].0 == id {
        seq![pairs[0].1] + pairs_for(pairs.drop_first(), id)
    } else {
        pairs_for(pairs.drop_first(), id)
    }
}

/// Target ids in a queue are pairwise distinct.
pub open spec fn queue_keys_unique<UV>(q: Seq<(u64, Seq<UV>)>) -> bool {
    forall|i: int, j: int| 0 <= i < j < q.len() ==> q[i].0 != q[j].0
}

proof fn lemma_merge_one_for<UV>(q: Seq<(u64, Seq<UV>)>, id: u64, u: UV, o: u64)
    requires
        queue_keys_unique(q),
    ensures
        queue_keys_unique(merge_one(q, id, u)),
        queue_for(merge_one(q, id, u), id) == queue_for(q, id).push(u),
        o != id ==> queue_for(merge_one(q, id, u), o) == queue_for(q, o),
    decreases q.len(),
{
    let m = merge_one(q, id, u);
    if q.len() == 0 {
        assert(m == seq![(id, seq![u])]);
        assert(queue_for(q, id).push(u) =~= seq![u]);
        assert(m.drop_first() =~= Seq::<(u64, Seq<UV>)>::empty());
        if o != id {
            assert(queue_for(m, o) == queue_for(m.drop_first(), o));
            assert(queue_for(Seq::<(u64, Seq<UV>)>::empty(), o) == Seq::<UV>::empty());
        }
    } else if q[0].0 == id {
        assert(m == seq![(q[0].0, q[0].1.push(u))] + q.drop_first());
        assert(m[0] == (q[0].0, q[0].1.push(u)));
        assert(m.drop_first() =~= q.drop_first());
        if o != id {
            assert(queue_for(m, o) == queue_for(m.drop_first(), o));
            assert(queue_for(q, o) == queue_for(q.drop_first(), o));
        }
        assert forall|i: int, j: int| 0 <= i < j < m.len() implies m[i].0 != m[j].0 by {
            assert(m[i].0 == q[i].0);
            assert(m[j].0 == q[j].0);
        }
    } else {
        let rest = merge_one(q.drop_first(), id, u);
        assert forall|i: int, j: int|
            0 <= i < j < q.drop_first().len() implies q.drop_first()[i].0
            != q.drop_first()[j].0 by {
            assert(q.drop_first()[i] == q[i + 1]);
            assert(q.drop_first()[j] == q[j + 1]);
        }
        lemma_merge_one_for(q.drop_first(), id, u, o);
        assert(m == seq![q[0]] + rest);
        assert(m[0] == q[0]);
        assert(m.drop_first() =~= rest);
        assert(queue_for(m, id) == queue_for(q, id).push(u));
        if o != id {
            if q[0].0 == o {
                assert(queue_for(m, o) == m[0].1);
                assert(queue_for(q, o) == q[0].1);
            } else {
                assert(queue_for(m, o) == queue_for(rest, o));
                assert(queue_for(q, o) == queue_for(q.drop_first(), o));
            }
        }
        // the head's key stays distinct from every key behind it: merging
        // only ever adds the key `id`, which differs from q[0].0
        assert forall|i: int, j: int| 0 <= i < j < m.len() implies m[i].0 != m[j].0 by {
            if i == 0 {
                assert(m[j] == rest[j - 1]);
                lemma_merge_one_key_origin(q.drop_first(), id, u, j - 1);
            } else {
                assert(m[i] == rest[i - 1]);
                assert(m[j] == rest[j - 1]);
            }
        }
    }
}

/// Every key in `merge_one(q, id, u)` is a key of `q` or is `id`.
proof fn lemma_merge_one_key_origin<UV>(q: Seq<(u64, Seq<UV>)>, id: u64, u: UV, k: int)
    requires
        0 <= k < merge_one(q, id, u).len(),
    ensures
        merge_one(q, id, u)[k].0 == id || exists|i: int|
            0 <= i < q.len() && q[i].0 == merge_one(q, id, u)[k].0,
    decreases q.len(),
{
    let m = merge_one(q, id, u);
    if q.len() == 0 {
    } else if q[0].0 == id {
        if k == 0 {
            assert(q[0].0 == m[0].0);
        } else {
            assert(m[k] == q.drop_first()[k - 1]);
            assert(q[k] == m[k]);
        }
    } else {
        if k == 0 {
            assert(m[0] == q[0]);
        } else {
            let rest = merge_one(q.drop_first(), id, u);
            assert(m[k] == rest[k - 1]);
            lemma_merge_one_key_origin(q.drop_first(), id, u, k - 1);
            if rest[k - 1].0 != id {
                let i = choose|i: int|
                    0 <= i < q.drop_first().len() && q.drop_first()[i].0 == rest[k - 1].0;
                assert(q[i + 1].0 == rest[k - 1].0);
            }
        }
    }
}

/// Merging a batch extends each target's queue by exactly that batch's
/// updates for the target, in batch order.
pub proof fn lemma_merge_pairs_for<UV>(q: Seq<(u64, Seq<UV>)>, pairs: Seq<(u64, UV)>, id: u64)
    requires
        queue_keys_unique(q),
    ensures
        queue_keys_unique(merge_pairs(q, pairs)),
        queue_for(merge_pairs(q, pairs), id) == queue_for(q, id) + pairs_for(pairs, id),
    decreases pairs.len(),
{
    if pairs.len() == 0 {
        assert(queue_for(q, id) + pairs_for(pairs, id) =~= queue_for(q, id));
    } else {
        let q1 = merge_one(q, pairs[0].0, pairs[0].1);
        lemma_merge_one_for(q, pairs[0].0, pairs[0].1, id);
        lemma_merge_pairs_for(q1, pairs.drop_first(), id);
        if pairs[0].0 == id {
            assert(queue_for(q1, id) == queue_for(q, id).push(pairs[0].1));
            assert(queue_for(q, id).push(pairs[0].1) + pairs_for(pairs.drop_first(), id)
                =~= queue_for(q, id) + (seq![pairs[0].1] + pairs_for(pairs.drop_first(), id)));
        } else {
            assert(queue_for(q1, id) == queue_for(q, id));
        }
    }
}

/// Merging distributes over batch concatenation.
pub proof fn lemma_merge_pairs_append<UV>(
    q: Seq<(u64, Seq<UV>)>,
    a: Seq<(u64, UV)>,
    b: Seq<(u64, UV)>,
)
    ensures
        merge_pairs(q, a + b) == merge_pairs(merge_pairs(q, a), b),
    decreases a.len(),
{
    if a.len() == 0 {
        assert(a + b =~= b);
    } else {
        assert((a + b)[0] == a[0]);
        assert((a + b).drop_first() =~= a.drop_first() + b);
        lemma_merge_pairs_append(merge_one(q, a[0].0, a[0].1), a.drop_first(), b);
    }
}

/// The multiset of updates a batch carries for one target is determined by
/// the multiset of its pairs alone — order plays no role.
proof fn lemma_pairs_for_count<UV>(pairs: Seq<(u64, UV)>, id: u64, u: UV)
    ensures
        pairs_for(pairs, id).to_multiset().count(u) == pairs.to_multiset().count((id, u)),
    decreases pairs.len(),
{
    broadcast use group_to_multiset_ensures;

    if pairs.len() == 0 {
        assert(pairs_for(pairs, id).to_multiset().count(u) == 0);
        assert(pairs.to_multiset().count((id, u)) == 0);
    } else {
        let rest = pairs.drop_first();
        lemma_pairs_for_count(rest, id, u);
        assert(pairs.remove(0) =~= rest);
        assert(rest.to_multiset() =~= pairs.to_multiset().remove(pairs[0]));
        if pairs[0].0 == id {
            lemma_multiset_commutative(seq![pairs[0].1], pairs_for(rest, id));
            assert(seq![pairs[0].1] =~= Seq::<UV>::empty().push(pairs[0].1));
            assert(seq![pairs[0].1].to_multiset() =~= Multiset::<UV>::empty().insert(
                pairs[0].1,
            ));
        }
    }
}

/// Law: the pending-update queue that a decide phase builds is, per target,
/// the same unordered multiset of updates whatever order the emitted pairs
/// arrive in.  Running the decide phase with many worker threads or with
/// one can only permute the merged pairs, so both schedules produce the
/// same per-target update multisets.
pub proof fn lemma_merge_order_insensitive<UV>(
    pairs1: Seq<(u64, UV)>,
    pairs2: Seq<(u64, UV)>,
    id: u64,
)
    requires
        pairs1.to_multiset() == pairs2.to_multiset(),
    ensures
        queue_for(merge_pairs(Seq::empty(), pairs1), id).to_multiset() == queue_for(
            merge_pairs(Seq::empty(), pairs2),
            id,
        ).to_multiset(),
{
    let e = Seq::<(u64, Seq<UV>)>::empty();
    lemma_merge_pairs_for(e, pairs1, id);
    lemma_merge_pairs_for(e, pairs2, id);
    assert(queue_for(e, id) + pairs_for(pairs1, id) =~= pairs_for(pairs1, id));
    assert(queue_for(e, id) + pairs_for(pairs2, id) =~= pairs_for(pairs2, id));
    assert forall|u: UV|
        pairs_for(pairs1, id).to_multiset().count(u) == pairs_for(
            pairs2,
            id,
        ).to_multiset().count(u) by {
        lemma_pairs_for_count(pairs1, id, u);
        lemma_pairs_for_count(pairs2, id, u);
    }
    assert(pairs_for(pairs1, id).to_multiset() =~= pairs_for(pairs2, id).to_multiset());
}

// ---------------------------------------------------------------------------
// The executable queue
// ---------------------------------------------------------------------------

/// The abstract value of the queue's backing storage.
pub open spec fn queue_view<U: Codable>(entries: Seq<(u64, Vec<U>)>) -> Seq<(u64, Seq<U::V>)> {
    entries.map_values(|e: (u64, Vec<U>)| (e.0, updates_view(e.1@)))
}

/// The pending-update queue of one step: updates keyed by target agent id,
/// each target's updates in the order they were merged.
pub struct UpdateQueue<U: Codable> {
    entries: Vec<(u64, Vec<U>)>,
}

impl<U: Codable> View for UpdateQueue<U> {
    type V = Seq<(u64, Seq<U::V>)>;

    closed spec fn view(&self) -> Seq<(u64, Seq<U::V>)> {
        queue_view(self.entries@)
    }
}

impl<U: Codable> UpdateQueue<U> {
    pub open spec fn wf(&self) -> bool {
        queue_keys_unique(self@)
    }

    pub fn new() -> (r: Self)
        ensures
            r.wf(),
            r@ == Seq::<(u64, Seq<U::V>)>::empty(),
    {
        let r = UpdateQueue { entries: Vec::new() };
        proof {
            assert(r@ =~= Seq::<(u64, Seq<U::V>)>::empty());
        }
        r
    }

    /// Append one update to its target's queue.
    pub fn push(&mut self, id: u64, u: U)
        requires
            old(self).wf(),
        ensures
            final(self).wf(),
            final(self)@ == merge_one(old(self)@, id, u@),
    {
        let ghost pre = self@;
        let n = self.entries.len();
        let mut i: usize = 0;
        while i < n
            invariant
                n == self.entries@.len(),
                0 <= i <= n,
                *self == *old(self),
                pre == old(self)@,
                old(self).wf(),
                forall|k: int| 0 <= k < i ==> self@[k].0 != id,
            decreases n - i,
        {
            if self.entries[i].0 == id {
                let mut entry = self.entries.remove(i);
                entry.1.push(u);
                self.entries.insert(i, entry);
                proof {
                    assert(updates_view(entry.1@) =~= pre[i as int].1.push(u@));
                    assert(self@ =~= pre.update(i as int, (id, pre[i as int].1.push(u@))));
                    lemma_merge_one_at(pre, id, u@, i as int);
                }
                return ;
            }
            i = i + 1;
        }
        let mut single: Vec<U> = Vec::new();
        single.push(u);
        let ghost uv = u@;
        self.entries.push((id, single));
        proof {
            assert(updates_view(single@) =~= seq![uv]);
            assert(self@ =~= pre.push((id, seq![uv])));
            lemma_merge_one_missing(pre, id, uv);
            assert forall|p: int, q: int| 0 <= p < q < self@.len() implies self@[p].0
                != self@[q].0 by {
                if q == pre.len() {
                    assert(self@[p].0 != id);
                }
            }
        }
    }

    /// Merge a whole batch of (target id, update) pairs, in order.
    pub fn push_all(&mut self, pairs: Vec<(u64, U)>)
        requires
            old(self).wf(),
        ensures
            final(self).wf(),
            final(self)@ == merge_pairs(old(self)@, pairs_view(pairs@)),
    {
        let ghost all = pairs_view(pairs@);
        let mut i: usize = 0;
        proof {
            assert(all.skip(0) =~= all);
        }
        while i < pairs.len()
            invariant
                0 <= i <= pairs@.len(),
                all == pairs_view(pairs@),
                self.wf(),
                merge_pairs(self@, all.skip(i as int)) == merge_pairs(old(self)@, all),
            decreases pairs@.len() - i,
        {
            proof {
                assert(all.skip(i as int)[0] == all[i as int]);
                assert(all.skip(i as int).drop_first() =~= all.skip(i as int + 1));
            }
            let target = pairs[i].0;
            let u = pairs[i].1.dup();
            self.push(target, u);
            i = i + 1;
        }
        proof {
            assert(all.skip(pairs@.len() as int) =~= Seq::<(u64, U::V)>::empty());
        }
    }

    /// Drain the queue: hand the entries out and leave the queue empty.
    pub fn take(&mut self) -> (r: Vec<(u64, Vec<U>)>)
        ensures
            final(self)@ == Seq::<(u64, Seq<U::V>)>::empty(),
            final(self).wf(),
            queue_view(r@) == old(self)@,
    {
        let mut r: Vec<(u64, Vec<U>)> = Vec::new();
        core::mem::swap(&mut r, &mut self.entries);
        proof {
            assert(self@ =~= Seq::<(u64, Seq<U::V>)>::empty());
        }
        r
    }

    pub fn is_empty(&self) -> (r: bool)
        ensures
            r == (self@.len() == 0),
    {
        self.entries.is_empty()
    }
}

/// When the first entry for `id` sits at position `k`, `merge_one` appends
/// to exactly that entry.
proof fn lemma_merge_one_at<UV>(q: Seq<(u64, Seq<UV>)>, id: u64, u: UV, k: int)
    requires
        0 <= k < q.len(),
        q[k].0 == id,
        forall|j: int| 0 <= j < k ==> q[j].0 != id,
    ensures
        merge_one(q, id, u) == q.update(k, (id, q[k].1.push(u))),
    decreases q.len(),
{
    if k == 0 {
        assert(merge_one(q, id, u) =~= q.update(0, (id, q[0].1.push(u))));
    } else {
        assert(q[0].0 != id);
        assert(q.drop_first()[k - 1] == q[k]);
        assert forall|j: int| 0 <= j < k - 1 implies q.drop_first()[j].0 != id by {
            assert(q.drop_first()[j] == q[j + 1]);
        }
        lemma_merge_one_at(q.drop_first(), id, u, k - 1);
        assert(merge_one(q, id, u) =~= q.update(k, (id, q[k].1.push(u))));
    }
}

/// When no entry for `id` exists, `merge_one` opens one at the end.
proof fn lemma_merge_one_missing<UV>(q: Seq<(u64, Seq<UV>)>, id: u64, u: UV)
    requires
        forall|j: int| 0 <= j < q.len() ==> q[j].0 != id,
    ensures
        merge_one(q, id, u) == q.push((id, seq![u])),
    decreases q.len(),
{
    if q.len() == 0 {
        assert(merge_one(q, id, u) =~= q.push((id, seq![u])));
    } else {
        assert forall|j: int| 0 <= j < q.drop_first().len() implies q.drop_first()[j].0 != id by {
            assert(q.drop_first()[j] == q[j + 1]);
        }
        lemma_merge_one_missing(q.drop_first(), id, u);
        assert(merge_one(q, id, u) =~= q.push((id, seq![u])));
    }
}

// ---------------------------------------------------------------------------
// The apply phase's semantics
// ---------------------------------------------------------------------------

/// The population after folding one target's queued updates into its state
/// (the identity when no agent carries the id: such updates are dropped).
pub open spec fn apply_one<S: Simulation>(
    sim: &S,
    pop: Seq<AgentView<<S::State as View>::V>>,
    id: u64,
    us: Seq<<S::Update as View>::V>,
) -> Seq<AgentView<<S::State as View>::V>> {
    pop.map_values(
        |a: AgentView<<S::State as View>::V>| if a.id == id {
            AgentView { id: a.id, state: sim.spec_update(a.state, us) }
        } else {
            a
        },
    )
}

/// The population after applying a whole pending queue, entry by entry.
pub open spec fn apply_queue<S: Simulation>(
    sim: &S,
    pop: Seq<AgentView<<S::State as View>::V>>,
    q: Seq<(u64, Seq<<S::Update as View>::V>)>,
) -> Seq<AgentView<<S::State as View>::V>>
    decreases q.len(),
{
    if q.len() == 0 {
        pop
    } else {
        apply_queue(sim, apply_one(sim, pop, q[0].0, q[0].1), q.drop_first())
    }
}

/// Law: applying a pending queue never disturbs an agent that no entry
/// targets.  In particular agents that received no updates in a step leave
/// the apply phase with their states unchanged.
pub proof fn lemma_untargeted_unchanged<S: Simulation>(
    sim: &S,
    pop: Seq<AgentView<<S::State as View>::V>>,
    q: Seq<(u64, Seq<<S::Update as View>::V>)>,
    id: u64,
)
    requires
        forall|k: int| 0 <= k < q.len() ==> q[k].0 != id,
    ensures
        find_agent(apply_queue(sim, pop, q), id) == find_agent(pop, id),
    decreases q.len(),
{
    if q.len() > 0 {
        lemma_apply_one_other(sim, pop, q[0].0, q[0].1, id);
        assert forall|k: int| 0 <= k < q.drop_first().len() implies q.drop_first()[k].0 != id by {
            assert(q.drop_first()[k] == q[k + 1]);
        }
        lemma_untargeted_unchanged(sim, apply_one(sim, pop, q[0].0, q[0].1), q.drop_first(), id);
    }
}

/// Law: applying a pending queue gives each agent exactly the fold of the
/// updates queued for its id: an agent present before is present after,
/// with its state folded over `queue_for` of its id (the fold of an empty
/// queue being the state itself), and an absent id stays absent.
pub proof fn lemma_apply_queue_per_agent<S: Simulation>(
    sim: &S,
    pop: Seq<AgentView<<S::State as View>::V>>,
    q: Seq<(u64, Seq<<S::Update as View>::V>)>,
    id: u64,
)
    requires
        queue_keys_unique(q),
    ensures
        find_agent(apply_queue(sim, pop, q), id) == match find_agent(pop, id) {
            Some(a) => Some(
                AgentView { id: a.id, state: sim.spec_update(a.state, queue_for(q, id)) },
            ),
            None => None,
        },
    decreases q.len(),
{
    if q.len() == 0 {
        match find_agent(pop, id) {
            Some(a) => {
                sim.lemma_update_is_fold(a.state, queue_for(q, id));
                assert(queue_for(q, id) =~= Seq::<<S::Update as View>::V>::empty());
                lemma_find_agent(pop, id);
            },
            None => {},
        }
    } else {
        let pop1 = apply_one(sim, pop, q[0].0, q[0].1);
        assert forall|p: int, r: int|
            0 <= p < r < q.drop_first().len() implies q.drop_first()[p].0
            != q.drop_first()[r].0 by {
            assert(q.drop_first()[p] == q[p + 1]);
            assert(q.drop_first()[r] == q[r + 1]);
        }
        if q[0].0 == id {
            lemma_apply_one_same(sim, pop, id, q[0].1);
            assert forall|k: int| 0 <= k < q.drop_first().len() implies q.drop_first()[k].0
                != id by {
                assert(q.drop_first()[k] == q[k + 1]);
            }
            lemma_untargeted_unchanged(sim, pop1, q.drop_first(), id);
            match find_agent(pop, id) {
                Some(a) => {
                    lemma_find_agent(pop, id);
                },
                None => {},
            }
        } else {
            lemma_apply_one_other(sim, pop, q[0].0, q[0].1, id);
            lemma_apply_queue_per_agent(sim, pop1, q.drop_first(), id);
        }
    }
}

/// Folding one target's updates replaces exactly that agent's state by the
/// folded state.
proof fn lemma_apply_one_same<S: Simulation>(
    sim: &S,
    pop: Seq<AgentView<<S::State as View>::V>>,
    id: u64,
    us: Seq<<S::Update as View>::V>,
)
    ensures
        find_agent(apply_one(sim, pop, id, us), id) == match find_agent(pop, id) {
            Some(a) => Some(AgentView { id: a.id, state: sim.spec_update(a.state, us) }),
            None => None,
        },
    decreases pop.len(),
{
    let m = apply_one(sim, pop, id, us);
    if pop.len() > 0 {
        assert(m[0].id == pop[0].id);
        if pop[0].id == id {
            assert(m[0] == AgentView { id: pop[0].id, state: sim.spec_update(pop[0].state, us) });
        } else {
            lemma_apply_one_same(sim, pop.drop_first(), id, us);
            assert(m.drop_first() =~= apply_one(sim, pop.drop_first(), id, us));
        }
    }
}

/// Folding one target's updates leaves every other id's lookup unchanged.
proof fn lemma_apply_one_other<S: Simulation>(
    sim: &S,
    pop: Seq<AgentView<<S::State as View>::V>>,
    o: u64,
    us: Seq<<S::Update as View>::V>,
    id: u64,
)
    requires
        o != id,
    ensures
        find_agent(apply_one(sim, pop, o, us), id) == find_agent(pop, id),
    decreases pop.len(),
{
    let m = apply_one(sim, pop, o, us);
    if pop.len() > 0 {
        assert(m[0].id == pop[0].id);
        lemma_apply_one_other(sim, pop.drop_first(), o, us, id);
        assert(m.drop_first() =~= apply_one(sim, pop.drop_first(), o, us));
        if pop[0].id == id {
            assert(m[0] == pop[0]);
        }
    }
}

// ---------------------------------------------------------------------------
// The manager
// ---------------------------------------------------------------------------

/// The (target id, update) pairs emitted by the first `i` agents of the
/// snapshot, concatenated in snapshot order.
pub open spec fn decide_upto<S: Simulation>(
    sim: &S,
    world: <S::World as View>::V,
    pop: Seq<AgentView<<S::State as View>::V>>,
    i: int,
) -> Seq<(u64, <S::Update as View>::V)>
    decreases i,
{
    if i <= 0 {
        Seq::empty()
    } else {
        decide_upto(sim, world, pop, i - 1) + sim.spec_decide(pop[i - 1], world, pop)
    }
}

/// Everything every agent decides in one decide phase.
pub open spec fn decide_all<S: Simulation>(
    sim: &S,
    world: <S::World as View>::V,
    pop: Seq<AgentView<<S::State as View>::V>>,
) -> Seq<(u64, <S::Update as View>::V)> {
    decide_upto(sim, world, pop, pop.len() as int)
}

/// Orchestrates one full step (decide phase + apply phase) over one
/// population, entirely in process.
pub struct LocalManager<S: Simulation> {
    pub updates: UpdateQueue<S::Update>,
    pub world: S::World,
    pub population: SharedPopulation<S::State>,
    pub simulation: S,
}

impl<S: Simulation> LocalManager<S> {
    pub open spec fn wf(&self) -> bool {
        &&& self.population.wf()
        &&& self.updates.wf()
    }

    pub open spec fn spec_updates(&self) -> Seq<(u64, Seq<<S::Update as View>::V>)> {
        self.updates@
    }

    pub open spec fn spec_world(&self) -> <S::World as View>::V {
        self.world@
    }

    pub open spec fn spec_sim(&self) -> S {
        self.simulation
    }

    pub fn new(simulation: S, world: S::World) -> (r: Self)
        ensures
            r.wf(),
            r.population@ == Seq::<AgentView<<S::State as View>::V>>::empty(),
            r.population.spec_last_id() == 0,
            r.spec_updates() == Seq::<(u64, Seq<<S::Update as View>::V>)>::empty(),
            r.spec_world() == world@,
            r.spec_sim() == simulation,
    {
        LocalManager {
            updates: UpdateQueue::new(),
            world,
            population: SharedPopulation::new(),
            simulation,
        }
    }

    /// The decide phase: run every agent's `decide` against the same
    /// read-only snapshot of the population, and merge everything emitted
    /// into the pending-update queue in snapshot order.  No update is
    /// applied here, and no decide call observes another's output: the
    /// population is unchanged.
    pub fn decide(&mut self)
        requires
            old(self).wf(),
        ensures
            final(self).wf(),
            final(self).population == old(self).population,
            final(self).spec_world() == old(self).spec_world(),
            final(self).spec_sim() == old(self).spec_sim(),
            final(self).spec_updates() == merge_pairs(
                old(self).spec_updates(),
                decide_all(&old(self).spec_sim(), old(self).spec_world(), old(self).population@),
            ),
    {
        let ghost popv = self.population@;
        let pop = self.population.read();
        let n = pop.len();
        let mut i: usize = 0;
        while i < n
            invariant
                old(self).wf(),
                n == popv.len(),
                0 <= i <= n,
                popv == old(self).population@,
                self.population == old(self).population,
                self.world == old(self).world,
                self.simulation == old(self).simulation,
                self.updates.wf(),
                self.updates@ == merge_pairs(
                    old(self).updates@,
                    decide_upto(&old(self).simulation, old(self).world@, popv, i as int),
                ),
            decreases n - i,
        {
            let pop = self.population.read();
            let agent = pop.agent_at(i);
            let batch = self.simulation.decide(agent, &self.world, pop);
            proof {
                lemma_merge_pairs_append(
                    old(self).updates@,
                    decide_upto(&old(self).simulation, old(self).world@, popv, i as int),
                    pairs_view(batch@),
                );
            }
            self.updates.push_all(batch);
            i = i + 1;
        }
    }

    /// The apply phase: take exclusive write access, fold each queued
    /// entry's updates into its target agent (dropping entries whose
    /// target no longer exists), and clear the queue.
    pub fn update(&mut self)
        requires
            old(self).wf(),
        ensures
            final(self).wf(),
            final(self).spec_world() == old(self).spec_world(),
            final(self).spec_sim() == old(self).spec_sim(),
            final(self).population.spec_last_id() == old(self).population.spec_last_id(),
            final(self).spec_updates() == Seq::<(u64, Seq<<S::Update as View>::V>)>::empty(),
            final(self).population@ == apply_queue(
                &old(self).spec_sim(),
                old(self).population@,
                old(self).spec_updates(),
            ),
    {
        let entries = self.updates.take();
        let ghost qv = old(self).updates@;
        let n = entries.len();
        let mut i: usize = 0;
        proof {
            assert(qv.skip(0) =~= qv);
        }
        while i < n
            invariant
                old(self).wf(),
                n == entries@.len(),
                0 <= i <= n,
                queue_view(entries@) == qv,
                self.world == old(self).world,
                self.simulation == old(self).simulation,
                self.updates@ == Seq::<(u64, Seq<<S::Update as View>::V>)>::empty(),
                self.updates.wf(),
                self.population.wf(),
                self.population.spec_last_id() == old(self).population.spec_last_id(),
                apply_queue(&old(self).simulation, self.population@, qv.skip(i as int))
                    == apply_queue(&old(self).simulation, old(self).population@, qv),
            decreases n - i,
        {
            proof {
                assert(qv.skip(i as int)[0] == qv[i as int]);
                assert(qv.skip(i as int).drop_first() =~= qv.skip(i as int + 1));
            }
            let id = entries[i].0;
            let ghost usv = qv[i as int].1;
            let ghost popv = self.population@;
            match self.population.get(id) {
                Some(agent) => {
                    let new_state = self.simulation.update(agent.state, &entries[i].1);
                    self.population.set_state(id, new_state);
                    proof {
                        lemma_set_is_apply_one(
                            &old(self).simulation,
                            popv,
                            id,
                            usv,
                            agent@.state,
                        );
                    }
                },
                None => {
                    proof {
                        lemma_missing_apply_one(&old(self).simulation, popv, id, usv);
                    }
                },
            }
            i = i + 1;
        }
        proof {
            assert(qv.skip(n as int) =~= Seq::<(u64, Seq<<S::Update as View>::V>)>::empty());
        }
    }
}

/// When the agent is present, replacing its state by its folded state is
/// exactly `apply_one`.
proof fn lemma_set_is_apply_one<S: Simulation>(
    sim: &S,
    pop: Seq<AgentView<<S::State as View>::V>>,
    id: u64,
    us: Seq<<S::Update as View>::V>,
    state: <S::State as View>::V,
)
    requires
        forall|i: int, j: int| 0 <= i < j < pop.len() ==> pop[i].id != pop[j].id,
        find_agent(pop, id) == Some(AgentView { id, state }),
    ensures
        set_agent_state(pop, id, sim.spec_update(state, us)) == apply_one(sim, pop, id, us),
{
    lemma_find_agent(pop, id);
    let a = find_agent(pop, id).unwrap();
    let k = choose|k: int| 0 <= k < pop.len() && pop[k] == a && pop[k].id == id;
    assert forall|m: int| 0 <= m < pop.len() implies set_agent_state(pop, id, sim.spec_update(
        state,
        us,
    ))[m] == apply_one(sim, pop, id, us)[m] by {
        if pop[m].id == id {
            lemma_find_agent_unique(pop, id, m);
            assert(pop[m] == a);
        }
    }
    assert(set_agent_state(pop, id, sim.spec_update(state, us)) =~= apply_one(sim, pop, id, us));
}

/// When no agent carries the id, `apply_one` changes nothing.
proof fn lemma_missing_apply_one<S: Simulation>(
    sim: &S,
    pop: Seq<AgentView<<S::State as View>::V>>,
    id: u64,
    us: Seq<<S::Update as View>::V>,
)
    requires
        find_agent(pop, id) is None,
    ensures
        apply_one(sim, pop, id, us) == pop,
{
    lemma_find_agent(pop, id);
    assert(apply_one(sim, pop, id, us) =~= pop);
}

} // verus!
