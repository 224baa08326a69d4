//! An in-memory realization of the shared-store contract the distributed
//! engine coordinates through: key/value slots holding opaque byte blobs,
//! named sets of ids with atomic add / remove / pop / cardinality, and
//! per-key lists of blobs.  Every operation here is one of the primitive,
//! atomically-executed store commands the protocol is built on.

use vstd::prelude::*;
use vstd::pervasive::VecAdditionalExecFns;


verus! {

// ---------------------------------------------------------------------------
// A set of agent ids
// ---------------------------------------------------------------------------

/// A named set of ids.  The backing vector carries no duplicates; its
/// abstract value is the set of its elements.
pub struct IdSet {
    pub ids: Vec<u64>,
}

impl View for IdSet {
    type V = Set<u64>;

    open spec fn view(&self) -> Set<u64> {
        self.ids@.to_set()
    }
}

impl IdSet {
    pub open spec fn wf(&self) -> bool {
        self.ids@.no_duplicates()
    }

    pub fn new() -> (r: Self)
        ensures
            r.wf(),
            r@ == Set::<u64>::empty(),
    {
        let r = IdSet { ids: Vec::new() };
        proof {
            assert(r@ =~= Set::<u64>::empty());
        }
        r
    }

    /// Set membership.
    pub fn contains(&self, id: u64) -> (r: bool)
        ensures
            r == self@.contains(id),
    {
        let n = self.ids.len();
        let mut i: usize = 0;
        while i < n
            invariant
                n == self.ids@.len(),
                0 <= i <= n,
                forall|k: int| 0 <= k < i ==> self.ids@[k] != id,
            decreases n - i,
        {
            if self.ids[i] == id {
                assert(self@.contains(id));
                return true;
            }
            i = i + 1;
        }
        proof {
            if self@.contains(id) {
                let k = choose|k: int| 0 <= k < self.ids@.len() && self.ids@[k] == id;
                assert(false);
            }
        }
        false
    }

    /// Atomic set-add: a no-op when the id is already a member.
    pub fn add(&mut self, id: u64)
        requires
            old(self).wf(),
        ensures
            final(self).wf(),
            final(self)@ == old(self)@.insert(id),
    {
        if !self.contains(id) {
            let ghost pre = self.ids@;
            self.ids.push(id);
            proof {
                assert forall|p: int, q: int|
                    0 <= p < q < self.ids@.len() && p != q implies self.ids@[p]
                    != self.ids@[q] by {
                    if q == pre.len() {
                        assert(!pre.to_set().contains(id));
                        assert(self.ids@[p] == pre[p]);
                    }
                }
                assert(self.ids@.no_duplicates());
                assert forall|x: u64| self@.contains(x) <==> old(self)@.insert(id).contains(
                    x,
                ) by {
                    if self@.contains(x) {
                        let k = choose|k: int| 0 <= k < self.ids@.len() && self.ids@[k] == x;
                        if k < pre.len() {
                            assert(pre[k] == x);
                        }
                    }
                    if old(self)@.contains(x) {
                        let k = choose|k: int| 0 <= k < pre.len() && pre[k] == x;
                        assert(self.ids@[k] == x);
                    }
                    if x == id {
                        assert(self.ids@[pre.len() as int] == x);
                    }
                }
                assert(self@ =~= old(self)@.insert(id));
            }
        } else {
            proof {
                assert(self@ =~= old(self)@.insert(id));
            }
        }
    }

    /// Atomic set-remove: a no-op when the id is not a member.
    pub fn remove(&mut self, id: u64)
        requires
            old(self).wf(),
        ensures
            final(self).wf(),
            final(self)@ == old(self)@.remove(id),
    {
        let ghost pre = self.ids@;
        let n = self.ids.len();
        let mut i: usize = 0;
        while i < n
            invariant
                n == self.ids@.len(),
                0 <= i <= n,
                *self == *old(self),
                pre == old(self).ids@,
                old(self).wf(),
                forall|k: int| 0 <= k < i ==> self.ids@[k] != id,
            decreases n - i,
        {
            if self.ids[i] == id {
                self.ids.remove(i);
                proof {
                    let post = self.ids@;
                    assert(post =~= pre.subrange(0, i as int) + pre.subrange(
                        i as int + 1,
                        pre.len() as int,
                    ));
                    assert forall|k: int| 0 <= k < post.len() implies post[k] == (if k < i as int {
                        pre[k]
                    } else {
                        pre[k + 1]
                    }) by {}
                    assert forall|p: int, q: int|
                        0 <= p < q < post.len() && p != q implies post[p] != post[q] by {}
                    assert(post.no_duplicates());
                    assert forall|x: u64| post.to_set().contains(x) <==> pre.to_set().remove(
                        id,
                    ).contains(x) by {
                        if post.to_set().contains(x) {
                            let k = choose|k: int| 0 <= k < post.len() && post[k] == x;
                            if k < i as int {
                                assert(pre[k] == x);
                            } else {
                                assert(pre[k + 1] == x);
                            }
                            if x == id {
                                assert(false);
                            }
                        }
                        if x != id && pre.to_set().contains(x) {
                            let k = choose|k: int| 0 <= k < pre.len() && pre[k] == x;
                            if k < i as int {
                                assert(post[k] == x);
                            } else {
                                assert(k != i as int);
                                assert(post[k - 1] == x);
                            }
                        }
                    }
                    assert(self@ =~= old(self)@.remove(id));
                }
                return ;
            }
            i = i + 1;
        }
        proof {
            if pre.to_set().contains(id) {
                let k = choose|k: int| 0 <= k < pre.len() && pre[k] == id;
                assert(false);
            }
            assert(self@ =~= old(self)@.remove(id));
        }
    }

    /// Atomic pop: hand out some member and remove it, or report the set
    /// empty.  Which member leaves is not part of the contract.
    pub fn pop(&mut self) -> (r: Option<u64>)
        requires
            old(self).wf(),
        ensures
            final(self).wf(),
            match r {
                Some(id) => old(self)@.contains(id) && final(self)@ == old(self)@.remove(id)
                    && final(self).ids@.len() == old(self).ids@.len() - 1,
                None => old(self)@ == Set::<u64>::empty() && final(self)@ == old(self)@
                    && final(self).ids@.len() == old(self).ids@.len(),
            },
    {
        let ghost pre = self.ids@;
        match self.ids.pop() {
            Some(id) => {
                proof {
                    let post = self.ids@;
                    assert(post =~= pre.drop_last());
                    assert(pre[pre.len() - 1] == id);
                    assert(pre.to_set().contains(id));
                    assert forall|x: u64| post.to_set().contains(x) <==> pre.to_set().remove(
                        id,
                    ).contains(x) by {
                        if post.to_set().contains(x) {
                            let k = choose|k: int| 0 <= k < post.len() && post[k] == x;
                            assert(pre[k] == x);
                            if x == id {
                                assert(pre[k] == pre[pre.len() - 1]);
                                assert(false);
                            }
                        }
                        if x != id && pre.to_set().contains(x) {
                            let k = choose|k: int| 0 <= k < pre.len() && pre[k] == x;
                            assert(k != pre.len() - 1);
                            assert(post[k] == x);
                        }
                    }
                    assert(self@ =~= old(self)@.remove(id));
                }
                Some(id)
            },
            None => {
                proof {
                    assert(pre.len() == 0);
                    assert(self@ =~= Set::<u64>::empty());
                }
                None
            },
        }
    }

    /// Atomic set-cardinality.
    pub fn card(&self) -> (r: usize)
        requires
            self.wf(),
        ensures
            r == self@.len(),
    {
        proof {
            self.ids@.unique_seq_to_set();
        }
        self.ids.len()
    }
}

// ---------------------------------------------------------------------------
// Key/value slots
// ---------------------------------------------------------------------------

/// Whether some entry carries the key.
pub open spec fn kv_contains<V: DeepView>(entries: Seq<(u64, V)>, k: u64) -> bool {
    exists|i: int| 0 <= i < entries.len() && entries[i].0 == k
}

/// The abstract value stored under a key (of the first entry carrying it;
/// well-formed maps carry each key once).
pub open spec fn kv_index<V: DeepView>(entries: Seq<(u64, V)>, k: u64) -> V::V {
    entries[choose|i: int| 0 <= i < entries.len() && entries[i].0 == k].1.deep_view()
}

/// The mapping a sequence of entries stores.
pub open spec fn kv_as_map<V: DeepView>(entries: Seq<(u64, V)>) -> Map<u64, V::V> {
    Map::new(|k: u64| kv_contains(entries, k), |k: u64| kv_index(entries, k))
}

/// With pairwise-distinct keys, the entry at any position gives its key's
/// stored value.
pub proof fn lemma_kv_index_at<V: DeepView>(entries: Seq<(u64, V)>, i: int)
    requires
        forall|p: int, q: int| 0 <= p < q < entries.len() ==> entries[p].0 != entries[q].0,
        0 <= i < entries.len(),
    ensures
        kv_contains(entries, entries[i].0),
        kv_index(entries, entries[i].0) == entries[i].1.deep_view(),
{
    let k = entries[i].0;
    assert(kv_contains(entries, k));
    let j = choose|j: int| 0 <= j < entries.len() && entries[j].0 == k;
    assert(j == i);
}

/// A store of byte-blob values addressable by id, each id bound at most
/// once.
pub struct KvMap<V: DeepView> {
    pub entries: Vec<(u64, V)>,
}

impl<V: DeepView> View for KvMap<V> {
    type V = Map<u64, V::V>;

    open spec fn view(&self) -> Map<u64, V::V> {
        kv_as_map(self.entries@)
    }
}

impl<V: DeepView> KvMap<V> {
    pub open spec fn wf(&self) -> bool {
        forall|p: int, q: int|
            0 <= p < q < self.entries@.len() ==> self.entries@[p].0 != self.entries@[q].0
    }

    pub fn new() -> (r: Self)
        ensures
            r.wf(),
            r@ == Map::<u64, V::V>::empty(),
    {
        let r = KvMap { entries: Vec::new() };
        proof {
            assert(r@ =~= Map::<u64, V::V>::empty());
        }
        r
    }

    /// Key/value get.
    pub fn get(&self, k: u64) -> (r: Option<&V>)
        requires
            self.wf(),
        ensures
            match r {
                Some(v) => self@.dom().contains(k) && self@[k] == v.deep_view(),
                None => !self@.dom().contains(k),
            },
    {
        let n = self.entries.len();
        let mut i: usize = 0;
        while i < n
            invariant
                self.wf(),
                n == self.entries@.len(),
                0 <= i <= n,
                forall|j: int| 0 <= j < i ==> self.entries@[j].0 != k,
            decreases n - i,
        {
            if self.entries[i].0 == k {
                proof {
                    lemma_kv_index_at(self.entries@, i as int);
                }
                return Some(&self.entries[i].1);
            }
            i = i + 1;
        }
        proof {
            if kv_contains(self.entries@, k) {
                let j = choose|j: int|
                    0 <= j < self.entries@.len() && self.entries@[j].0 == k;
                assert(false);
            }
        }
        None
    }

    /// Key/value set: binds the key, replacing any previous value.
    pub fn set(&mut self, k: u64, v: V)
        requires
            old(self).wf(),
        ensures
            final(self).wf(),
            final(self)@ == old(self)@.insert(k, v.deep_view()),
    {
        let ghost pre = self.entries@;
        let ghost vv = v.deep_view();
        let n = self.entries.len();
        let mut i: usize = 0;
        while i < n
            invariant
                n == self.entries@.len(),
                0 <= i <= n,
                *self == *old(self),
                pre == old(self).entries@,
                old(self).wf(),
                vv == v.deep_view(),
                forall|j: int| 0 <= j < i ==> self.entries@[j].0 != k,
            decreases n - i,
        {
            if self.entries[i].0 == k {
                let ghost gpair: (u64, V) = (k, v);
                proof {
                    assert(gpair.0 == k);
                    assert(gpair.1 == v);
                    assert(gpair.1.deep_view() == vv);
                }
                self.entries.set(i, (k, v));
                proof {
                    let post = self.entries@;
                    assert(post == pre.update(i as int, gpair));
                    assert(post[i as int] == gpair);
                    assert(post[i as int].0 == k);
                    assert(post[i as int].1.deep_view() == vv);
                    assert forall|j: int|
                        0 <= j < pre.len() && j != i as int implies post[j] == pre[j] by {}
                    lemma_kv_set_found(pre, post, k, vv, i as int);
                }
                return ;
            }
            i = i + 1;
        }
        self.entries.push((k, v));
        proof {
            let post = self.entries@;
            assert(post.len() == pre.len() + 1);
            assert(post[pre.len() as int].0 == k);
            assert(post[pre.len() as int].1.deep_view() == vv);
            lemma_kv_set_missing(pre, post, k, vv);
        }
    }

    /// Key/value delete: unbinds the key; a no-op when it is unbound.
    pub fn del(&mut self, k: u64)
        requires
            old(self).wf(),
        ensures
            final(self).wf(),
            final(self)@ == old(self)@.remove(k),
    {
        match self.remove_entry(k) {
            _ => {},
        }
    }

    /// Remove the key's entry and hand its value out, if it was bound.
    pub fn remove_entry(&mut self, k: u64) -> (r: Option<V>)
        requires
            old(self).wf(),
        ensures
            final(self).wf(),
            final(self)@ == old(self)@.remove(k),
            match r {
                Some(v) => old(self)@.dom().contains(k) && old(self)@[k] == v.deep_view(),
                None => !old(self)@.dom().contains(k),
            },
    {
        let ghost pre = self.entries@;
        let n = self.entries.len();
        let mut i: usize = 0;
        while i < n
            invariant
                n == self.entries@.len(),
                0 <= i <= n,
                *self == *old(self),
                pre == old(self).entries@,
                old(self).wf(),
                forall|j: int| 0 <= j < i ==> self.entries@[j].0 != k,
            decreases n - i,
        {
            if self.entries[i].0 == k {
                proof {
                    lemma_kv_index_at(pre, i as int);
                }
                let entry = self.entries.remove(i);
                proof {
                    let post = self.entries@;
                    assert(post =~= pre.subrange(0, i as int) + pre.subrange(
                        i as int + 1,
                        pre.len() as int,
                    ));
                    lemma_kv_del(pre, post, k, i as int);
                }
                return Some(entry.1);
            }
            i = i + 1;
        }
        proof {
            if kv_contains(pre, k) {
                let j = choose|j: int| 0 <= j < pre.len() && pre[j].0 == k;
                assert(false);
            }
            assert(self@ =~= old(self)@.remove(k));
        }
        None
    }
}

proof fn lemma_kv_set_found<V: DeepView>(
    pre: Seq<(u64, V)>,
    post: Seq<(u64, V)>,
    k: u64,
    vv: V::V,
    i: int,
)
    requires
        forall|p: int, q: int| 0 <= p < q < pre.len() ==> pre[p].0 != pre[q].0,
        0 <= i < pre.len(),
        pre[i].0 == k,
        post.len() == pre.len(),
        post[i].0 == k,
        post[i].1.deep_view() == vv,
        forall|j: int| 0 <= j < pre.len() && j != i ==> post[j] == pre[j],
    ensures
        forall|p: int, q: int| 0 <= p < q < post.len() ==> post[p].0 != post[q].0,
        kv_as_map(post) == kv_as_map(pre).insert(k, vv),
{
    assert forall|p: int, q: int| 0 <= p < q < post.len() implies post[p].0 != post[q].0 by {
        assert(pre[p].0 != pre[q].0);
    }
    let m1 = kv_as_map(post);
    let m2 = kv_as_map(pre).insert(k, vv);
    assert forall|x: u64| #[trigger] m1.dom().contains(x) <==> m2.dom().contains(x) by {
        if kv_contains(post, x) {
            let j = choose|j: int| 0 <= j < post.len() && post[j].0 == x;
            if j != i {
                assert(pre[j].0 == x);
            }
        }
        if x != k && kv_contains(pre, x) {
            let j = choose|j: int| 0 <= j < pre.len() && pre[j].0 == x;
            assert(j != i);
            assert(post[j].0 == x);
        }
        if x == k {
            assert(post[i].0 == x);
            assert(kv_contains(post, x));
        }
    }
    assert forall|x: u64| m1.dom().contains(x) implies m1[x] == m2[x] by {
        let j = choose|j: int| 0 <= j < post.len() && post[j].0 == x;
        lemma_kv_index_at(post, j);
        if x == k {
            assert(j == i);
        } else {
            assert(j != i);
            assert(pre[j].0 == x);
            lemma_kv_index_at(pre, j);
        }
    }
    assert(m1 =~= m2);
}

proof fn lemma_kv_set_missing<V: DeepView>(
    pre: Seq<(u64, V)>,
    post: Seq<(u64, V)>,
    k: u64,
    vv: V::V,
)
    requires
        forall|p: int, q: int| 0 <= p < q < pre.len() ==> pre[p].0 != pre[q].0,
        forall|j: int| 0 <= j < pre.len() ==> pre[j].0 != k,
        post.len() == pre.len() + 1,
        post[pre.len() as int].0 == k,
        post[pre.len() as int].1.deep_view() == vv,
        forall|j: int| 0 <= j < pre.len() ==> post[j] == pre[j],
    ensures
        forall|p: int, q: int| 0 <= p < q < post.len() ==> post[p].0 != post[q].0,
        kv_as_map(post) == kv_as_map(pre).insert(k, vv),
{
    assert forall|p: int, q: int| 0 <= p < q < post.len() implies post[p].0 != post[q].0 by {
        if q == pre.len() as int {
            assert(post[p].0 == pre[p].0);
        } else {
            assert(pre[p].0 != pre[q].0);
        }
    }
    let m1 = kv_as_map(post);
    let m2 = kv_as_map(pre).insert(k, vv);
    assert forall|x: u64| #[trigger] m1.dom().contains(x) <==> m2.dom().contains(x) by {
        if kv_contains(post, x) {
            let j = choose|j: int| 0 <= j < post.len() && post[j].0 == x;
            if j < pre.len() {
                assert(pre[j].0 == x);
            }
        }
        if x != k && kv_contains(pre, x) {
            let j = choose|j: int| 0 <= j < pre.len() && pre[j].0 == x;
            assert(post[j].0 == x);
        }
        if x == k {
            assert(post[pre.len() as int].0 == x);
        }
    }
    assert forall|x: u64| m1.dom().contains(x) implies m1[x] == m2[x] by {
        let j = choose|j: int| 0 <= j < post.len() && post[j].0 == x;
        lemma_kv_index_at(post, j);
        if x == k {
            assert(j == pre.len() as int);
        } else {
            assert(j < pre.len());
            assert(pre[j].0 == x);
            lemma_kv_index_at(pre, j);
        }
    }
    assert(m1 =~= m2);
}

proof fn lemma_kv_del<V: DeepView>(pre: Seq<(u64, V)>, post: Seq<(u64, V)>, k: u64, i: int)
    requires
        forall|p: int, q: int| 0 <= p < q < pre.len() ==> pre[p].0 != pre[q].0,
        0 <= i < pre.len(),
        pre[i].0 == k,
        post.len() == pre.len() - 1,
        forall|j: int| 0 <= j < post.len() ==> post[j] == (if j < i {
            pre[j]
        } else {
            pre[j + 1]
        }),
    ensures
        forall|p: int, q: int| 0 <= p < q < post.len() ==> post[p].0 != post[q].0,
        kv_as_map(post) == kv_as_map(pre).remove(k),
{
    assert forall|p: int, q: int| 0 <= p < q < post.len() implies post[p].0 != post[q].0 by {}
    let m1 = kv_as_map(post);
    let m2 = kv_as_map(pre).remove(k);
    assert forall|x: u64| #[trigger] m1.dom().contains(x) <==> m2.dom().contains(x) by {
        if kv_contains(post, x) {
            let j = choose|j: int| 0 <= j < post.len() && post[j].0 == x;
            if j < i {
                assert(pre[j].0 == x);
            } else {
                assert(pre[j + 1].0 == x);
                assert(j + 1 != i);
            }
            if x == k {
                if j < i {
                    assert(pre[j].0 != pre[i].0);
                } else {
                    assert(pre[j + 1].0 != pre[i].0);
                }
                assert(false);
            }
        }
        if x != k && kv_contains(pre, x) {
            let j = choose|j: int| 0 <= j < pre.len() && pre[j].0 == x;
            assert(j != i);
            if j < i {
                assert(post[j].0 == x);
            } else {
                assert(post[j - 1].0 == x);
            }
        }
    }
    assert forall|x: u64| m1.dom().contains(x) implies m1[x] == m2[x] by {
        let j = choose|j: int| 0 <= j < post.len() && post[j].0 == x;
        lemma_kv_index_at(post, j);
        if j < i {
            assert(pre[j].0 == x);
            lemma_kv_index_at(pre, j);
        } else {
            assert(pre[j + 1].0 == x);
            lemma_kv_index_at(pre, j + 1);
        }
    }
    assert(m1 =~= m2);
}

// ---------------------------------------------------------------------------
// The whole store
// ---------------------------------------------------------------------------

/// The abstract contents of a [`Store`].
pub struct StoreView {
    pub world: Seq<u8>,
    pub states: Map<u64, Seq<u8>>,
    pub updates: Map<u64, Seq<Seq<u8>>>,
    pub population: Set<u64>,
    pub to_decide: Set<u64>,
    pub to_update: Set<u64>,
}

/// The shared store: per-agent encoded state keyed by id, a population
/// membership set, the two phase-membership sets, per-agent pending-update
/// lists, and a single world slot.
pub struct Store {
    pub world: Vec<u8>,
    pub states: KvMap<Vec<u8>>,
    pub updates: KvMap<Vec<Vec<u8>>>,
    pub population: IdSet,
    pub to_decide: IdSet,
    pub to_update: IdSet,
}

impl View for Store {
    type V = StoreView;

    open spec fn view(&self) -> StoreView {
        StoreView {
            world: self.world@,
            states: self.states@,
            updates: self.updates@,
            population: self.population@,
            to_decide: self.to_decide@,
            to_update: self.to_update@,
        }
    }
}

impl Store {
    pub open spec fn wf(&self) -> bool {
        &&& self.states.wf()
        &&& self.updates.wf()
        &&& self.population.wf()
        &&& self.to_decide.wf()
        &&& self.to_update.wf()
    }

    pub fn new() -> (r: Self)
        ensures
            r.wf(),
            r@.world == Seq::<u8>::empty(),
            r@.states == Map::<u64, Seq<u8>>::empty(),
            r@.updates == Map::<u64, Seq<Seq<u8>>>::empty(),
            r@.population == Set::<u64>::empty(),
            r@.to_decide == Set::<u64>::empty(),
            r@.to_update == Set::<u64>::empty(),
    {
        let r = Store {
            world: Vec::new(),
            states: KvMap::new(),
            updates: KvMap::new(),
            population: IdSet::new(),
            to_decide: IdSet::new(),
            to_update: IdSet::new(),
        };
        r
    }

    /// Append one blob to a key's pending list, opening the list when the
    /// key had none.
    pub fn push_update(&mut self, id: u64, blob: Vec<u8>)
        requires
            old(self).wf(),
        ensures
            final(self).wf(),
            final(self)@.updates == list_push(old(self)@.updates, id, blob@),
            final(self).world == old(self).world,
            final(self).states == old(self).states,
            final(self).population == old(self).population,
            final(self).to_decide == old(self).to_decide,
            final(self).to_update == old(self).to_update,
    {
        let ghost bv = blob@;
        let mut lst: Vec<Vec<u8>> = match self.updates.remove_entry(id) {
            Some(lst) => lst,
            None => Vec::new(),
        };
        let ghost prelst = lst.deep_view();
        proof {
            if old(self)@.updates.dom().contains(id) {
                assert(prelst == old(self)@.updates[id]);
            } else {
                assert(prelst =~= Seq::<Seq<u8>>::empty());
            }
        }
        lst.push(blob);
        proof {
            assert(blob.deep_view() =~= bv);
            assert(lst.deep_view() =~= prelst.push(bv));
        }
        self.updates.set(id, lst);
        proof {
            assert(self@.updates =~= list_push(old(self)@.updates, id, bv));
        }
    }
}

/// A pending-update map after appending one encoded update to a target's
/// list.
pub open spec fn list_push(m: Map<u64, Seq<Seq<u8>>>, id: u64, blob: Seq<u8>) -> Map<
    u64,
    Seq<Seq<u8>>,
> {
    m.insert(
        id,
        (if m.dom().contains(id) {
            m[id]
        } else {
            Seq::empty()
        }).push(blob),
    )
}

} // verus!
