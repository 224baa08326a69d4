//! A small concrete simulation: named agents with a health score.
//!
//! [`MyState`] and [`MyUpdate`] are the engine's reference state and update
//! types; [`MySimulation`] is the policy in which every agent named
//! "hello" finds an agent named "goodbye" and sends it a health boost.

use vstd::prelude::*;
use vstd::string::StringExecFns;
use crate::codec::{spec_encode_str, spec_encode_u64, spec_decode_str_at, spec_decode_u64_at,
    spec_decode_u8_at, lemma_encode_str_len, lemma_decode_str_at, lemma_decode_u64_at,
    lemma_decode_chars_at_len, encode_str_into, encode_u64_into, decode_str_at, decode_u64_at,
    decode_u8_at};
use vstd::bytes::lemma_auto_spec_u64_to_from_le_bytes;
use crate::simulation::{Agent, AgentView, Codable, Simulation, pairs_view, updates_view};
use crate::population::LocalPopulation;

verus! {

// ---------------------------------------------------------------------------
// State
// ---------------------------------------------------------------------------

/// An agent's state: a name and a health score.
#[derive(Debug, Clone, PartialEq)]
pub struct MyState {
    pub name: String,
    pub health: u64,
}

/// The abstract value of a [`MyState`].
pub struct MyStateView {
    pub name: Seq<char>,
    pub health: u64,
}

impl View for MyState {
    type V = MyStateView;

    open spec fn view(&self) -> MyStateView {
        MyStateView { name: self.name@, health: self.health }
    }
}

impl MyState {
    pub open spec fn spec_wf(v: MyStateView) -> bool {
        v.name.len() <= u64::MAX
    }

    pub open spec fn spec_encode_state(v: MyStateView) -> Seq<u8> {
        spec_encode_str(v.name) + spec_encode_u64(v.health)
    }

    pub open spec fn spec_decode_state(bytes: Seq<u8>) -> Option<MyStateView> {
        match spec_decode_str_at(bytes, 0) {
            None => None,
            Some((name, i)) => match spec_decode_u64_at(bytes, i) {
                None => None,
                Some((health, j)) => if j == bytes.len() {
                    Some(MyStateView { name, health })
                } else {
                    None
                },
            },
        }
    }
}

impl Codable for MyState {
    open spec fn wf_value(v: MyStateView) -> bool {
        MyState::spec_wf(v)
    }

    open spec fn spec_encode(v: MyStateView) -> Seq<u8> {
        MyState::spec_encode_state(v)
    }

    open spec fn spec_decode(bytes: Seq<u8>) -> Option<MyStateView> {
        MyState::spec_decode_state(bytes)
    }

    proof fn lemma_round_trip(v: MyStateView) {
        let enc_name = spec_encode_str(v.name);
        let enc = MyState::spec_encode_state(v);
        lemma_encode_str_len(v.name);
        lemma_auto_spec_u64_to_from_le_bytes();
        assert(enc.subrange(0, enc_name.len() as int) =~= enc_name);
        lemma_decode_str_at(enc, 0, v.name);
        assert(enc.subrange(enc_name.len() as int, enc.len() as int) =~= spec_encode_u64(
            v.health,
        ));
        lemma_decode_u64_at(enc, enc_name.len() as int, v.health);
        assert(v == MyStateView { name: v.name, health: v.health });
    }

    fn encode(&self) -> (r: Vec<u8>) {
        let mut out: Vec<u8> = Vec::new();
        encode_str_into(&mut out, self.name.as_str());
        encode_u64_into(&mut out, self.health);
        proof {
            assert(Seq::<u8>::empty() + spec_encode_str(self.name@) =~= spec_encode_str(
                self.name@,
            ));
        }
        out
    }

    fn decode(bytes: &[u8]) -> (r: Option<MyState>) {
        let (name, i) = match decode_str_at(bytes, 0) {
            None => {
                return None;
            },
            Some(p) => p,
        };
        let (health, j) = match decode_u64_at(bytes, i) {
            None => {
                return None;
            },
            Some(p) => p,
        };
        if j != bytes.len() {
            return None;
        }
        proof {
            match spec_decode_str_at(bytes@, 0) {
                Some(p) => {
                    match spec_decode_u64_at(bytes@, p.1) {
                        Some(q) => {
                            lemma_decode_chars_at_len(
                                bytes@,
                                spec_decode_u64_at(bytes@, 0).unwrap().1,
                                spec_decode_u64_at(bytes@, 0).unwrap().0 as nat,
                            );
                        },
                        None => {},
                    }
                },
                None => {},
            }
        }
        Some(MyState { name, health })
    }

    fn dup(&self) -> (r: MyState) {
        MyState { name: self.name.clone(), health: self.health }
    }
}

// ---------------------------------------------------------------------------
// World
// ---------------------------------------------------------------------------

/// The world shared read-only by all agents during a step.
#[derive(Debug, Clone, PartialEq)]
pub struct MyWorld {
    pub weather: String,
}

/// The abstract value of a [`MyWorld`].
pub struct MyWorldView {
    pub weather: Seq<char>,
}

impl View for MyWorld {
    type V = MyWorldView;

    open spec fn view(&self) -> MyWorldView {
        MyWorldView { weather: self.weather@ }
    }
}

impl Codable for MyWorld {
    open spec fn wf_value(v: MyWorldView) -> bool {
        v.weather.len() <= u64::MAX
    }

    open spec fn spec_encode(v: MyWorldView) -> Seq<u8> {
        spec_encode_str(v.weather)
    }

    open spec fn spec_decode(bytes: Seq<u8>) -> Option<MyWorldView> {
        match spec_decode_str_at(bytes, 0) {
            None => None,
            Some((weather, i)) => if i == bytes.len() {
                Some(MyWorldView { weather })
            } else {
                None
            },
        }
    }

    proof fn lemma_round_trip(v: MyWorldView) {
        let enc = spec_encode_str(v.weather);
        lemma_encode_str_len(v.weather);
        assert(enc.subrange(0, enc.len() as int) =~= enc);
        lemma_decode_str_at(enc, 0, v.weather);
        assert(v == MyWorldView { weather: v.weather });
    }

    fn encode(&self) -> (r: Vec<u8>) {
        let mut out: Vec<u8> = Vec::new();
        encode_str_into(&mut out, self.weather.as_str());
        proof {
            assert(Seq::<u8>::empty() + spec_encode_str(self.weather@) =~= spec_encode_str(
                self.weather@,
            ));
        }
        out
    }

    fn decode(bytes: &[u8]) -> (r: Option<MyWorld>) {
        let (weather, i) = match decode_str_at(bytes, 0) {
            None => {
                return None;
            },
            Some(p) => p,
        };
        if i != bytes.len() {
            return None;
        }
        proof {
            match spec_decode_u64_at(bytes@, 0) {
                Some(p) => {
                    lemma_decode_chars_at_len(bytes@, p.1, p.0 as nat);
                },
                None => {},
            }
        }
        Some(MyWorld { weather })
    }

    fn dup(&self) -> (r: MyWorld) {
        MyWorld { weather: self.weather.clone() }
    }
}

// ---------------------------------------------------------------------------
// Updates
// ---------------------------------------------------------------------------

/// One discrete state transition.
#[derive(Debug, Clone, PartialEq)]
pub enum MyUpdate {
    ChangeName(String),
    ChangeHealth(u64),
}

/// The abstract value of a [`MyUpdate`].
pub enum MyUpdateView {
    ChangeName(Seq<char>),
    ChangeHealth(u64),
}

impl View for MyUpdate {
    type V = MyUpdateView;

    open spec fn view(&self) -> MyUpdateView {
        match self {
            MyUpdate::ChangeName(name) => MyUpdateView::ChangeName(name@),
            MyUpdate::ChangeHealth(h) => MyUpdateView::ChangeHealth(*h),
        }
    }
}

impl MyUpdate {
    pub open spec fn spec_wf(v: MyUpdateView) -> bool {
        match v {
            MyUpdateView::ChangeName(name) => name.len() <= u64::MAX,
            MyUpdateView::ChangeHealth(_) => true,
        }
    }

    pub open spec fn spec_encode_update(v: MyUpdateView) -> Seq<u8> {
        match v {
            MyUpdateView::ChangeName(name) => seq![0u8] + spec_encode_str(name),
            MyUpdateView::ChangeHealth(h) => seq![1u8] + spec_encode_u64(h),
        }
    }

    pub open spec fn spec_decode_update(bytes: Seq<u8>) -> Option<MyUpdateView> {
        match spec_decode_u8_at(bytes, 0) {
            None => None,
            Some((tag, i)) => if tag == 0u8 {
                match spec_decode_str_at(bytes, i) {
                    None => None,
                    Some((name, j)) => if j == bytes.len() {
                        Some(MyUpdateView::ChangeName(name))
                    } else {
                        None
                    },
                }
            } else if tag == 1u8 {
                match spec_decode_u64_at(bytes, i) {
                    None => None,
                    Some((h, j)) => if j == bytes.len() {
                        Some(MyUpdateView::ChangeHealth(h))
                    } else {
                        None
                    },
                }
            } else {
                None
            },
        }
    }
}

impl Codable for MyUpdate {
    open spec fn wf_value(v: MyUpdateView) -> bool {
        MyUpdate::spec_wf(v)
    }

    open spec fn spec_encode(v: MyUpdateView) -> Seq<u8> {
        MyUpdate::spec_encode_update(v)
    }

    open spec fn spec_decode(bytes: Seq<u8>) -> Option<MyUpdateView> {
        MyUpdate::spec_decode_update(bytes)
    }

    proof fn lemma_round_trip(v: MyUpdateView) {
        match v {
            MyUpdateView::ChangeName(name) => {
                let enc = MyUpdate::spec_encode_update(v);
                let body = spec_encode_str(name);
                lemma_encode_str_len(name);
                assert(enc[0] == 0u8);
                assert(enc.subrange(1, enc.len() as int) =~= body);
                lemma_decode_str_at(enc, 1, name);
            },
            MyUpdateView::ChangeHealth(h) => {
                let enc = MyUpdate::spec_encode_update(v);
                lemma_auto_spec_u64_to_from_le_bytes();
                assert(enc[0] == 1u8);
                assert(enc.subrange(1, enc.len() as int) =~= spec_encode_u64(h));
                lemma_decode_u64_at(enc, 1, h);
            },
        }
    }

    fn encode(&self) -> (r: Vec<u8>) {
        let mut out: Vec<u8> = Vec::new();
        match self {
            MyUpdate::ChangeName(name) => {
                out.push(0u8);
                encode_str_into(&mut out, name.as_str());
                proof {
                    assert(seq![0u8] + spec_encode_str(name@) =~= Seq::<u8>::empty().push(0u8)
                        + spec_encode_str(name@));
                }
            },
            MyUpdate::ChangeHealth(h) => {
                out.push(1u8);
                encode_u64_into(&mut out, *h);
                proof {
                    assert(seq![1u8] + spec_encode_u64(*h) =~= Seq::<u8>::empty().push(1u8)
                        + spec_encode_u64(*h));
                }
            },
        }
        out
    }

    fn decode(bytes: &[u8]) -> (r: Option<MyUpdate>) {
        let (tag, i) = match decode_u8_at(bytes, 0) {
            None => {
                return None;
            },
            Some(p) => p,
        };
        if tag == 0u8 {
            let (name, j) = match decode_str_at(bytes, i) {
                None => {
                    return None;
                },
                Some(p) => p,
            };
            if j != bytes.len() {
                return None;
            }
            proof {
                match spec_decode_u64_at(bytes@, 1) {
                    Some(p) => {
                        lemma_decode_chars_at_len(bytes@, p.1, p.0 as nat);
                    },
                    None => {},
                }
            }
            Some(MyUpdate::ChangeName(name))
        } else if tag == 1u8 {
            let (h, j) = match decode_u64_at(bytes, i) {
                None => {
                    return None;
                },
                Some(p) => p,
            };
            if j != bytes.len() {
                return None;
            }
            Some(MyUpdate::ChangeHealth(h))
        } else {
            None
        }
    }

    fn dup(&self) -> (r: MyUpdate) {
        match self {
            MyUpdate::ChangeName(name) => MyUpdate::ChangeName(name.clone()),
            MyUpdate::ChangeHealth(h) => MyUpdate::ChangeHealth(*h),
        }
    }
}

// ---------------------------------------------------------------------------
// The policy
// ---------------------------------------------------------------------------

/// Folding one update into a state.  A name change replaces the name; a
/// health change adds to the health score, saturating at the largest
/// representable value.
pub open spec fn spec_apply_my(state: MyStateView, update: MyUpdateView) -> MyStateView {
    match update {
        MyUpdateView::ChangeName(name) => MyStateView { name, health: state.health },
        MyUpdateView::ChangeHealth(h) => MyStateView {
            name: state.name,
            health: if state.health + h > u64::MAX {
                u64::MAX
            } else {
                (state.health + h) as u64
            },
        },
    }
}

/// The left fold of [`spec_apply_my`].
pub open spec fn spec_fold_my(state: MyStateView, updates: Seq<MyUpdateView>) -> MyStateView
    decreases updates.len(),
{
    if updates.len() == 0 {
        state
    } else {
        spec_fold_my(spec_apply_my(state, updates[0]), updates.drop_first())
    }
}

/// The first agent in the snapshot whose name matches, if any.
pub open spec fn find_by_name(pop: Seq<AgentView<MyStateView>>, name: Seq<char>) -> Option<
    AgentView<MyStateView>,
>
    decreases pop.len(),
{
    if pop.len() == 0 {
        None
    } else if pop[0].state.name == name {
        Some(pop[0])
    } else {
        find_by_name(pop.drop_first(), name)
    }
}

/// What one agent decides: an agent named "hello" finds the first agent
/// named "goodbye" and sends it a health boost of 12; everyone else emits
/// nothing.
pub open spec fn spec_decide_my(
    agent: AgentView<MyStateView>,
    pop: Seq<AgentView<MyStateView>>,
) -> Seq<(u64, MyUpdateView)> {
    if agent.state.name == "hello"@ {
        match find_by_name(pop, "goodbye"@) {
            Some(a) => seq![(a.id, MyUpdateView::ChangeHealth(12))],
            None => Seq::empty(),
        }
    } else {
        Seq::empty()
    }
}

/// The reference policy over [`MyState`] / [`MyUpdate`] / [`MyWorld`].
pub struct MySimulation {

}

impl MySimulation {
    pub fn new() -> (r: MySimulation) {
        MySimulation {  }
    }
}

impl Simulation for MySimulation {
    type State = MyState;

    type Update = MyUpdate;

    type World = MyWorld;

    open spec fn spec_apply(&self, state: MyStateView, update: MyUpdateView) -> MyStateView {
        spec_apply_my(state, update)
    }

    open spec fn spec_decide(
        &self,
        agent: AgentView<MyStateView>,
        world: MyWorldView,
        population: Seq<AgentView<MyStateView>>,
    ) -> Seq<(u64, MyUpdateView)> {
        spec_decide_my(agent, population)
    }

    open spec fn spec_update(&self, state: MyStateView, updates: Seq<MyUpdateView>) -> MyStateView {
        spec_fold_my(state, updates)
    }

    proof fn lemma_update_is_fold(&self, state: MyStateView, updates: Seq<MyUpdateView>) {
    }

    fn apply_update(&self, state: MyState, update: &MyUpdate) -> (r: MyState) {
        match update {
            MyUpdate::ChangeName(name) => MyState { name: name.clone(), health: state.health },
            MyUpdate::ChangeHealth(h) => MyState {
                name: state.name,
                health: if state.health > u64::MAX - *h {
                    u64::MAX
                } else {
                    state.health + *h
                },
            },
        }
    }

    fn decide(
        &self,
        agent: &Agent<MyState>,
        world: &MyWorld,
        population: &LocalPopulation<MyState>,
    ) -> (r: Vec<(u64, MyUpdate)>) {
        let hello = String::from_str("hello");
        let mut r: Vec<(u64, MyUpdate)> = Vec::new();
        if agent.state.name == hello {
            let goodbye = String::from_str("goodbye");
            let n = population.len();
            let mut i: usize = 0;
            proof {
                assert(population@.skip(0) =~= population@);
                assert(r@ =~= Seq::<(u64, MyUpdate)>::empty());
            }
            while i < n
                invariant
                    n == population@.len(),
                    0 <= i <= n,
                    goodbye@ == "goodbye"@,
                    agent@.state.name == "hello"@,
                    r@ == Seq::<(u64, MyUpdate)>::empty(),
                    find_by_name(population@, "goodbye"@) == find_by_name(
                        population@.skip(i as int),
                        "goodbye"@,
                    ),
                decreases n - i,
            {
                proof {
                    assert(population@.skip(i as int)[0] == population@[i as int]);
                    assert(population@.skip(i as int).drop_first() =~= population@.skip(
                        i as int + 1,
                    ));
                }
                let a = population.agent_at(i);
                if a.state.name == goodbye {
                    r.push((a.id, MyUpdate::ChangeHealth(12)));
                    proof {
                        let rest = population@.skip(i as int);
                        assert(rest[0].state.name == "goodbye"@);
                        assert(find_by_name(rest, "goodbye"@) == Some(rest[0]));
                        assert(find_by_name(population@, "goodbye"@) == Some(
                            population@[i as int],
                        ));
                        assert(pairs_view(r@) =~= seq![
                            (population@[i as int].id, MyUpdateView::ChangeHealth(12u64)),
                        ]);
                        assert(spec_decide_my(agent@, population@) == seq![
                            (population@[i as int].id, MyUpdateView::ChangeHealth(12u64)),
                        ]);
                    }
                    return r;
                }
                i = i + 1;
            }
            proof {
                assert(population@.skip(n as int) =~= Seq::<AgentView<MyStateView>>::empty());
                assert(pairs_view(r@) =~= Seq::<(u64, MyUpdateView)>::empty());
            }
            r
        } else {
            proof {
                assert(r@ =~= Seq::<(u64, MyUpdate)>::empty());
                assert(pairs_view(r@) =~= Seq::<(u64, MyUpdateView)>::empty());
            }
            r
        }
    }

    fn update(&self, state: MyState, updates: &Vec<MyUpdate>) -> (r: MyState) {
        let ghost all = updates_view(updates@);
        let mut s = state;
        let mut i: usize = 0;
        proof {
            assert(all.skip(0) =~= all);
        }
        while i < updates.len()
            invariant
                0 <= i <= updates@.len(),
                all == updates_view(updates@),
                spec_fold_my(s@, all.skip(i as int)) == spec_fold_my(state@, all),
            decreases updates@.len() - i,
        {
            proof {
                assert(all.skip(i as int)[0] == all[i as int]);
                assert(all.skip(i as int).drop_first() =~= all.skip(i as int + 1));
            }
            s = self.apply_update(s, &updates[i]);
            i = i + 1;
        }
        proof {
            assert(all.skip(updates@.len() as int) =~= Seq::<MyUpdateView>::empty());
        }
        s
    }
}

// ---------------------------------------------------------------------------
// A self-contained agent
// ---------------------------------------------------------------------------

/// An agent bundled with its own pending updates, applying them itself.
pub struct MyAgent {
    pub state: MyState,
}

impl MyAgent {
    pub fn new(state: MyState) -> (r: MyAgent)
        ensures
            r.state == state,
    {
        MyAgent { state }
    }

    pub fn decide(&self) {
    }

    pub fn state(&self) -> (r: MyState)
        ensures
            r@ == self.state@,
    {
        self.state.dup()
    }

    pub fn set_state(&mut self, state: MyState)
        ensures
            final(self).state == state,
    {
        self.state = state;
    }

    /// The updates this agent wants applied: it renames itself.
    pub fn updates(&self) -> (r: Vec<MyUpdate>)
        ensures
            r@.len() == 1,
            r@[0]@ == MyUpdateView::ChangeName("bar"@),
    {
        let mut v: Vec<MyUpdate> = Vec::new();
        v.push(MyUpdate::ChangeName(String::from_str("bar")));
        v
    }

    pub fn apply_update(&self, state: MyState, update: MyUpdate) -> (r: MyState)
        ensures
            r@ == spec_apply_my(state@, update@),
    {
        match update {
            MyUpdate::ChangeName(name) => MyState { name, health: state.health },
            MyUpdate::ChangeHealth(health) => MyState {
                name: state.name,
                health: if state.health > u64::MAX - health {
                    u64::MAX
                } else {
                    state.health + health
                },
            },
        }
    }

    /// Fold this agent's own pending updates into its state.
    pub fn update(&mut self)
        ensures
            final(self).state@ == spec_fold_my(
                old(self).state@,
                seq![MyUpdateView::ChangeName("bar"@)],
            ),
    {
        let updates = self.updates();
        let mut state = self.state.dup();
        let mut i: usize = 0;
        proof {
            assert(updates_view(updates@).skip(0) =~= updates_view(updates@));
        }
        while i < updates.len()
            invariant
                0 <= i <= updates@.len(),
                spec_fold_my(state@, updates_view(updates@).skip(i as int)) == spec_fold_my(
                    old(self).state@,
                    updates_view(updates@),
                ),
                *self == *old(self),
            decreases updates@.len() - i,
        {
            proof {
                assert(updates_view(updates@).skip(i as int)[0] == updates@[i as int]@);
                assert(updates_view(updates@).skip(i as int).drop_first()
                    =~= updates_view(updates@).skip(i as int + 1));
            }
            state = self.apply_update(state, updates[i].dup());
            i = i + 1;
        }
        proof {
            assert(updates_view(updates@).skip(updates@.len() as int) =~= Seq::<
                MyUpdateView,
            >::empty());
            assert(updates_view(updates@) =~= seq![MyUpdateView::ChangeName("bar"@)]);
        }
        self.state = state;
    }
}

} // verus!
