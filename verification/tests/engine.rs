use sim::example::{MyState, MyUpdate, MyWorld, MyAgent, MySimulation};
use sim::population::{LocalPopulation, SharedPopulation};
use sim::manager::LocalManager;
use sim::simulation::Simulation;

fn state(name: &str, health: u64) -> MyState {
    MyState { name: name.to_string(), health }
}

fn world() -> MyWorld {
    MyWorld { weather: "sunny".to_string() }
}

#[test]
fn apply_update_change_name() {
    let sim = MySimulation::new();
    let s = sim.apply_update(state("hello", 0), &MyUpdate::ChangeName("bar".to_string()));
    assert_eq!(s, state("bar", 0));
}

#[test]
fn apply_update_change_health() {
    let sim = MySimulation::new();
    let s = sim.apply_update(state("hello", 5), &MyUpdate::ChangeHealth(10));
    assert_eq!(s, state("hello", 15));
}

#[test]
fn apply_update_health_saturates() {
    let sim = MySimulation::new();
    let s = sim.apply_update(state("hello", u64::MAX - 1), &MyUpdate::ChangeHealth(10));
    assert_eq!(s, state("hello", u64::MAX));
}

#[test]
fn update_folds_left_to_right() {
    let sim = MySimulation::new();
    let updates = vec![
        MyUpdate::ChangeHealth(3),
        MyUpdate::ChangeName("renamed".to_string()),
        MyUpdate::ChangeHealth(4),
    ];
    let folded = sim.update(state("hello", 1), &updates);
    let by_hand = sim.apply_update(
        sim.apply_update(
            sim.apply_update(state("hello", 1), &updates[0]),
            &updates[1],
        ),
        &updates[2],
    );
    assert_eq!(folded, by_hand);
    assert_eq!(folded, state("renamed", 8));
}

#[test]
fn update_empty_is_identity() {
    let sim = MySimulation::new();
    let s = sim.update(state("hello", 7), &Vec::new());
    assert_eq!(s, state("hello", 7));
}

#[test]
fn spawn_returns_fresh_ids_and_get_sees_spawned_state() {
    let mut pop: LocalPopulation<MyState> = LocalPopulation::new();
    let a = pop.spawn(state("one", 1));
    let b = pop.spawn(state("two", 2));
    assert_ne!(a, b);
    let got = pop.get(a).unwrap();
    assert_eq!(got.id, a);
    assert_eq!(got.state, state("one", 1));
    let got = pop.get(b).unwrap();
    assert_eq!(got.state, state("two", 2));
}

#[test]
fn spawned_id_is_never_reused_after_kill() {
    let mut pop: LocalPopulation<MyState> = LocalPopulation::new();
    let a = pop.spawn(state("one", 1));
    pop.kill(a);
    let b = pop.spawn(state("two", 2));
    assert_ne!(a, b);
}

#[test]
fn kill_then_get_returns_none_and_rekill_is_noop() {
    let mut pop: LocalPopulation<MyState> = LocalPopulation::new();
    let a = pop.spawn(state("one", 1));
    let b = pop.spawn(state("two", 2));
    pop.kill(a);
    assert!(pop.get(a).is_none());
    // killing an already-killed id is a no-op, not a panic
    pop.kill(a);
    assert!(pop.get(a).is_none());
    // the other agent is untouched
    assert_eq!(pop.get(b).unwrap().state, state("two", 2));
}

#[test]
fn shared_population_mirrors_local_behavior() {
    let mut pop: SharedPopulation<MyState> = SharedPopulation::new();
    let a = pop.spawn(state("one", 1));
    assert_eq!(pop.get(a).unwrap().state, state("one", 1));
    pop.kill(a);
    assert!(pop.get(a).is_none());
}

#[test]
fn find_returns_a_matching_agent() {
    let mut pop: LocalPopulation<MyState> = LocalPopulation::new();
    pop.spawn(state("one", 1));
    let b = pop.spawn(state("two", 2));
    let found = pop.find(&|s: &MyState| s.name == "two").unwrap();
    assert_eq!(found.id, b);
    assert_eq!(found.state, state("two", 2));
    assert!(pop.find(&|s: &MyState| s.name == "three").is_none());
}

#[test]
fn filter_returns_exactly_the_matches() {
    let mut pop: LocalPopulation<MyState> = LocalPopulation::new();
    let a = pop.spawn(state("apple", 3));
    pop.spawn(state("banana", 1));
    let c = pop.spawn(state("avocado", 3));
    let matches = pop.filter(&|s: &MyState| s.health == 3);
    assert_eq!(matches.len(), 2);
    let ids: Vec<u64> = matches.iter().map(|m| m.id).collect();
    assert!(ids.contains(&a));
    assert!(ids.contains(&c));
}

/// The end-to-end scenario: an agent named "hello" finds the agent named
/// "goodbye" and sends it a health boost of 12.
#[test]
fn local_manager_full_step() {
    let mut manager = LocalManager::new(MySimulation::new(), world());
    let a = manager.population.spawn(state("hello", 0));
    let b = manager.population.spawn(state("goodbye", 10));
    manager.decide();
    manager.update();
    let agent_b = manager.population.get(b).unwrap();
    assert_eq!(agent_b.state, state("goodbye", 22));
    // A's state is unchanged
    let agent_a = manager.population.get(a).unwrap();
    assert_eq!(agent_a.state, state("hello", 0));
}

/// A full step leaves agents that no update targets unchanged.
#[test]
fn full_step_leaves_untargeted_agents_unchanged() {
    let mut manager = LocalManager::new(MySimulation::new(), world());
    let a = manager.population.spawn(state("hello", 0));
    let b = manager.population.spawn(state("goodbye", 1));
    let c = manager.population.spawn(state("bystander", 5));
    manager.decide();
    manager.update();
    assert_eq!(manager.population.get(a).unwrap().state, state("hello", 0));
    assert_eq!(manager.population.get(b).unwrap().state, state("goodbye", 13));
    assert_eq!(manager.population.get(c).unwrap().state, state("bystander", 5));
}

/// Two consecutive steps accumulate the boost twice.
#[test]
fn two_full_steps_accumulate() {
    let mut manager = LocalManager::new(MySimulation::new(), world());
    manager.population.spawn(state("hello", 0));
    let b = manager.population.spawn(state("goodbye", 0));
    manager.decide();
    manager.update();
    manager.decide();
    manager.update();
    assert_eq!(manager.population.get(b).unwrap().state, state("goodbye", 24));
}

#[test]
fn my_agent_applies_its_own_updates() {
    let mut agent = MyAgent::new(state("hello", 0));
    assert_eq!(agent.state(), state("hello", 0));
    let pending = agent.updates();
    assert_eq!(pending, vec![MyUpdate::ChangeName("bar".to_string())]);
    agent.update();
    assert_eq!(agent.state(), state("bar", 0));
    agent.set_state(state("hello", 3));
    let renamed = agent.apply_update(agent.state(), MyUpdate::ChangeName("x".to_string()));
    assert_eq!(renamed, state("x", 3));
    let boosted = agent.apply_update(agent.state(), MyUpdate::ChangeHealth(10));
    assert_eq!(boosted, state("hello", 13));
}

#[test]
fn sample_hands_out_up_to_n_agents() {
    let mut pop: LocalPopulation<MyState> = LocalPopulation::new();
    let a = pop.spawn(state("one", 1));
    let b = pop.spawn(state("two", 2));
    pop.spawn(state("three", 3));
    let two = pop.sample(2);
    assert_eq!(two.len(), 2);
    assert_eq!(two[0].id, a);
    assert_eq!(two[1].id, b);
    let all = pop.sample(10);
    assert_eq!(all.len(), 3);
}

#[test]
fn sample_by_can_return_fewer_than_asked() {
    let mut pop: LocalPopulation<MyState> = LocalPopulation::new();
    let a = pop.spawn(state("one", 1));
    pop.spawn(state("two", 2));
    // a zero weight never wins its draw: the sample is empty
    let none = pop.sample_by(&|_: &MyState| 0u64, 2);
    assert!(none.is_empty());
    // whatever is sampled is a member of the population, at most n of them
    let some = pop.sample_by(&|s: &MyState| if s.name == "one" { u64::MAX } else { 0 }, 1);
    assert!(some.len() <= 1);
    for agent in &some {
        assert_eq!(agent.id, a);
    }
}
