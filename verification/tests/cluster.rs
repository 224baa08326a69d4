use sim::example::{MyState, MySimulation, MyWorld};
use sim::distributed::{DistManager, DistWorker, updates_ready, decides_ready};
use sim::manager::UpdateQueue;
use sim::example::MyUpdate;
use sim::router::{Router, AgentPath, resolve_local};
use sim::population::LocalPopulation;
use sim::simulation::Agent;

fn state(name: &str, health: u64) -> MyState {
    MyState { name: name.to_string(), health }
}

fn world() -> MyWorld {
    MyWorld { weather: "sunny".to_string() }
}

#[test]
fn dist_manager_stores_and_reads_world() {
    let manager: DistManager<MySimulation> = DistManager::new(world());
    assert_eq!(manager.world(), world());
}

#[test]
fn dist_spawn_get_kill() {
    let mut manager: DistManager<MySimulation> = DistManager::new(world());
    let a = manager.population.spawn(state("one", 1));
    let got = manager.population.get(a).unwrap();
    assert_eq!(got.id, a);
    assert_eq!(got.state, state("one", 1));
    manager.population.kill(a);
    assert!(manager.population.get(a).is_none());
    // killing an already-killed id is a no-op
    manager.population.kill(a);
    assert!(manager.population.get(a).is_none());
}

/// The distributed barrier: after a full decide sub-phase, the count of
/// ids ready to update equals the population count.
#[test]
fn barrier_holds_after_decide_subphase() {
    let mut manager: DistManager<MySimulation> = DistManager::new(world());
    manager.population.spawn(state("hello", 0));
    manager.population.spawn(state("goodbye", 0));
    manager.population.spawn(state("bystander", 9));
    let store = &mut manager.population.store;
    let worker: DistWorker<MySimulation> = DistWorker::new();
    let sim = MySimulation::new();
    // a freshly spawned population is ready to update; run its first fold
    // so that every id sits in to_decide
    assert!(updates_ready(store));
    worker.update(&sim, store);
    assert!(decides_ready(store));
    // the decide sub-phase moves every id into to_update
    worker.decide(&sim, store);
    assert!(updates_ready(store));
    assert_eq!(store.to_update.card(), store.population.card());
    assert_eq!(store.to_update.card(), 3);
}

/// The end-to-end scenario over the shared store: "hello" finds "goodbye"
/// in the snapshot and boosts its health by 12.
#[test]
fn distributed_full_step() {
    let mut manager: DistManager<MySimulation> = DistManager::new(world());
    let a = manager.population.spawn(state("hello", 0));
    let b = manager.population.spawn(state("goodbye", 10));
    let worker: DistWorker<MySimulation> = DistWorker::new();
    let sim = MySimulation::new();
    {
        let store = &mut manager.population.store;
        // the first apply sub-phase is the spawned agents' no-op fold
        worker.update(&sim, store);
        worker.step(&sim, store);
    }
    assert_eq!(manager.population.get(b).unwrap().state, state("goodbye", 22));
    assert_eq!(manager.population.get(a).unwrap().state, state("hello", 0));
}

/// Merging the same pairs in two different arrival orders queues the same
/// updates per target, as unordered collections.
#[test]
fn merge_order_does_not_change_per_target_updates() {
    let pairs1 = vec![
        (1u64, MyUpdate::ChangeHealth(1)),
        (2u64, MyUpdate::ChangeHealth(9)),
        (1u64, MyUpdate::ChangeName("x".to_string())),
        (1u64, MyUpdate::ChangeHealth(1)),
    ];
    let pairs2 = vec![
        (1u64, MyUpdate::ChangeHealth(1)),
        (1u64, MyUpdate::ChangeName("x".to_string())),
        (2u64, MyUpdate::ChangeHealth(9)),
        (1u64, MyUpdate::ChangeHealth(1)),
    ];
    let mut q1: UpdateQueue<MyUpdate> = UpdateQueue::new();
    q1.push_all(pairs1);
    let mut q2: UpdateQueue<MyUpdate> = UpdateQueue::new();
    q2.push_all(pairs2);
    let mut entries1 = q1.take();
    let mut entries2 = q2.take();
    assert_eq!(entries1.len(), entries2.len());
    entries1.sort_by_key(|e| e.0);
    entries2.sort_by_key(|e| e.0);
    for ((id1, us1), (id2, us2)) in entries1.iter().zip(entries2.iter()) {
        assert_eq!(id1, id2);
        assert_eq!(us1.len(), us2.len());
        // same multiset: every update occurs equally often on both sides
        for u in us1 {
            let c1 = us1.iter().filter(|x| *x == u).count();
            let c2 = us2.iter().filter(|x| *x == u).count();
            assert_eq!(c1, c2);
        }
    }
}

#[test]
fn queue_appends_in_merge_order() {
    let mut q: UpdateQueue<MyUpdate> = UpdateQueue::new();
    q.push(5, MyUpdate::ChangeHealth(1));
    q.push(5, MyUpdate::ChangeHealth(2));
    q.push(9, MyUpdate::ChangeHealth(3));
    let entries = q.take();
    assert!(q.is_empty());
    assert_eq!(entries.len(), 2);
    assert_eq!(entries[0].0, 5);
    assert_eq!(
        entries[0].1,
        vec![MyUpdate::ChangeHealth(1), MyUpdate::ChangeHealth(2)]
    );
    assert_eq!(entries[1].0, 9);
    assert_eq!(entries[1].1, vec![MyUpdate::ChangeHealth(3)]);
}

#[test]
fn router_carries_its_address() {
    let router = Router::new("127.0.0.1:7007".to_string());
    assert_eq!(router.addr, "127.0.0.1:7007");
}

#[test]
fn resolve_local_answers_local_paths_only() {
    let mut pop: LocalPopulation<MyState> = LocalPopulation::new();
    let a = pop.spawn(state("one", 1));
    let found: Option<Agent<MyState>> = resolve_local(&AgentPath::Local(a), &pop);
    assert_eq!(found.unwrap().state, state("one", 1));
    let missing = resolve_local(&AgentPath::Local(a + 1), &pop);
    assert!(missing.is_none());
    let remote = resolve_local(
        &AgentPath::Remote(a, "10.0.0.1:7007".to_string()),
        &pop,
    );
    assert!(remote.is_none());
}

#[test]
fn worker_start_runs_bounded_rounds() {
    let mut manager: DistManager<MySimulation> = DistManager::new(world());
    manager.population.spawn(state("hello", 0));
    let b = manager.population.spawn(state("goodbye", 0));
    let worker: DistWorker<MySimulation> = DistWorker::new();
    let sim = MySimulation::new();
    {
        let store = &mut manager.population.store;
        worker.update(&sim, store); // the spawned agents' first no-op fold
        worker.start(&sim, store, 3);
    }
    assert_eq!(manager.population.get(b).unwrap().state, state("goodbye", 36));
}

#[test]
fn manager_can_refresh_the_world() {
    let mut manager: DistManager<MySimulation> = DistManager::new(world());
    manager.set_world(MyWorld { weather: "stormy".to_string() });
    assert_eq!(manager.world(), MyWorld { weather: "stormy".to_string() });
}

#[test]
fn worker_start_zero_rounds_changes_nothing() {
    let mut manager: DistManager<MySimulation> = DistManager::new(world());
    let a = manager.population.spawn(state("hello", 7));
    let worker: DistWorker<MySimulation> = DistWorker::new();
    let sim = MySimulation::new();
    worker.start(&sim, &mut manager.population.store, 0);
    assert_eq!(manager.population.get(a).unwrap().state, state("hello", 7));
    assert_eq!(manager.world(), world());
}
