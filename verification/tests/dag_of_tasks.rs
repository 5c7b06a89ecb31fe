use dining_philosophers::dag_of_tasks::should_retry_layer;
use dining_philosophers::philosophers::{all_backlogs_empty, position_of, HandOver};
use dining_philosophers::{
    BipartiteGraph, DAGPhilosopherSystem, DAGPhilosopherSystemError, MyDAG, Philosopher,
    PhilosopherSystemError,
};
use nonempty::NonEmpty;

type Job = fn(&'static str, NonEmpty<u16>) -> NonEmpty<u16>;
type Philo = Philosopher<u16, &'static str, Job>;
type System = DAGPhilosopherSystem<u16, &'static str, Job>;

const PHILOSOPHER_NAMES: [&str; 5] = [
    "Baruch Spinoza",
    "Gilles Deleuze",
    "Karl Marx",
    "Friedrich Nietzsche",
    "Michel Foucault",
];
const NUM_PHILOSOPHERS: usize = PHILOSOPHER_NAMES.len();

fn same_job(cur_philosopher: &'static str, mut resources: NonEmpty<u16>) -> NonEmpty<u16> {
    println!("{cur_philosopher} is eating");
    println!("They used {:?}", [resources[0], resources[1]]);
    resources[0] *= 2;
    resources[1] *= 2;
    resources
}

fn round_table() -> BipartiteGraph {
    let mut philo_rsc_graph = BipartiteGraph::new();
    for philo in 0..NUM_PHILOSOPHERS {
        philo_rsc_graph.add_a(philo);
    }
    for fork_num in 0..5 {
        philo_rsc_graph.add_b(fork_num);
    }
    for fork_number in 0..NUM_PHILOSOPHERS {
        let philo = fork_number;
        let next_fork = (fork_number + 1) % NUM_PHILOSOPHERS;
        philo_rsc_graph.add_edge(philo, next_fork);
        philo_rsc_graph.add_edge(philo, fork_number);
    }
    philo_rsc_graph
}

fn new_system() -> System {
    let all_jobs: Vec<Job> = vec![same_job as Job; NUM_PHILOSOPHERS];
    DAGPhilosopherSystem::new(
        round_table(),
        all_jobs,
        [3, 5, 7, 11, 13].into_iter().enumerate().collect(),
    )
    .expect("system construction succeeds")
}

/// Does the backlog of every philosopher, one after the other, passing
/// resources along on request.
fn run_one_by_one(ps: &mut Vec<Philo>) -> bool {
    for me in 0..ps.len() {
        let mut rounds = 0;
        while !ps[me].has_no_backlog() && rounds < 100 {
            rounds += 1;
            match ps[me].start_job() {
                Some(resources) => {
                    let ctx = ps[me].pop_context_front().expect("backlog is not empty");
                    let job = *ps[me].job();
                    let recovered = job(ctx, NonEmpty::from_vec(resources).expect("needs something"));
                    ps[me].end_job(recovered.into());
                }
                None => {
                    let my_id = ps[me].my_id();
                    if let Some((rid, positions)) = ps[me].request_targets(None) {
                        for pos in positions {
                            if let HandOver::Give { to, resource, .. } = ps[pos].hand_over(my_id, rid) {
                                ps[to].receive(resource);
                            }
                        }
                    }
                }
            }
        }
    }
    all_backlogs_empty(ps)
}

/// Runs the tasks layer by layer, trying each layer at most `max_tries_per_layer` times.
fn run_layers(sys: &mut System, max_tries_per_layer: usize) -> bool {
    while let Some(layer) = sys.next_layer() {
        let mut ps = sys.take_philosophers();
        for (who, ctx) in layer {
            let pos = position_of(&ps, who).expect("this philosopher exists");
            ps[pos].push_context_back(ctx);
        }
        let mut tries_this_layer = 1;
        let mut all_finished = run_one_by_one(&mut ps);
        while should_retry_layer(all_finished, tries_this_layer, max_tries_per_layer) {
            all_finished = run_one_by_one(&mut ps);
            tries_this_layer += 1;
        }
        sys.restore_philosophers(ps);
        if !all_finished {
            return false;
        }
    }
    true
}

#[test]
fn dag_of_tasks_five_philosophers() {
    let mut phil_system = new_system();

    assert!(phil_system.validate());
    let all_finished = run_layers(&mut phil_system, 5);
    // no tasks have been put on so nothing to finish anyway
    assert!(all_finished);
}

#[test]
fn no_tasks_no_layer() {
    let mut phil_system = new_system();
    assert!(phil_system.next_layer().is_none());
}

#[test]
fn chained_tasks_come_in_order() {
    let mut phil_system = new_system();
    phil_system.chain_more_tasks(MyDAG::all_parallel(vec![(0, "first"), (2, "second")]));
    phil_system.chain_more_tasks(MyDAG::all_parallel(vec![(1, "third")]));
    phil_system.chain_more_tasks(MyDAG::all_parallel(vec![(4, "fourth"), (3, "fifth")]));
    assert_eq!(phil_system.task_count(), 5);
    assert_eq!(phil_system.dependency_count(), 4);
    assert_eq!(phil_system.next_layer(), Some(vec![(0, "first"), (2, "second")]));
    assert_eq!(phil_system.task_count(), 3);
    assert_eq!(phil_system.dependency_count(), 2);
    assert_eq!(phil_system.next_layer(), Some(vec![(1, "third")]));
    assert_eq!(phil_system.next_layer(), Some(vec![(4, "fourth"), (3, "fifth")]));
    assert_eq!(phil_system.next_layer(), None);
    assert!(phil_system.validate());
}

#[test]
fn chained_tasks_all_finish() {
    let mut phil_system = new_system();
    phil_system.chain_more_tasks(MyDAG::all_parallel(vec![(0, "Baruch Spinoza"), (2, "Karl Marx")]));
    phil_system.chain_more_tasks(MyDAG::all_parallel(vec![(1, "Gilles Deleuze"), (4, "Michel Foucault")]));
    assert!(run_layers(&mut phil_system, 5));
    assert!(phil_system.next_layer().is_none());
    assert!(phil_system.validate());
}

#[test]
fn retry_layer_decision() {
    assert!(should_retry_layer(false, 1, 5));
    assert!(!should_retry_layer(false, 5, 5));
    assert!(!should_retry_layer(true, 1, 5));
    assert!(!should_retry_layer(false, 1, 1));
}

#[test]
fn underlying_error_is_wrapped() {
    let all_jobs: Vec<Job> = vec![same_job as Job; 3];
    let r = System::new(round_table(), all_jobs, vec![]);
    assert_eq!(
        r.err(),
        Some(DAGPhilosopherSystemError::UnderlyingPhilosopherSystemError(
            PhilosopherSystemError::MismatchPhilosophersAndJob(5, 3)
        ))
    );
}
