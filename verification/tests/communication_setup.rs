use dining_philosophers::philosophers::{all_backlogs_empty, position_of, HandOver};
use dining_philosophers::{BipartiteGraph, Philosopher, PhilosopherSystem, PhilosopherSystemError};
use nonempty::NonEmpty;

type Job = fn(&'static str, NonEmpty<u16>) -> NonEmpty<u16>;
type Philo = Philosopher<u16, &'static str, Job>;
type System = PhilosopherSystem<u16, &'static str, Job>;

const PHILOSOPHER_NAMES: [&str; 5] = [
    "Baruch Spinoza",
    "Gilles Deleuze",
    "Karl Marx",
    "Friedrich Nietzsche",
    "Michel Foucault",
];
const NUM_PHILOSOPHERS: usize = PHILOSOPHER_NAMES.len();

fn same_job(cur_philosopher: &'static str, mut resources: NonEmpty<u16>) -> NonEmpty<u16> {
    println!("{cur_philosopher} is eating");
    println!("They used {:?}", [resources[0], resources[1]]);
    resources[0] *= 2;
    resources[1] *= 2;
    resources
}

/// Philosopher `i` (named `PHILOSOPHER_NAMES[i]`) needs forks `i` and `i + 1`, around the table.
fn round_table() -> BipartiteGraph {
    let mut philo_rsc_graph = BipartiteGraph::new();
    for philo in 0..NUM_PHILOSOPHERS {
        philo_rsc_graph.add_a(philo);
    }
    for fork_num in 0..5 {
        philo_rsc_graph.add_b(fork_num);
    }
    for fork_number in 0..NUM_PHILOSOPHERS {
        let philo = fork_number;
        let next_fork = (fork_number + 1) % NUM_PHILOSOPHERS;
        philo_rsc_graph.add_edge(philo, next_fork);
        philo_rsc_graph.add_edge(philo, fork_number);
    }
    philo_rsc_graph
}

fn all_jobs(n: usize) -> Vec<Job> {
    vec![same_job as Job; n]
}

fn forks() -> Vec<(usize, u16)> {
    [3, 5, 7, 11, 13].into_iter().enumerate().collect()
}

/// Does the backlog of every philosopher, one after the other: each asks for
/// the first resource it misses until it holds all it needs, then does its job.
fn run_one_by_one(ps: &mut Vec<Philo>) -> bool {
    for me in 0..ps.len() {
        let mut rounds = 0;
        while !ps[me].has_no_backlog() && rounds < 100 {
            rounds += 1;
            match ps[me].start_job() {
                Some(resources) => {
                    let ctx = ps[me].pop_context_front().expect("backlog is not empty");
                    let job = *ps[me].job();
                    let recovered = job(ctx, NonEmpty::from_vec(resources).expect("needs something"));
                    ps[me].end_job(recovered.into());
                }
                None => {
                    let my_id = ps[me].my_id();
                    if let Some((rid, positions)) = ps[me].request_targets(None) {
                        for pos in positions {
                            if let HandOver::Give { to, resource, .. } = ps[pos].hand_over(my_id, rid) {
                                ps[to].receive(resource);
                            }
                        }
                    }
                }
            }
        }
    }
    all_backlogs_empty(ps)
}

#[test]
fn communication_setup_five_philosophers() {
    let philo_rsc_graph = round_table();

    let mut phil_system = System::new(philo_rsc_graph, all_jobs(NUM_PHILOSOPHERS), forks())
        .expect("system construction succeeds");

    assert!(phil_system.validate());

    for philo in phil_system.philosophers() {
        println!("{:?} {:?}", philo.my_id(), philo.holding_summary());
    }

    let which_fairly = [2];
    let mut ps = phil_system.take_philosophers();
    for which_now in which_fairly {
        let pos = position_of(&ps, which_now).expect("this philosopher exists");
        ps[pos].push_context_back(PHILOSOPHER_NAMES[which_now]);
    }
    let all_finished = run_one_by_one(&mut ps);
    phil_system.restore_philosophers(ps);
    assert!(all_finished);
    assert!(phil_system.validate());
}

#[test]
fn starting_resources_go_to_least_neighbor() {
    let phil_system = System::new(round_table(), all_jobs(NUM_PHILOSOPHERS), forks())
        .expect("system construction succeeds");
    let ps = phil_system.philosophers();
    let held: Vec<Vec<(usize, bool)>> = ps.iter().map(|p| p.holding_summary()).collect();
    // fork 0 is shared by philosophers 0 and 4, fork 1 by 0 and 1, and so on
    assert_eq!(held[0], vec![(0, false), (1, false)]);
    assert_eq!(held[1], vec![(2, false)]);
    assert_eq!(held[2], vec![(3, false)]);
    assert_eq!(held[3], vec![(4, false)]);
    assert!(held[4].is_empty());
    let ids: Vec<usize> = ps.iter().map(|p| p.my_id()).collect();
    assert_eq!(ids, vec![0, 1, 2, 3, 4]);
    assert_eq!(ps[4].needed_vec(), vec![0, 4]);
    assert_eq!(ps[2].needed_vec(), vec![2, 3]);
    assert!(ps.iter().all(|p| p.has_no_backlog()));
    assert_eq!(phil_system.graph().num_a_nodes(), 5);
}

#[test]
fn requests_go_to_every_sharer() {
    let phil_system = System::new(round_table(), all_jobs(NUM_PHILOSOPHERS), forks())
        .expect("system construction succeeds");
    let ps = phil_system.philosophers();
    // philosopher 2 misses fork 2, which philosophers 1 and 2 share
    let (rid, mut positions) = ps[2].request_targets(None).expect("misses a fork");
    positions.sort();
    assert_eq!(rid, 2);
    assert_eq!(positions, vec![1, 2]);
    // philosopher 0 holds all it needs
    assert_eq!(ps[0].request_targets(None), None);
    let (rid, mut positions) = ps[0].request_targets(Some(0)).expect("needs fork 0");
    positions.sort();
    assert_eq!((rid, positions), (0, vec![0, 4]));
    assert_eq!(ps[0].request_targets(Some(3)), None);
}

#[test]
fn one_job_doubles_the_forks_it_used() {
    let mut phil_system = System::new(round_table(), all_jobs(NUM_PHILOSOPHERS), forks())
        .expect("system construction succeeds");
    let mut ps = phil_system.take_philosophers();
    assert!(phil_system.philosophers().is_empty());
    ps[2].push_context_back("Karl Marx");
    assert!(run_one_by_one(&mut ps));
    assert_eq!(ps[2].holding_summary(), vec![(2, false), (3, false)]);
    assert!(ps[1].holding_summary().is_empty());
    // philosopher 1 asks for fork 2 back and gets the doubled value, clean
    match ps[2].hand_over(1, 2) {
        HandOver::Give { to, resource, .. } => {
            assert_eq!(to, 1);
            assert_eq!(*resource.underlying(), 14);
            assert_eq!(resource.last_user(), Some(2));
            assert!(resource.is_clean());
        }
        _ => panic!("a dirty fork is given up"),
    }
    phil_system.restore_philosophers(ps);
    assert_eq!(phil_system.philosophers().len(), 5);
}

#[test]
fn every_philosopher_eats_once() {
    let mut phil_system = System::new(round_table(), all_jobs(NUM_PHILOSOPHERS), forks())
        .expect("system construction succeeds");
    let mut ps = phil_system.take_philosophers();
    for (i, name) in PHILOSOPHER_NAMES.iter().enumerate() {
        ps[i].push_context_back(*name);
    }
    assert!(!all_backlogs_empty(&ps));
    assert!(run_one_by_one(&mut ps));
    phil_system.restore_philosophers(ps);
    assert!(phil_system.validate());
}

#[test]
fn mismatch_of_philosophers_and_jobs() {
    let r = System::new(round_table(), all_jobs(4), forks());
    assert_eq!(r.err(), Some(PhilosopherSystemError::MismatchPhilosophersAndJob(5, 4)));
}

#[test]
fn philosopher_with_nothing_needed() {
    let mut g = round_table();
    g.add_a(9);
    g.add_a(7);
    let r = System::new(g, all_jobs(7), forks());
    assert_eq!(r.err(), Some(PhilosopherSystemError::PhilosopherWithNothingNeeded(7)));
}

#[test]
fn mismatch_comes_before_nothing_needed() {
    let mut g = round_table();
    g.add_a(9);
    let r = System::new(g, all_jobs(5), forks());
    assert_eq!(r.err(), Some(PhilosopherSystemError::MismatchPhilosophersAndJob(6, 5)));
}

#[test]
fn not_all_needed_resources_at_start() {
    let mut some_forks = forks();
    some_forks.pop();
    let r = System::new(round_table(), all_jobs(NUM_PHILOSOPHERS), some_forks);
    assert_eq!(r.err(), Some(PhilosopherSystemError::NotAllNeededResourcesAtStart));
}

#[test]
fn resources_nobody_needs_are_ignored() {
    let mut more_forks = forks();
    more_forks.push((17, 1));
    let mut g = round_table();
    g.add_b(18);
    let phil_system = System::new(g, all_jobs(NUM_PHILOSOPHERS), more_forks)
        .expect("system construction succeeds");
    assert!(phil_system.validate());
    let total: usize = phil_system.philosophers().iter().map(|p| p.holding_summary().len()).sum();
    assert_eq!(total, 5);
}

#[test]
fn empty_system() {
    let phil_system =
        System::new(BipartiteGraph::new(), vec![], vec![]).expect("nothing to set up");
    assert!(phil_system.validate());
    assert!(phil_system.philosophers().is_empty());
}
