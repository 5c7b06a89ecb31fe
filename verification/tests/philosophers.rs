use dining_philosophers::philosophers::{
    all_backlogs_empty, keep_requesting, make_many_same_job, make_one_job, next_failed_sends,
    position_of, ClearAction, FairAction, FairEvent, HandOver, RoundAction, RoundPhase, Stance,
};
use dining_philosophers::{CleanAndAnnotated, Philosopher};
use nonempty::NonEmpty;

type Job = fn(u32) -> u32;
type Philo = Philosopher<u16, u32, Job>;

fn no_job(x: u32) -> u32 {
    x
}

fn needs(ids: &[usize]) -> NonEmpty<usize> {
    NonEmpty::from_vec(ids.to_vec()).expect("nonempty")
}

fn philosopher(id: usize, holding: Vec<(usize, u16)>, needed: &[usize]) -> Philo {
    let start = holding
        .into_iter()
        .map(|(rid, value)| CleanAndAnnotated::new(value, rid))
        .collect();
    Philosopher::new(id, start, no_job as Job, needs(needed))
}

#[test]
fn clean_and_annotated_starts_dirty_and_unused() {
    let c = CleanAndAnnotated::new(42u16, 3);
    assert!(!c.is_clean());
    assert_eq!(c.last_user(), None);
    assert_eq!(c.identifier(), 3);
    assert_eq!(*c.underlying(), 42);
}

#[test]
fn new_sorts_holding_and_needed() {
    let p = philosopher(4, vec![(9, 90), (2, 20), (5, 50)], &[7, 1, 3]);
    assert_eq!(p.my_id(), 4);
    assert_eq!(p.needed_vec(), vec![1, 3, 7]);
    let needed: Vec<usize> = p.view_needed().iter().copied().collect();
    assert_eq!(needed, vec![1, 3, 7]);
    assert_eq!(p.holding_summary(), vec![(2, false), (5, false), (9, false)]);
    assert!(p.has_no_backlog());
    assert_eq!(p.count_backlog(), 0);
    assert!(p.has_dirty());
    assert_eq!((p.job())(5), 5);
}

#[test]
fn backlog_is_a_queue() {
    let mut p = philosopher(0, vec![], &[0]);
    p.push_context_back(1);
    p.push_context_back(2);
    p.push_context_front(0);
    assert_eq!(p.count_backlog(), 3);
    assert!(!p.has_no_backlog());
    assert_eq!(p.pop_context_front(), Some(0));
    assert_eq!(p.pop_context_front(), Some(1));
    assert_eq!(p.pop_context_front(), Some(2));
    assert_eq!(p.pop_context_front(), None);
    assert!(p.has_no_backlog());
}

#[test]
fn make_all_dirty_marks_last_user() {
    let mut p = philosopher(6, vec![(1, 10)], &[1]);
    let rs = p.start_job().expect("holds all it needs");
    p.end_job(rs);
    let mut q = philosopher(8, vec![], &[1]);
    let handed = p.hand_over(8, 1);
    assert!(matches!(handed, HandOver::NoRoute));
    p.peer_will_request(8, 1);
    match p.hand_over(8, 1) {
        HandOver::Give { to, position, resource } => {
            assert_eq!(to, 1);
            assert_eq!(position, 0);
            assert!(resource.is_clean());
            q.receive(resource);
        }
        _ => panic!("a dirty resource with a route is given"),
    }
    assert_eq!(q.holding_summary(), vec![(1, true)]);
    assert!(!q.has_dirty());
    q.make_all_dirty();
    assert_eq!(q.holding_summary(), vec![(1, false)]);
    assert!(q.has_dirty());
    // the dirty resource is now last used by q
    q.peer_will_request(6, 0);
    match q.hand_over(6, 1) {
        HandOver::Give { resource, .. } => assert_eq!(resource.last_user(), Some(8)),
        _ => panic!("a dirty resource with a route is given"),
    }
}

#[test]
fn start_job_needs_exactly_the_needed_resources() {
    let mut p = philosopher(1, vec![(3, 30)], &[2, 3]);
    assert!(p.start_job().is_none());
    assert_eq!(p.holding_summary(), vec![(3, false)]);
    p.receive(CleanAndAnnotated::new(20, 2));
    let taken = p.start_job().expect("holds all it needs");
    assert_eq!(taken, vec![20, 30]);
    assert!(p.holding_summary().is_empty());
    p.end_job(vec![21, 31]);
    assert_eq!(p.holding_summary(), vec![(2, false), (3, false)]);
}

#[test]
fn start_job_refuses_extra_resources() {
    let mut p = philosopher(1, vec![(2, 20), (3, 30), (4, 40)], &[2, 3]);
    assert!(p.start_job().is_none());
    assert_eq!(p.holding_summary().len(), 3);
}

#[test]
fn end_job_marks_resources_dirty_and_used() {
    let mut p = philosopher(5, vec![(0, 1)], &[0]);
    let taken = p.start_job().expect("holds all it needs");
    assert_eq!(taken, vec![1]);
    p.end_job(vec![2]);
    p.peer_will_request(9, 3);
    match p.hand_over(9, 0) {
        HandOver::Give { to, position, resource } => {
            assert_eq!((to, position), (3, 0));
            assert_eq!(*resource.underlying(), 2);
            assert_eq!(resource.last_user(), Some(5));
            assert!(resource.is_clean());
        }
        _ => panic!("the dirty resource is given"),
    }
}

#[test]
fn hand_over_gives_only_dirty_resources() {
    let mut p = philosopher(0, vec![], &[1]);
    assert!(matches!(p.hand_over(1, 1), HandOver::NotHeld));
    p.peer_will_request(1, 1);
    p.receive(CleanAndAnnotated::new(5, 1));
    let clean = match p.hand_over(1, 1) {
        HandOver::Give { to, position, resource } => {
            assert_eq!((to, position), (1, 0));
            resource
        }
        _ => panic!("the dirty resource is given"),
    };
    assert!(clean.is_clean());
    assert!(p.holding_summary().is_empty());
    // a clean resource is not given up
    let mut q = philosopher(1, vec![], &[1]);
    q.peer_will_request(0, 0);
    q.receive(clean);
    assert!(matches!(q.hand_over(0, 1), HandOver::NotHeld));
    assert!(matches!(q.hand_over(0, 7), HandOver::NotHeld));
    // after using it, it is dirty and given up; if sending fails it is taken back dirty
    let rs = q.start_job().expect("holds all it needs");
    q.end_job(rs);
    match q.hand_over(0, 1) {
        HandOver::Give { position, resource, .. } => q.take_back(position, resource),
        _ => panic!("the dirty resource is given"),
    }
    assert_eq!(q.holding_summary(), vec![(1, false)]);
}

#[test]
fn request_targets_follow_first_missing() {
    let mut p = philosopher(2, vec![(1, 10)], &[1, 2, 3]);
    assert!(p.request_targets(None).is_none());
    p.i_will_request(2, 4);
    p.i_will_request(2, 5);
    p.i_will_request(3, 6);
    // not needed: ignored
    p.i_will_request(9, 7);
    assert_eq!(p.request_targets(None), Some((2, vec![4, 5])));
    assert_eq!(p.request_targets(Some(3)), Some((3, vec![6])));
    assert_eq!(p.request_targets(Some(9)), None);
    p.receive(CleanAndAnnotated::new(20, 2));
    assert_eq!(p.request_targets(None), Some((3, vec![6])));
    p.receive(CleanAndAnnotated::new(30, 3));
    assert_eq!(p.request_targets(None), None);
}

#[test]
fn receive_keeps_holding_sorted() {
    let mut p = philosopher(0, vec![(5, 50), (1, 10)], &[0]);
    p.receive(CleanAndAnnotated::new(30, 3));
    p.receive(CleanAndAnnotated::new(0, 0));
    p.receive(CleanAndAnnotated::new(90, 9));
    let ids: Vec<usize> = p.holding_summary().into_iter().map(|(i, _)| i).collect();
    assert_eq!(ids, vec![0, 1, 3, 5, 9]);
}

#[test]
fn get_resource_not_peer_takes_only_needed() {
    let mut p = philosopher(0, vec![], &[4]);
    let back = p.get_resource_not_peer(CleanAndAnnotated::new(1, 3));
    assert_eq!(back.map(|c| c.identifier()), Some(3));
    assert!(p.get_resource_not_peer(CleanAndAnnotated::new(2, 4)).is_none());
    assert_eq!(p.holding_summary(), vec![(4, false)]);
}

#[test]
fn clearing_stance_by_jobs_left() {
    let mut p = philosopher(0, vec![], &[0]);
    assert!(matches!(p.clearing_stance(0), Stance::Selfless));
    assert!(matches!(p.clearing_stance(3), Stance::Selfless));
    p.push_context_back(1);
    assert!(matches!(p.clearing_stance(1), Stance::Selfish));
    assert!(matches!(p.clearing_stance(2), Stance::Mixed));
    assert!(matches!(p.clearing_stance(0), Stance::Mixed));
}

#[test]
fn failed_send_counter() {
    assert_eq!(next_failed_sends(true, false, 0), 1);
    assert_eq!(next_failed_sends(true, false, 2), 3);
    assert_eq!(next_failed_sends(true, true, 2), 0);
    assert_eq!(next_failed_sends(false, false, 2), 0);
    assert_eq!(next_failed_sends(false, true, 1), 0);
    assert!(keep_requesting(true, 2));
    assert!(!keep_requesting(true, 3));
    assert!(!keep_requesting(false, 0));
}

#[test]
fn backlogs_and_positions() {
    let mut ps = vec![philosopher(3, vec![], &[0]), philosopher(8, vec![], &[1])];
    assert!(all_backlogs_empty(&ps));
    ps[1].push_context_back(7);
    assert!(!all_backlogs_empty(&ps));
    assert_eq!(position_of(&ps, 8), Some(1));
    assert_eq!(position_of(&ps, 3), Some(0));
    assert_eq!(position_of(&ps, 4), None);
}

#[test]
fn many_same_job() {
    let jobs = make_many_same_job(no_job as Job, 4);
    assert_eq!(jobs.len(), 4);
    assert!(jobs.iter().all(|j| j(11) == 11));
    assert!(make_many_same_job(no_job as Job, 0).is_empty());
    let one = make_one_job(no_job as Job);
    assert_eq!(one(3), 3);
}

#[test]
fn take_back_restores_what_hand_over_gave() {
    let mut p = philosopher(3, vec![(1, 10), (2, 20), (2, 21)], &[1, 2]);
    p.peer_will_request(7, 0);
    let before = p.holding_summary();
    match p.hand_over(7, 2) {
        HandOver::Give { to, position, resource } => {
            assert_eq!((to, position), (0, 1));
            assert_eq!(*resource.underlying(), 20);
            p.take_back(position, resource);
        }
        _ => panic!("the dirty resource is given"),
    }
    assert_eq!(p.holding_summary(), before);
    // the very same resource comes out again
    match p.hand_over(7, 2) {
        HandOver::Give { position, resource, .. } => {
            assert_eq!(position, 1);
            assert_eq!(*resource.underlying(), 20);
            assert_eq!(resource.last_user(), None);
        }
        _ => panic!("the dirty resource is given"),
    }
}

#[test]
fn new_sorts_stably() {
    let p = philosopher(0, vec![(2, 21), (1, 10), (2, 20), (1, 11)], &[1, 2]);
    let mut p = p;
    p.peer_will_request(5, 5);
    let mut values = vec![];
    for what in [1, 1, 2, 2] {
        match p.hand_over(5, what) {
            HandOver::Give { resource, .. } => values.push(*resource.underlying()),
            _ => panic!("the dirty resource is given"),
        }
    }
    assert_eq!(values, vec![10, 11, 21, 20]);
}

#[test]
fn clearing_step_by_time_and_jobs() {
    let mut p = philosopher(0, vec![], &[0]);
    assert!(matches!(p.clearing_step(0, 0, 0, 100), ClearAction::Selfless));
    assert!(matches!(p.clearing_step(0, 100, 0, 100), ClearAction::Stop));
    assert!(matches!(p.clearing_step(0, 40, 501, 100), ClearAction::Stop));
    assert!(matches!(p.clearing_step(0, 40, 500, 100), ClearAction::Selfless));
    p.push_context_back(1);
    assert!(matches!(p.clearing_step(1, 0, 0, 100), ClearAction::Selfish));
    assert!(matches!(p.clearing_step(3, 0, 0, 100), ClearAction::Mixed));
    assert!(matches!(p.clearing_step(3, 0, u64::MAX, u64::MAX), ClearAction::Mixed));
    assert!(matches!(p.clearing_step(3, 0, u64::MAX, 1), ClearAction::Stop));
}

#[test]
fn fair_step_queues_work() {
    let mut p = philosopher(0, vec![], &[0]);
    assert!(matches!(p.fair_step(FairEvent::Quiet), FairAction::Continue));
    assert!(p.has_no_backlog());
    assert!(matches!(p.fair_step(FairEvent::Work(4)), FairAction::TryFrontJob));
    assert!(matches!(p.fair_step(FairEvent::Work(5)), FairAction::TryFrontJob));
    assert_eq!(p.count_backlog(), 2);
    assert!(matches!(p.fair_step(FairEvent::Stop), FairAction::ClearBacklogAndStop));
    assert_eq!(p.pop_context_front(), Some(4));
    assert_eq!(p.pop_context_front(), Some(5));
}

#[test]
fn next_backlog_job_takes_front_or_keeps_it() {
    let mut p = philosopher(0, vec![(2, 20)], &[1, 2]);
    assert!(p.next_backlog_job().is_none());
    p.push_context_back(7);
    p.push_context_back(8);
    // fork 1 is missing: the context stays at the front
    assert!(p.next_backlog_job().is_none());
    assert_eq!(p.count_backlog(), 2);
    p.receive(CleanAndAnnotated::new(10, 1));
    let (ctx, rs) = p.next_backlog_job().expect("holds all it needs");
    assert_eq!((ctx, rs), (7, vec![10, 20]));
    assert!(p.holding_summary().is_empty());
    assert_eq!(p.count_backlog(), 1);
    p.end_job(vec![11, 21]);
    let (ctx, rs) = p.next_backlog_job().expect("holds all it needs");
    assert_eq!((ctx, rs), (8, vec![11, 21]));
    assert!(p.has_no_backlog());
}

#[test]
fn round_step_by_phase() {
    let mut p = philosopher(0, vec![], &[0]);
    let step = |p: &Philo, phase, jobs, rcvd, req, est| p.round_step(phase, jobs, rcvd, req, est, 100);
    assert!(matches!(step(&p, RoundPhase::Gathering, 0, true, false, 100), RoundAction::Continue));
    assert!(matches!(step(&p, RoundPhase::Gathering, 0, true, false, 101), RoundAction::Stop));
    assert!(matches!(step(&p, RoundPhase::Gathering, 0, false, false, 0), RoundAction::Stop));
    assert!(matches!(step(&p, RoundPhase::Waiting, 0, false, false, 50), RoundAction::Continue));
    assert!(matches!(step(&p, RoundPhase::Waiting, 0, true, false, 50), RoundAction::Stop));
    assert!(matches!(step(&p, RoundPhase::Waiting, 0, false, false, 101), RoundAction::Stop));
    assert!(matches!(step(&p, RoundPhase::WaitedOnce, 0, false, false, 1000), RoundAction::Continue));
    assert!(matches!(step(&p, RoundPhase::WaitedOnce, 0, false, false, 1001), RoundAction::Stop));
    assert!(matches!(step(&p, RoundPhase::RoundDone, 0, false, false, 0), RoundAction::Stop));
    assert!(matches!(step(&p, RoundPhase::RoundDone, 2, false, false, 0), RoundAction::Continue));
    assert!(matches!(step(&p, RoundPhase::Giving, 0, false, true, 5000), RoundAction::Stop));
    assert!(matches!(step(&p, RoundPhase::Giving, 1, false, true, 2000), RoundAction::Continue));
    assert!(matches!(step(&p, RoundPhase::Giving, 1, false, true, 2001), RoundAction::OutOfTime));
    // answering needs a request and a dirty resource
    assert!(matches!(step(&p, RoundPhase::Answering, 0, false, true, 0), RoundAction::Stop));
    p.receive(CleanAndAnnotated::new(1, 0));
    assert!(matches!(step(&p, RoundPhase::Answering, 0, false, true, 0), RoundAction::Continue));
    assert!(matches!(step(&p, RoundPhase::Answering, 0, false, false, 0), RoundAction::Stop));
    assert!(matches!(step(&p, RoundPhase::Answering, 0, false, true, 101), RoundAction::Stop));
}

#[test]
fn hand_over_then_receive_keeps_the_resources() {
    let mut giver = philosopher(0, vec![(1, 10), (2, 20)], &[1, 2]);
    let mut receiver = philosopher(1, vec![(3, 30)], &[2, 3]);
    giver.peer_will_request(1, 1);
    let mut before: Vec<usize> = giver
        .holding_summary()
        .into_iter()
        .chain(receiver.holding_summary())
        .map(|(i, _)| i)
        .collect();
    match giver.hand_over(1, 2) {
        HandOver::Give { resource, .. } => receiver.receive(resource),
        _ => panic!("the dirty resource is given"),
    }
    let mut after: Vec<usize> = giver
        .holding_summary()
        .into_iter()
        .chain(receiver.holding_summary())
        .map(|(i, _)| i)
        .collect();
    before.sort();
    after.sort();
    assert_eq!(before, after);
    assert_eq!(receiver.holding_summary(), vec![(2, true), (3, false)]);
    // the clean resource does not move on
    receiver.peer_will_request(0, 0);
    assert!(matches!(receiver.hand_over(0, 2), HandOver::NotHeld));
}
