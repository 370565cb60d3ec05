use philosophers::Coordinator;
use philosophers::Phase;
use philosophers::Philosopher;
use philosophers::RunOutcome;
use philosophers::fair_schedule;
use philosophers::report_lines;
use philosophers::run;
use philosophers::run_fair;

/// The classic five-seat table with the cycle broken: the last actor's
/// indices are given in ascending order, so every actor requests its
/// lower-indexed cell first.
fn asymmetric_five() -> Vec<Philosopher> {
    vec![
        Philosopher::new("Donald", 0, 1),
        Philosopher::new("Larry", 1, 2),
        Philosopher::new("Mark", 2, 3),
        Philosopher::new("John", 3, 4),
        Philosopher::new("Bruce", 0, 4),
    ]
}

/// The deadlock-prone five-seat ring: every actor requests strictly
/// left-then-right over the cyclic assignment, each right being the next
/// actor's left.
fn cyclic_five() -> Vec<Philosopher> {
    vec![
        Philosopher::new("Donald", 0, 1),
        Philosopher::new("Larry", 1, 2),
        Philosopher::new("Mark", 2, 3),
        Philosopher::new("John", 3, 4),
        Philosopher::new("Bruce", 4, 0),
    ]
}

fn round_robin(n: usize, rounds: usize) -> Vec<usize> {
    let mut schedule = Vec::new();
    for _ in 0..rounds {
        for i in 0..n {
            schedule.push(i);
        }
    }
    schedule
}

#[test]
fn asymmetric_ring_completes_with_two_events_per_actor() {
    let schedule = round_robin(5, 30);
    match run(asymmetric_five(), 5, &schedule) {
        RunOutcome::Complete(report) => {
            // 5 actors, exactly 2 events each.
            assert_eq!(report.len(), 10);
            for a in 0..5 {
                let phases: Vec<Phase> =
                    report.iter().filter(|e| e.who == a).map(|e| e.phase).collect();
                assert_eq!(phases, vec![Phase::Eating, Phase::Done]);
            }
            // The sentinel never shows up in the report body.
            for line in report_lines(&report) {
                assert!(line.ends_with(" is eating.") || line.ends_with(" is done eating."));
            }
        }
        RunOutcome::Stalled => panic!("the asymmetric configuration must complete"),
        RunOutcome::InvalidConfig => panic!("the configuration is valid"),
    }
}

#[test]
fn single_actor_events_arrive_in_program_order() {
    let actors = vec![Philosopher::new("Donald", 0, 1)];
    let schedule = round_robin(1, 5);
    match run(actors, 2, &schedule) {
        RunOutcome::Complete(report) => {
            assert_eq!(report.len(), 2);
            assert_eq!(report[0].phase, Phase::Eating);
            assert_eq!(report[0].name, "Donald");
            assert_eq!(report[1].phase, Phase::Done);
            assert_eq!(report[1].name, "Donald");
        }
        _ => panic!("a lone actor always completes"),
    }
}

#[test]
fn cyclic_ring_deadlocks_under_forced_interleaving() {
    // Force the worst interleaving: every actor announces itself, then
    // every actor takes its left cell before any proceeds to its right.
    let mut schedule = round_robin(5, 2);
    // However long the run goes on afterwards, nobody makes progress.
    schedule.extend(round_robin(5, 50));
    match run(cyclic_five(), 5, &schedule) {
        RunOutcome::Stalled => {}
        RunOutcome::Complete(_) => panic!("the cyclic ring must hang, not complete"),
        RunOutcome::InvalidConfig => panic!("the configuration is valid"),
    }
}

#[test]
fn cyclic_ring_reaches_a_stuck_state_and_stays_there() {
    let mut c = Coordinator::new(cyclic_five(), 5).expect("valid configuration");
    assert_eq!(c.actor_count(), 5);
    assert!(!c.is_stuck());
    // Round one: every actor announces. Round two: every actor takes its
    // left cell. Now every cell is held and every actor waits forever.
    for i in 0..5 {
        c.step(i);
    }
    assert!(!c.is_stuck());
    for i in 0..5 {
        c.step(i);
    }
    assert!(c.is_stuck());
    assert!(!c.all_done());
    for i in 0..5 {
        assert!(!c.can_step(i));
    }
    // Deadlock persists under any further scheduling.
    for round in 0..20 {
        c.step(round % 5);
    }
    assert!(c.is_stuck());
    assert!(!c.all_done());
}

#[test]
fn asymmetric_ring_is_never_stuck() {
    let mut c = Coordinator::new(asymmetric_five(), 5).expect("valid configuration");
    let schedule = round_robin(5, 30);
    for step in 0..schedule.len() {
        c.step(schedule[step]);
        assert!(!c.is_stuck());
    }
    assert!(c.all_done());
}

#[test]
fn two_actors_reuse_a_cell_sequentially() {
    // Both actors need cell 0; run the first to completion, then the
    // second. The cell is acquired again only after it was released.
    let actors = vec![Philosopher::new("Donald", 0, 1), Philosopher::new("Larry", 0, 1)];
    let mut schedule = vec![0, 0, 0, 0];
    schedule.extend(vec![1, 1, 1, 1]);
    match run(actors, 2, &schedule) {
        RunOutcome::Complete(report) => {
            assert_eq!(report.len(), 4);
            assert_eq!(report[0].name, "Donald");
            assert_eq!(report[0].phase, Phase::Eating);
            assert_eq!(report[1].name, "Donald");
            assert_eq!(report[1].phase, Phase::Done);
            assert_eq!(report[2].name, "Larry");
            assert_eq!(report[2].phase, Phase::Eating);
            assert_eq!(report[3].name, "Larry");
            assert_eq!(report[3].phase, Phase::Done);
        }
        _ => panic!("sequential reuse completes"),
    }
}

#[test]
fn contender_blocks_while_cell_is_held() {
    // Donald takes both cells; Larry, scheduled while they are held, makes
    // no progress past its announcement until Donald finishes.
    let actors = vec![Philosopher::new("Donald", 0, 1), Philosopher::new("Larry", 0, 1)];
    let mut c = Coordinator::new(actors, 2).expect("valid configuration");
    c.step(0); // Donald announces.
    c.step(0); // Donald takes cell 0.
    c.step(0); // Donald takes cell 1 and starts eating.
    c.step(1); // Larry announces.
    assert!(!c.can_step(1)); // Larry is blocked on cell 0.
    c.step(1); // Changes nothing.
    assert!(!c.all_done());
    c.step(0); // Donald releases both and finishes.
    assert!(c.can_step(1));
}

#[test]
fn out_of_range_index_is_rejected() {
    let actors = vec![Philosopher::new("Donald", 0, 7)];
    match run(actors, 5, &vec![0, 0, 0, 0]) {
        RunOutcome::InvalidConfig => {}
        _ => panic!("an index outside the pool must be rejected"),
    }
    assert!(Coordinator::new(vec![Philosopher::new("Donald", 5, 0)], 5).is_none());
}

#[test]
fn empty_configuration_completes_with_empty_report() {
    match run(Vec::new(), 0, &Vec::new()) {
        RunOutcome::Complete(report) => assert_eq!(report.len(), 0),
        _ => panic!("no actors means nothing left to do"),
    }
}

#[test]
fn report_lines_follow_arrival_order() {
    let actors = vec![Philosopher::new("Donald", 0, 1)];
    match run(actors, 2, &round_robin(1, 5)) {
        RunOutcome::Complete(report) => {
            let lines = report_lines(&report);
            assert_eq!(lines, vec!["Donald is eating.", "Donald is done eating."]);
        }
        _ => panic!("a lone actor always completes"),
    }
}

#[test]
fn fair_schedule_is_round_robin() {
    assert_eq!(fair_schedule(3, 2), vec![0, 1, 2, 0, 1, 2]);
    assert_eq!(fair_schedule(2, 0), Vec::<usize>::new());
}

#[test]
fn run_fair_completes_every_ascending_configuration() {
    // The contract of run_fair promises completion here: every actor
    // requests its lower-indexed cell first.
    match run_fair(asymmetric_five(), 5) {
        RunOutcome::Complete(report) => {
            assert_eq!(report.len(), 10);
            for a in 0..5 {
                let phases: Vec<Phase> =
                    report.iter().filter(|e| e.who == a).map(|e| e.phase).collect();
                assert_eq!(phases, vec![Phase::Eating, Phase::Done]);
            }
        }
        _ => panic!("ascending acquisition must complete under fair scheduling"),
    }
}

#[test]
fn run_fair_stalls_on_the_cyclic_ring() {
    // Round-robin drives the cyclic ring straight into the circular wait:
    // in the second round every actor takes its left cell.
    match run_fair(cyclic_five(), 5) {
        RunOutcome::Stalled => {}
        RunOutcome::Complete(_) => panic!("the cyclic ring deadlocks under round-robin"),
        RunOutcome::InvalidConfig => panic!("the configuration is valid"),
    }
}
