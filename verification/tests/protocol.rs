use philosophers::Event;
use philosophers::EventChannel;
use philosophers::Message;
use philosophers::Phase;
use philosophers::Philosopher;
use philosophers::ResourcePool;
use philosophers::actor::phase_text;

#[test]
fn philosopher_new_stores_identity_and_indices() {
    let p = Philosopher::new("Donald", 0, 1);
    assert_eq!(p.name, "Donald");
    assert_eq!(p.left, 0);
    assert_eq!(p.right, 1);
}

#[test]
fn pool_second_acquire_fails_until_release() {
    // Two actors used sequentially against cell 0: the second acquisition
    // succeeds only after the first holder releases.
    let mut pool = ResourcePool::new(3);
    assert_eq!(pool.len(), 3);
    assert!(pool.is_free(0));
    assert!(pool.try_acquire(0, 0));
    assert!(!pool.try_acquire(1, 0));
    assert!(!pool.try_acquire(1, 0));
    pool.release(0, 0);
    assert!(pool.try_acquire(1, 0));
    assert!(!pool.is_free(0));
}

#[test]
fn pool_mutual_exclusion_under_contention() {
    // Instrumented acquire/release counters over many interleaved rounds:
    // at no point do two actors hold the same cell.
    let mut pool = ResourcePool::new(2);
    let mut holds_of_cell0: usize = 0;
    for round in 0..100 {
        let owner = round % 2;
        let rival = 1 - owner;
        assert!(pool.try_acquire(owner, 0));
        holds_of_cell0 += 1;
        // While held, every further acquisition attempt fails.
        assert!(!pool.try_acquire(rival, 0));
        assert!(!pool.try_acquire(owner, 0));
        assert_eq!(holds_of_cell0, 1);
        pool.release(owner, 0);
        holds_of_cell0 -= 1;
    }
    assert!(pool.is_free(0));
}

#[test]
fn pool_unrelated_cells_are_independent() {
    let mut pool = ResourcePool::new(4);
    assert!(pool.try_acquire(0, 1));
    assert!(pool.try_acquire(1, 2));
    assert!(!pool.is_free(1));
    assert!(!pool.is_free(2));
    assert!(pool.is_free(0));
    assert!(pool.is_free(3));
    pool.release(0, 1);
    assert!(pool.is_free(1));
    assert!(!pool.is_free(2));
}

fn event(who: usize, name: &str, phase: Phase) -> Event {
    Event { who, name: name.to_string(), phase }
}

#[test]
fn channel_delivers_in_send_order() {
    let mut ch = EventChannel::new();
    ch.send_event(event(0, "Donald", Phase::Eating));
    ch.send_event(event(1, "Larry", Phase::Eating));
    ch.send_event(event(0, "Donald", Phase::Done));
    assert_eq!(ch.len(), 3);
    match ch.recv() {
        Message::Event(e) => {
            assert_eq!(e.who, 0);
            assert_eq!(e.phase, Phase::Eating);
        }
        Message::Sentinel => panic!("expected an event"),
    }
    match ch.recv() {
        Message::Event(e) => assert_eq!(e.who, 1),
        Message::Sentinel => panic!("expected an event"),
    }
    match ch.recv() {
        Message::Event(e) => {
            assert_eq!(e.who, 0);
            assert_eq!(e.phase, Phase::Done);
        }
        Message::Sentinel => panic!("expected an event"),
    }
    assert_eq!(ch.len(), 0);
}

#[test]
fn drain_stops_at_sentinel_and_leaves_the_rest() {
    let mut ch = EventChannel::new();
    ch.send_event(event(0, "Donald", Phase::Eating));
    ch.send_event(event(1, "Larry", Phase::Eating));
    ch.send_sentinel();
    ch.send_event(event(0, "Donald", Phase::Done));
    let report = ch.drain();
    // Exactly the events before the sentinel, in order.
    assert_eq!(report.len(), 2);
    assert_eq!(report[0].who, 0);
    assert_eq!(report[0].name, "Donald");
    assert_eq!(report[1].who, 1);
    assert_eq!(report[1].name, "Larry");
    // The event sent after the sentinel was never processed: it is still
    // queued in the channel.
    assert_eq!(ch.len(), 1);
    match ch.recv() {
        Message::Event(e) => assert_eq!(e.phase, Phase::Done),
        Message::Sentinel => panic!("the sentinel was consumed by the drain"),
    }
}

#[test]
fn drain_of_immediate_sentinel_is_empty() {
    let mut ch = EventChannel::new();
    ch.send_sentinel();
    let report = ch.drain();
    assert_eq!(report.len(), 0);
    assert_eq!(ch.len(), 0);
}

#[test]
fn event_lines_render_name_and_phase() {
    let e = event(0, "Donald", Phase::Eating);
    assert_eq!(e.line(), "Donald is eating.");
    let d = event(0, "Donald", Phase::Done);
    assert_eq!(d.line(), "Donald is done eating.");
}

#[test]
fn phase_texts_match_the_lifecycle() {
    assert_eq!(phase_text(Phase::Idle), " is waiting to start.");
    assert_eq!(phase_text(Phase::AcquiringLeft), " is picking up the left fork.");
    assert_eq!(phase_text(Phase::AcquiringRight), " is picking up the right fork.");
    assert_eq!(phase_text(Phase::Eating), " is eating.");
    assert_eq!(phase_text(Phase::Done), " is done eating.");
}
