//! The mathematical model of a run: a deterministic small-step semantics.
//!
//! A `State` records, for a fixed configuration of actors over a fixed pool,
//! everything that changes while the system runs: each actor's lifecycle
//! phase, the holder of each resource cell, and the queue of status events
//! that have reached the channel. `step_spec` gives the exact effect of
//! letting one actor act once; `run_spec` folds a whole schedule of such
//! steps. The executable coordinator is verified to follow this semantics
//! step for step, so every law proved here holds of real runs under every
//! schedule, i.e. under every interleaving a scheduler could choose.

use crate::actor::Phase;
use vstd::prelude::*;

verus! {

/// The changing part of a run.
///
/// `lefts[a]` and `rights[a]` are the two cells actor `a` needs, requested
/// in that order; they are configuration and never change. `phases[a]` is
/// actor `a`'s current lifecycle phase. `pool[j]` is the holder of cell `j`,
/// `None` when the cell is free. `queue` lists the status events delivered
/// to the channel so far, in arrival order, each as (actor, phase).
#[verifier::ext_equal]
pub struct State {
    pub lefts: Seq<usize>,
    pub rights: Seq<usize>,
    pub phases: Seq<Phase>,
    pub pool: Seq<Option<usize>>,
    pub queue: Seq<(usize, Phase)>,
}

/// The number of actors of the configuration.
pub open spec fn n_actors(s: State) -> int {
    s.phases.len() as int
}

/// How many events an actor has emitted by the time it is in phase `p`:
/// one on entering the critical section, one more on finishing.
pub open spec fn emitted(p: Phase) -> int {
    match p {
        Phase::Idle => 0,
        Phase::AcquiringLeft => 0,
        Phase::AcquiringRight => 0,
        Phase::Eating => 1,
        Phase::Done => 2,
    }
}

/// The total number of events emitted over all actors.
pub open spec fn total_emitted(ph: Seq<Phase>) -> int
    decreases ph.len(),
{
    if ph.len() == 0 {
        0
    } else {
        total_emitted(ph.drop_last()) + emitted(ph.last())
    }
}

/// The phases of the events of `q` that actor `a` sent, in arrival order.
pub open spec fn events_of(q: Seq<(usize, Phase)>, a: int) -> Seq<Phase>
    decreases q.len(),
{
    if q.len() == 0 {
        Seq::empty()
    } else {
        let r = events_of(q.drop_last(), a);
        if q.last().0 as int == a {
            r.push(q.last().1)
        } else {
            r
        }
    }
}

/// The events an actor in phase `p` has sent, in its own program order: one
/// `Eating` event on entering the critical section, then one `Done` event.
pub open spec fn expected_of(p: Phase) -> Seq<Phase> {
    match p {
        Phase::Idle => Seq::empty(),
        Phase::AcquiringLeft => Seq::empty(),
        Phase::AcquiringRight => Seq::empty(),
        Phase::Eating => seq![Phase::Eating],
        Phase::Done => seq![Phase::Eating, Phase::Done],
    }
}

/// Why actor `a` may hold cell `j`: it is waiting for its right cell while
/// holding its left, or it is in its critical section holding both.
pub open spec fn owner_consistent(s: State, a: int, j: int) -> bool {
    ||| (s.phases[a] is AcquiringRight && s.lefts[a] as int == j)
    ||| (s.phases[a] is Eating && (s.lefts[a] as int == j || s.rights[a] as int == j))
}

/// Well-formedness of a state. It ties the three components together:
/// indices are in range, the pool's holders agree exactly with the actors'
/// phases, and the event queue holds exactly the events the phases say have
/// been emitted, per actor in program order.
pub open spec fn wf(s: State) -> bool {
    &&& n_actors(s) <= usize::MAX
    &&& s.lefts.len() == n_actors(s)
    &&& s.rights.len() == n_actors(s)
    &&& (forall|a: int|
        0 <= a < n_actors(s) ==> (s.lefts[a] as int) < s.pool.len() && (s.rights[a] as int)
            < s.pool.len())
    &&& (forall|j: int|
        0 <= j < s.pool.len() ==> (#[trigger] s.pool[j] matches Some(a) ==> 0 <= a < n_actors(s)
            && owner_consistent(s, a as int, j)))
    &&& (forall|a: int|
        0 <= a < n_actors(s) && s.phases[a] is AcquiringRight ==> s.pool[s.lefts[a] as int]
            == Some(a as usize))
    &&& (forall|a: int|
        0 <= a < n_actors(s) && s.phases[a] is Eating ==> s.pool[s.lefts[a] as int] == Some(
            a as usize,
        ) && s.pool[s.rights[a] as int] == Some(a as usize) && s.lefts[a] != s.rights[a])
    &&& (forall|k: int| 0 <= k < s.queue.len() ==> (s.queue[k].0 as int) < n_actors(s))
    &&& (forall|a: int| 0 <= a < n_actors(s) ==> events_of(s.queue, a) == expected_of(s.phases[a]))
    &&& s.queue.len() == total_emitted(s.phases)
}

/// Whether letting actor `a` act would change the state: an idle actor can
/// announce itself, a waiting actor can proceed exactly when the cell it is
/// requesting is free, an eating actor can finish, and a done actor is done.
pub open spec fn can_progress(s: State, a: int) -> bool
    recommends
        wf(s),
        0 <= a < n_actors(s),
{
    match s.phases[a] {
        Phase::Idle => true,
        Phase::AcquiringLeft => s.pool[s.lefts[a] as int] is None,
        Phase::AcquiringRight => s.pool[s.rights[a] as int] is None,
        Phase::Eating => true,
        Phase::Done => false,
    }
}

/// Whether every actor has reached its terminal phase.
pub open spec fn all_done(s: State) -> bool {
    forall|a: int| 0 <= a < n_actors(s) ==> s.phases[a] is Done
}

/// Global deadlock: some actor still has work to do, yet no actor at all
/// can make progress. Once a state is deadlocked it stays deadlocked under
/// every schedule (`lemma_deadlock_persists`).
pub open spec fn deadlocked(s: State) -> bool {
    &&& exists|a: int| 0 <= a < n_actors(s) && !(s.phases[a] is Done)
    &&& forall|a: int| 0 <= a < n_actors(s) ==> !can_progress(s, a)
}

/// The exact effect of letting actor `i` act once. An index out of range,
/// a blocked actor and a done actor leave the state unchanged; otherwise
/// the actor takes the single transition its phase allows, updating the
/// pool and emitting an event where the lifecycle says so.
pub open spec fn step_spec(s: State, i: usize) -> State {
    if i as int >= n_actors(s) {
        s
    } else {
        let a = i as int;
        match s.phases[a] {
            Phase::Idle => State { phases: s.phases.update(a, Phase::AcquiringLeft), ..s },
            Phase::AcquiringLeft => {
                if s.pool[s.lefts[a] as int] is None {
                    State {
                        phases: s.phases.update(a, Phase::AcquiringRight),
                        pool: s.pool.update(s.lefts[a] as int, Some(i)),
                        ..s
                    }
                } else {
                    s
                }
            },
            Phase::AcquiringRight => {
                if s.pool[s.rights[a] as int] is None {
                    State {
                        phases: s.phases.update(a, Phase::Eating),
                        pool: s.pool.update(s.rights[a] as int, Some(i)),
                        queue: s.queue.push((i, Phase::Eating)),
                        ..s
                    }
                } else {
                    s
                }
            },
            Phase::Eating => State {
                phases: s.phases.update(a, Phase::Done),
                pool: s.pool.update(s.lefts[a] as int, None).update(s.rights[a] as int, None),
                queue: s.queue.push((i, Phase::Done)),
                ..s
            },
            Phase::Done => s,
        }
    }
}

/// The state after following a whole schedule of actor indices, one
/// `step_spec` per entry, in order.
pub open spec fn run_spec(s: State, sched: Seq<usize>) -> State
    decreases sched.len(),
{
    if sched.len() == 0 {
        s
    } else {
        step_spec(run_spec(s, sched.drop_last()), sched.last())
    }
}

/// The state a coordinator starts a run from: every actor idle, every cell
/// free, no event sent yet.
pub open spec fn init_state(lefts: Seq<usize>, rights: Seq<usize>, n: usize) -> State {
    State {
        lefts: lefts,
        rights: rights,
        phases: Seq::new(lefts.len(), |a: int| Phase::Idle),
        pool: Seq::new(n as nat, |j: int| None),
        queue: Seq::empty(),
    }
}

/// Appending one event extends exactly its sender's projection, by the
/// event's phase, and leaves every other actor's projection unchanged.
pub proof fn lemma_events_of_push(q: Seq<(usize, Phase)>, e: (usize, Phase), a: int)
    ensures
        events_of(q.push(e), a) == if e.0 as int == a {
            events_of(q, a).push(e.1)
        } else {
            events_of(q, a)
        },
{
    assert(q.push(e).drop_last() =~= q);
}

/// Changing one actor's phase changes the total event count by the
/// difference the two phases account for.
pub proof fn lemma_total_emitted_update(ph: Seq<Phase>, i: int, p: Phase)
    requires
        0 <= i < ph.len(),
    ensures
        total_emitted(ph.update(i, p)) == total_emitted(ph) - emitted(ph[i]) + emitted(p),
    decreases ph.len(),
{
    let u = ph.update(i, p);
    if i == ph.len() - 1 {
        assert(u.drop_last() =~= ph.drop_last());
        assert(u.last() == p);
    } else {
        assert(u.drop_last() =~= ph.drop_last().update(i, p));
        assert(u.last() == ph.last());
        lemma_total_emitted_update(ph.drop_last(), i, p);
    }
}

/// When every actor accounts for the same number `c` of events, the total
/// is `c` per actor.
pub proof fn lemma_total_emitted_uniform(ph: Seq<Phase>, c: int)
    requires
        forall|k: int| 0 <= k < ph.len() ==> emitted(ph[k]) == c,
    ensures
        total_emitted(ph) == c * ph.len(),
    decreases ph.len(),
{
    if ph.len() == 0 {
    } else {
        lemma_total_emitted_uniform(ph.drop_last(), c);
        assert(c * (ph.len() - 1) + c == c * ph.len()) by (nonlinear_arith);
    }
}

/// A step never touches the configuration: the actor set, the two indices
/// of each actor and the pool size stay what they were.
pub proof fn lemma_step_preserves_config(s: State, i: usize)
    requires
        wf(s),
    ensures
        step_spec(s, i).lefts == s.lefts,
        step_spec(s, i).rights == s.rights,
        n_actors(step_spec(s, i)) == n_actors(s),
        step_spec(s, i).pool.len() == s.pool.len(),
{
    if (i as int) < n_actors(s) {
        match s.phases[i as int] {
            Phase::Idle => {},
            Phase::AcquiringLeft => {
                assert(s.pool.update(s.lefts[i as int] as int, Some(i)).len() == s.pool.len());
            },
            Phase::AcquiringRight => {
                assert(s.pool.update(s.rights[i as int] as int, Some(i)).len() == s.pool.len());
            },
            Phase::Eating => {
                assert(s.pool.update(s.lefts[i as int] as int, None).update(
                    s.rights[i as int] as int,
                    None,
                ).len() == s.pool.len());
            },
            Phase::Done => {},
        }
    }
}

/// Every step preserves well-formedness: mutual exclusion between holders,
/// the agreement of pool and phases, and the per-actor program order of the
/// event queue all survive any actor acting under any interleaving.
pub proof fn lemma_step_preserves_wf(s: State, i: usize)
    requires
        wf(s),
    ensures
        wf(step_spec(s, i)),
{
    let n = n_actors(s);
    let a = i as int;
    if a < n {
        lemma_step_wf_in_range(s, i);
    }
}

/// The in-range case of `lemma_step_preserves_wf`.
proof fn lemma_step_wf_in_range(s: State, i: usize)
    requires
        wf(s),
        (i as int) < n_actors(s),
    ensures
        wf(step_spec(s, i)),
{
    let n = n_actors(s);
    let a = i as int;
    let s2 = step_spec(s, i);
    let l = s.lefts[a] as int;
    let r = s.rights[a] as int;
    match s.phases[a] {
        Phase::Idle => {
            lemma_total_emitted_update(s.phases, a, Phase::AcquiringLeft);
            assert forall|j: int|
                0 <= j < s2.pool.len() implies (#[trigger] s2.pool[j] matches Some(b) ==> 0 <= b
                < n_actors(s2) && owner_consistent(s2, b as int, j)) by {
                match s2.pool[j] {
                    Some(b) => {
                        assert(owner_consistent(s, b as int, j));
                    },
                    None => {},
                }
            }
            assert forall|b: int| 0 <= b < n_actors(s2) implies events_of(s2.queue, b)
                == expected_of(s2.phases[b]) by {}
        },
        Phase::AcquiringLeft => {
            if s.pool[l] is None {
                lemma_total_emitted_update(s.phases, a, Phase::AcquiringRight);
                assert forall|j: int|
                    0 <= j < s2.pool.len() implies (#[trigger] s2.pool[j] matches Some(b) ==> 0
                    <= b < n_actors(s2) && owner_consistent(s2, b as int, j)) by {
                    match s2.pool[j] {
                        Some(b) => {
                            if j != l {
                                assert(s.pool[j] == Some(b));
                                assert(owner_consistent(s, b as int, j));
                            }
                        },
                        None => {},
                    }
                }
                assert forall|b: int|
                    0 <= b < n_actors(s2) && s2.phases[b] is AcquiringRight implies s2.pool[
                    s2.lefts[b] as int] == Some(b as usize) by {
                    if b != a {
                        assert(s.pool[s.lefts[b] as int] == Some(b as usize));
                    }
                }
                assert forall|b: int| 0 <= b < n_actors(s2) implies events_of(s2.queue, b)
                    == expected_of(s2.phases[b]) by {}
            }
        },
        Phase::AcquiringRight => {
            if s.pool[r] is None {
                lemma_total_emitted_update(s.phases, a, Phase::Eating);
                assert(s.pool[l] == Some(i));
                assert(l != r);
                assert forall|j: int|
                    0 <= j < s2.pool.len() implies (#[trigger] s2.pool[j] matches Some(b) ==> 0
                    <= b < n_actors(s2) && owner_consistent(s2, b as int, j)) by {
                    match s2.pool[j] {
                        Some(b) => {
                            if j != r {
                                assert(s.pool[j] == Some(b));
                                assert(owner_consistent(s, b as int, j));
                            }
                        },
                        None => {},
                    }
                }
                assert forall|b: int|
                    0 <= b < n_actors(s2) && s2.phases[b] is AcquiringRight implies s2.pool[
                    s2.lefts[b] as int] == Some(b as usize) by {
                    assert(b != a);
                    assert(s.pool[s.lefts[b] as int] == Some(b as usize));
                }
                assert forall|b: int| 0 <= b < n_actors(s2) implies events_of(s2.queue, b)
                    == expected_of(s2.phases[b]) by {
                    lemma_events_of_push(s.queue, (i, Phase::Eating), b);
                    if b == a {
                        assert(events_of(s2.queue, b) =~= seq![Phase::Eating]);
                    }
                }
            }
        },
        Phase::Eating => {
            lemma_total_emitted_update(s.phases, a, Phase::Done);
            assert(s.pool[l] == Some(i));
            assert(s.pool[r] == Some(i));
            assert(l != r);
            assert forall|j: int|
                0 <= j < s2.pool.len() implies (#[trigger] s2.pool[j] matches Some(b) ==> 0 <= b
                < n_actors(s2) && owner_consistent(s2, b as int, j)) by {
                match s2.pool[j] {
                    Some(b) => {
                        assert(j != l && j != r);
                        assert(s.pool[j] == Some(b));
                        assert(owner_consistent(s, b as int, j));
                        assert(b as int != a);
                    },
                    None => {},
                }
            }
            assert forall|b: int|
                0 <= b < n_actors(s2) && s2.phases[b] is AcquiringRight implies s2.pool[s2.lefts[b]
                as int] == Some(b as usize) by {
                assert(b != a);
                assert(s.phases[b] is AcquiringRight);
                assert(s.pool[s.lefts[b] as int] == Some(b as usize));
                assert((b as usize) != i);
                assert(s.lefts[b] as int != l && s.lefts[b] as int != r);
            }
            assert forall|b: int|
                0 <= b < n_actors(s2) && s2.phases[b] is Eating implies s2.pool[s2.lefts[b] as int]
                == Some(b as usize) && s2.pool[s2.rights[b] as int] == Some(b as usize)
                && s2.lefts[b] != s2.rights[b] by {
                assert(b != a);
                assert(s.phases[b] is Eating);
                assert(s.pool[s.lefts[b] as int] == Some(b as usize));
                assert(s.pool[s.rights[b] as int] == Some(b as usize));
                assert((b as usize) != i);
                assert(s.lefts[b] as int != l && s.lefts[b] as int != r);
                assert(s.rights[b] as int != l && s.rights[b] as int != r);
            }
            assert forall|b: int| 0 <= b < n_actors(s2) implies events_of(s2.queue, b)
                == expected_of(s2.phases[b]) by {
                lemma_events_of_push(s.queue, (i, Phase::Done), b);
                if b == a {
                    assert(events_of(s2.queue, b) =~= seq![Phase::Eating, Phase::Done]);
                }
            }
        },
        Phase::Done => {},
    }
}

/// A whole run preserves well-formedness and the configuration: however
/// the schedule interleaves the actors, the state stays well-formed and
/// the actor set and pool size stay what they were.
pub proof fn lemma_run_preserves_wf(s: State, sched: Seq<usize>)
    requires
        wf(s),
    ensures
        wf(run_spec(s, sched)),
        run_spec(s, sched).lefts == s.lefts,
        run_spec(s, sched).rights == s.rights,
        n_actors(run_spec(s, sched)) == n_actors(s),
        run_spec(s, sched).pool.len() == s.pool.len(),
    decreases sched.len(),
{
    if sched.len() > 0 {
        lemma_run_preserves_wf(s, sched.drop_last());
        lemma_step_preserves_wf(run_spec(s, sched.drop_last()), sched.last());
        lemma_step_preserves_config(run_spec(s, sched.drop_last()), sched.last());
    }
}

/// How far along its lifecycle an actor in phase `p` has come.
pub open spec fn rank(p: Phase) -> int {
    match p {
        Phase::Idle => 0,
        Phase::AcquiringLeft => 1,
        Phase::AcquiringRight => 2,
        Phase::Eating => 3,
        Phase::Done => 4,
    }
}

/// The total progress of a run: the sum of all actors' ranks.
pub open spec fn total_rank(ph: Seq<Phase>) -> int
    decreases ph.len(),
{
    if ph.len() == 0 {
        0
    } else {
        total_rank(ph.drop_last()) + rank(ph.last())
    }
}

/// Changing one actor's phase changes the total progress by the difference
/// of the two ranks.
proof fn lemma_total_rank_update(ph: Seq<Phase>, i: int, p: Phase)
    requires
        0 <= i < ph.len(),
    ensures
        total_rank(ph.update(i, p)) == total_rank(ph) - rank(ph[i]) + rank(p),
    decreases ph.len(),
{
    let u = ph.update(i, p);
    if i == ph.len() - 1 {
        assert(u.drop_last() =~= ph.drop_last());
        assert(u.last() == p);
    } else {
        assert(u.drop_last() =~= ph.drop_last().update(i, p));
        assert(u.last() == ph.last());
        lemma_total_rank_update(ph.drop_last(), i, p);
    }
}

/// The total progress lies between zero and four per actor.
pub proof fn lemma_total_rank_bounds(ph: Seq<Phase>)
    ensures
        0 <= total_rank(ph) <= 4 * ph.len(),
    decreases ph.len(),
{
    if ph.len() > 0 {
        lemma_total_rank_bounds(ph.drop_last());
    }
}

/// A run is fully done exactly when its total progress is four per actor.
pub proof fn lemma_total_rank_full(ph: Seq<Phase>)
    requires
        total_rank(ph) == 4 * ph.len(),
    ensures
        forall|a: int| 0 <= a < ph.len() ==> ph[a] is Done,
    decreases ph.len(),
{
    if ph.len() > 0 {
        lemma_total_rank_bounds(ph.drop_last());
        assert(rank(ph.last()) == 4);
        lemma_total_rank_full(ph.drop_last());
        assert forall|a: int| 0 <= a < ph.len() implies ph[a] is Done by {
            if a < ph.len() - 1 {
                assert(ph.drop_last()[a] == ph[a]);
            } else {
                assert(ph[a] == ph.last());
            }
        }
    }
}

/// When every actor is done, the total progress is four per actor.
pub proof fn lemma_all_done_rank(ph: Seq<Phase>)
    requires
        forall|a: int| 0 <= a < ph.len() ==> ph[a] is Done,
    ensures
        total_rank(ph) == 4 * ph.len(),
    decreases ph.len(),
{
    if ph.len() > 0 {
        lemma_all_done_rank(ph.drop_last());
    }
}

/// Every step either advances the total progress by exactly one — when the
/// scheduled actor can progress — or leaves it unchanged.
pub proof fn lemma_step_rank(s: State, i: usize)
    requires
        wf(s),
    ensures
        total_rank(step_spec(s, i).phases) == total_rank(s.phases) + (
        if (i as int) < n_actors(s) && can_progress(s, i as int) {
            1int
        } else {
            0int
        }),
{
    let a = i as int;
    if a < n_actors(s) {
        match s.phases[a] {
            Phase::Idle => {
                lemma_total_rank_update(s.phases, a, Phase::AcquiringLeft);
            },
            Phase::AcquiringLeft => {
                if s.pool[s.lefts[a] as int] is None {
                    lemma_total_rank_update(s.phases, a, Phase::AcquiringRight);
                }
            },
            Phase::AcquiringRight => {
                if s.pool[s.rights[a] as int] is None {
                    lemma_total_rank_update(s.phases, a, Phase::Eating);
                }
            },
            Phase::Eating => {
                lemma_total_rank_update(s.phases, a, Phase::Done);
            },
            Phase::Done => {},
        }
    }
}

/// A blocked or finished actor's step changes nothing at all.
pub proof fn lemma_blocked_step_identity(s: State, i: usize)
    requires
        (i as int) < n_actors(s) ==> !can_progress(s, i as int),
    ensures
        step_spec(s, i) == s,
{
}

/// Deadlock is permanent: from a deadlocked state, every schedule — that
/// is, every interleaving any scheduler could choose — leaves the state
/// exactly as it is. The system hangs forever.
pub proof fn lemma_deadlock_persists(s: State, sched: Seq<usize>)
    requires
        deadlocked(s),
    ensures
        run_spec(s, sched) == s,
    decreases sched.len(),
{
    if sched.len() > 0 {
        lemma_deadlock_persists(s, sched.drop_last());
        lemma_blocked_step_identity(s, sched.last());
    }
}

/// Whether cell `j` is the left cell of some actor.
pub open spec fn left_of_someone(s: State, j: int) -> bool {
    exists|b: int| 0 <= b < n_actors(s) && #[trigger] s.lefts[b] as int == j
}

/// The textbook cyclic wait: when every actor is waiting for its right cell
/// while holding its left, and every cell is somebody's left cell, the
/// state is deadlocked. This is exactly the reachable defect of the uniform
/// left-then-right order over a full ring.
pub proof fn lemma_circular_wait_deadlocks(s: State)
    requires
        wf(s),
        n_actors(s) > 0,
        forall|a: int| 0 <= a < n_actors(s) ==> s.phases[a] is AcquiringRight,
        forall|j: int| 0 <= j < s.pool.len() ==> #[trigger] left_of_someone(s, j),
    ensures
        deadlocked(s),
{
    let n = n_actors(s);
    assert(0 <= 0 < n && !(s.phases[0] is Done));
    assert forall|a: int| 0 <= a < n implies !can_progress(s, a) by {
        let j = s.rights[a] as int;
        assert(0 <= j < s.pool.len());
        assert(left_of_someone(s, j));
        let b = choose|b: int| 0 <= b < n && #[trigger] s.lefts[b] as int == j;
        assert(s.pool[j] == Some(b as usize));
    }
}

/// Whether `m` is, among the actors below `k` that are waiting for their
/// right cell, one whose held left cell has the greatest index.
pub open spec fn max_left_holder(s: State, k: int, m: int) -> bool {
    &&& 0 <= m < k
    &&& s.phases[m] is AcquiringRight
    &&& forall|b: int|
        0 <= b < k && #[trigger] s.phases[b] is AcquiringRight ==> s.lefts[b] <= s.lefts[m]
}

/// Among the actors below `k` that are waiting for their right cell, some
/// actor holds the left cell of greatest index.
proof fn lemma_max_left_holder(s: State, k: int)
    requires
        0 < k,
        exists|a: int| 0 <= a < k && #[trigger] s.phases[a] is AcquiringRight,
    ensures
        exists|m: int| #[trigger] max_left_holder(s, k, m),
    decreases k,
{
    if exists|a: int| 0 <= a < k - 1 && #[trigger] s.phases[a] is AcquiringRight {
        lemma_max_left_holder(s, k - 1);
        let m = choose|m: int| #[trigger] max_left_holder(s, k - 1, m);
        if s.phases[k - 1] is AcquiringRight && s.lefts[k - 1] > s.lefts[m] {
            assert(max_left_holder(s, k, k - 1));
        } else {
            assert(max_left_holder(s, k, m));
        }
    } else {
        let a = choose|a: int| 0 <= a < k && #[trigger] s.phases[a] is AcquiringRight;
        assert(a == k - 1);
        assert(max_left_holder(s, k, k - 1));
    }
}

/// Deadlock freedom for the corrected acquisition policy: when every actor
/// requests its lower-indexed cell first, no well-formed state is
/// deadlocked — the asymmetric configuration breaks the cyclic wait.
pub proof fn lemma_ascending_no_deadlock(s: State)
    requires
        wf(s),
        forall|a: int| 0 <= a < n_actors(s) ==> s.lefts[a] < s.rights[a],
    ensures
        !deadlocked(s),
{
    let n = n_actors(s);
    if deadlocked(s) {
        let a0 = choose|a: int| 0 <= a < n && !(s.phases[a] is Done);
        assert(!can_progress(s, a0));
        match s.phases[a0] {
            Phase::Idle => {
                assert(can_progress(s, a0));
            },
            Phase::Eating => {
                assert(can_progress(s, a0));
            },
            Phase::AcquiringLeft => {
                let j = s.lefts[a0] as int;
                assert(0 <= j < s.pool.len());
                match s.pool[j] {
                    Some(b) => {
                        assert(owner_consistent(s, b as int, j));
                        if s.phases[b as int] is Eating {
                            assert(can_progress(s, b as int));
                            assert(false);
                        }
                        assert(s.phases[b as int] is AcquiringRight);
                    },
                    None => {
                        assert(can_progress(s, a0));
                    },
                }
            },
            Phase::AcquiringRight => {},
            Phase::Done => {},
        }
        assert(exists|a: int| 0 <= a < n && #[trigger] s.phases[a] is AcquiringRight);
        lemma_max_left_holder(s, n);
        let m = choose|m: int| #[trigger] max_left_holder(s, n, m);
        assert(!can_progress(s, m));
        let j = s.rights[m] as int;
        assert(0 <= j < s.pool.len());
        match s.pool[j] {
            Some(b) => {
                assert(owner_consistent(s, b as int, j));
                if s.phases[b as int] is Eating {
                    assert(can_progress(s, b as int));
                    assert(false);
                }
                assert(s.phases[b as int] is AcquiringRight);
                assert(s.lefts[b as int] as int == j);
                assert(s.lefts[b as int] <= s.lefts[m]);
                assert(s.lefts[m] < s.rights[m]);
                assert(false);
            },
            None => {
                assert(can_progress(s, m));
                assert(false);
            },
        }
    }
}

/// One fair scheduling round: every actor, in index order, acts once.
pub open spec fn round_sched(n: usize) -> Seq<usize> {
    Seq::new(n as nat, |i: int| i as usize)
}

/// `r` fair rounds in a row.
pub open spec fn repeat_rounds(n: usize, r: nat) -> Seq<usize>
    decreases r,
{
    if r == 0 {
        Seq::empty()
    } else {
        round_sched(n) + repeat_rounds(n, (r - 1) as nat)
    }
}

/// The starting state is well-formed whenever the configuration is: one
/// phase per actor, both indices of every actor inside the pool.
pub proof fn lemma_init_wf(lefts: Seq<usize>, rights: Seq<usize>, n: usize)
    requires
        rights.len() == lefts.len(),
        lefts.len() <= usize::MAX,
        forall|a: int|
            0 <= a < lefts.len() ==> (#[trigger] lefts[a] as int) < n && (rights[a] as int) < n,
    ensures
        wf(init_state(lefts, rights, n)),
{
    let s = init_state(lefts, rights, n);
    lemma_total_emitted_uniform(s.phases, 0);
}

/// One more fair round can be scheduled before or after the others: every
/// round is the same, so the two readings of "r+1 rounds" coincide.
pub proof fn lemma_repeat_snoc(n: usize, r: nat)
    ensures
        repeat_rounds(n, r + 1) =~= repeat_rounds(n, r) + round_sched(n),
    decreases r,
{
    if r > 0 {
        lemma_repeat_snoc(n, (r - 1) as nat);
    }
}

/// Running two schedules in a row is running their concatenation.
pub proof fn lemma_run_concat(s: State, a: Seq<usize>, b: Seq<usize>)
    ensures
        run_spec(s, a + b) == run_spec(run_spec(s, a), b),
    decreases b.len(),
{
    if b.len() == 0 {
        assert(a + b =~= a);
    } else {
        lemma_run_concat(s, a, b.drop_last());
        assert((a + b).drop_last() =~= a + b.drop_last());
        assert((a + b).last() == b.last());
    }
}

/// After the first `k` entries of a fair round, either the total progress
/// has grown, or nothing has changed and none of the `k` scheduled actors
/// could progress.
proof fn lemma_round_progress_aux(s: State, n: usize, k: int)
    requires
        wf(s),
        n as int == n_actors(s),
        0 <= k <= n as int,
    ensures
        total_rank(run_spec(s, round_sched(n).take(k)).phases) > total_rank(s.phases) || (run_spec(
            s,
            round_sched(n).take(k),
        ) == s && forall|i: int| 0 <= i < k ==> !can_progress(s, i)),
    decreases k,
{
    if k == 0 {
        assert(round_sched(n).take(0) =~= Seq::<usize>::empty());
    } else {
        lemma_round_progress_aux(s, n, k - 1);
        let pre = round_sched(n).take(k - 1);
        let t = run_spec(s, pre);
        lemma_run_preserves_wf(s, pre);
        assert(round_sched(n).take(k).drop_last() =~= pre);
        assert(round_sched(n).take(k).last() == round_sched(n)[k - 1]);
        let i = (k - 1) as usize;
        lemma_step_rank(t, i);
        if total_rank(t.phases) > total_rank(s.phases) {
        } else {
            assert(t == s);
            if !can_progress(s, k - 1) {
                lemma_blocked_step_identity(s, i);
            }
        }
    }
}

/// One fair round over an ascending-order configuration either finishes
/// the run or strictly advances the total progress: with the cyclic wait
/// broken, a full round in which nobody moved can only mean that everyone
/// was already done.
pub proof fn lemma_fair_round(s: State, n: usize)
    requires
        wf(s),
        n as int == n_actors(s),
        forall|a: int| 0 <= a < n_actors(s) ==> s.lefts[a] < s.rights[a],
    ensures
        all_done(run_spec(s, round_sched(n))) || total_rank(
            run_spec(s, round_sched(n)).phases,
        ) > total_rank(s.phases),
{
    lemma_round_progress_aux(s, n, n as int);
    assert(round_sched(n).take(n as int) =~= round_sched(n));
    let t = run_spec(s, round_sched(n));
    if !(total_rank(t.phases) > total_rank(s.phases)) {
        lemma_ascending_no_deadlock(s);
        assert forall|a: int| 0 <= a < n_actors(s) implies s.phases[a] is Done by {
            if !(s.phases[a] is Done) {
                assert(deadlocked(s));
            }
        }
    }
}

/// Completion under fair scheduling: over an ascending-order
/// configuration, enough fair rounds finish every actor — the progress
/// still owed bounds the rounds still needed.
pub proof fn lemma_fair_completion(s: State, n: usize, r: nat)
    requires
        wf(s),
        n as int == n_actors(s),
        forall|a: int| 0 <= a < n_actors(s) ==> s.lefts[a] < s.rights[a],
        total_rank(s.phases) + r >= 4 * n_actors(s),
    ensures
        all_done(run_spec(s, repeat_rounds(n, r))),
    decreases r,
{
    if r == 0 {
        lemma_total_rank_bounds(s.phases);
        lemma_total_rank_full(s.phases);
        assert(repeat_rounds(n, 0) =~= Seq::<usize>::empty());
    } else {
        let t = run_spec(s, round_sched(n));
        lemma_run_concat(s, round_sched(n), repeat_rounds(n, (r - 1) as nat));
        lemma_fair_round(s, n);
        lemma_run_preserves_wf(s, round_sched(n));
        if all_done(t) {
            lemma_all_done_rank(t.phases);
        }
        lemma_fair_completion(t, n, (r - 1) as nat);
    }
}

/// Every well-behaved table with ascending acquisition finishes: four fair
/// rounds per lifecycle stage — one round per rank an actor can still gain
/// — bring every actor to `Done`, from any well-formed state.
pub proof fn lemma_ascending_completion(s: State, n: usize)
    requires
        wf(s),
        n as int == n_actors(s),
        forall|a: int| 0 <= a < n_actors(s) ==> s.lefts[a] < s.rights[a],
    ensures
        all_done(run_spec(s, repeat_rounds(n, (4 * n_actors(s)) as nat))),
{
    lemma_total_rank_bounds(s.phases);
    lemma_fair_completion(s, n, (4 * n_actors(s)) as nat);
}

/// Program order at the sink: a finished actor's events arrived at the
/// channel as exactly `Eating` then `Done`, in that order — a single
/// producer's sends are delivered in the order it sent them.
pub proof fn lemma_done_actor_order(s: State, a: int)
    requires
        wf(s),
        0 <= a < n_actors(s),
        s.phases[a] is Done,
    ensures
        events_of(s.queue, a) == seq![Phase::Eating, Phase::Done],
{
}

/// When every actor has finished, the channel has carried exactly two
/// events per actor.
pub proof fn lemma_all_done_count(s: State)
    requires
        wf(s),
        all_done(s),
    ensures
        s.queue.len() == 2 * n_actors(s),
{
    lemma_total_emitted_uniform(s.phases, 2);
}


} // verus!
