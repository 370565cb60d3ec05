//! The coordinator: it owns the run from configuration to report.
//!
//! Given a configuration of actors and a pool size, the coordinator builds
//! the shared pool and the event channel, lets the actors act step by step
//! under an explicit schedule, and — once every actor has finished — closes
//! the channel with the termination sentinel and drains it into the final
//! report. Every method is verified to follow the small-step semantics of
//! `crate::state` exactly, so the laws proved there hold of every run.

use crate::actor::Phase;
use crate::actor::Philosopher;
use crate::channel::Event;
use crate::channel::EventChannel;
use crate::channel::Message;
use crate::channel::events_seq;
use crate::channel::has_sentinel;
use crate::channel::lemma_events_seq_all;
use crate::channel::lemma_events_seq_push_event;
use crate::channel::lemma_report_of_closed_stream;
use crate::channel::no_sentinel;
use crate::pool::ResourcePool;
use crate::state::State;
use crate::state::all_done;
use crate::state::can_progress;
use crate::state::deadlocked;
use crate::state::events_of;
use crate::state::lemma_ascending_completion;
use crate::state::lemma_done_actor_order;
use crate::state::lemma_init_wf;
use crate::state::lemma_repeat_snoc;
use crate::state::repeat_rounds;
use crate::state::round_sched;
use crate::state::init_state;
use crate::state::lemma_all_done_count;
use crate::state::lemma_run_preserves_wf;
use crate::state::lemma_step_preserves_wf;
use crate::state::lemma_total_emitted_uniform;
use crate::state::n_actors;
use crate::state::run_spec;
use crate::state::step_spec;
use crate::state::wf;
use vstd::prelude::*;

verus! {

/// The entries (actor index, phase) of a queue of events, in order.
pub open spec fn entries_of(q: Seq<Event>) -> Seq<(usize, Phase)> {
    q.map_values(|e: Event| (e.who, e.phase))
}

/// The coordinator of one run: the configuration, each actor's current
/// phase, the shared resource pool, and the event channel.
pub struct Coordinator {
    actors: Vec<Philosopher>,
    phases: Vec<Phase>,
    pool: ResourcePool,
    channel: EventChannel,
}

impl Coordinator {
    /// The state of the run in the small-step semantics of `crate::state`.
    pub closed spec fn state(&self) -> State {
        State {
            lefts: self.actors@.map_values(|p: Philosopher| p.left),
            rights: self.actors@.map_values(|p: Philosopher| p.right),
            phases: self.phases@,
            pool: self.pool@,
            queue: entries_of(events_seq(self.channel@)),
        }
    }

    /// The display names of the actors, by actor index.
    pub closed spec fn names(&self) -> Seq<Seq<char>> {
        self.actors@.map_values(|p: Philosopher| p.name@)
    }

    /// The coordinator's invariant: its state is well-formed, the sentinel
    /// has not been sent yet, and every queued event carries the name of
    /// the actor that sent it.
    pub closed spec fn inv(&self) -> bool {
        &&& wf(self.state())
        &&& no_sentinel(self.channel@)
        &&& forall|k: int|
            0 <= k < self.channel@.len() ==> ((#[trigger] self.channel@[k]) matches Message::Event(
                e,
            ) ==> (e.who as int) < self.actors@.len() && e.name@ == self.actors@[e.who as int].name@)
    }

    /// Builds a coordinator for the given actors over a pool of
    /// `pool_size` cells. The configuration is accepted exactly when every
    /// actor's two indices lie inside the pool; the run then starts with
    /// every actor idle, every cell free and the channel empty.
    pub fn new(actors: Vec<Philosopher>, pool_size: usize) -> (r: Option<Coordinator>)
        ensures
            r is Some <==> (forall|a: int|
                0 <= a < actors@.len() ==> (#[trigger] actors@[a].left as int) < pool_size && (
                actors@[a].right as int) < pool_size),
            r matches Some(c) ==> {
                &&& c.inv()
                &&& c.state() == init_state(
                    actors@.map_values(|p: Philosopher| p.left),
                    actors@.map_values(|p: Philosopher| p.right),
                    pool_size,
                )
                &&& c.names() == actors@.map_values(|p: Philosopher| p.name@)
            },
    {
        let n = actors.len();
        let mut k: usize = 0;
        while k < n
            invariant
                k <= n,
                n == actors@.len(),
                forall|a: int|
                    0 <= a < k ==> (#[trigger] actors@[a].left as int) < pool_size && (
                    actors@[a].right as int) < pool_size,
            decreases n - k,
        {
            if actors[k].left >= pool_size || actors[k].right >= pool_size {
                return None;
            }
            k = k + 1;
        }
        let mut phases: Vec<Phase> = Vec::new();
        let mut j: usize = 0;
        while j < n
            invariant
                j <= n,
                phases@.len() == j,
                forall|a: int| 0 <= a < j ==> phases@[a] is Idle,
            decreases n - j,
        {
            phases.push(Phase::Idle);
            j = j + 1;
        }
        let c = Coordinator {
            actors,
            phases,
            pool: ResourcePool::new(pool_size),
            channel: EventChannel::new(),
        };
        proof {
            let s = c.state();
            let ini = init_state(
                c.actors@.map_values(|p: Philosopher| p.left),
                c.actors@.map_values(|p: Philosopher| p.right),
                pool_size,
            );
            assert(s.phases =~= ini.phases);
            assert(s.pool =~= ini.pool);
            assert(s.queue =~= ini.queue);
            assert(s =~= ini);
            lemma_total_emitted_uniform(s.phases, 0);
            assert(wf(s));
        }
        Some(c)
    }

    /// The number of actors of the configuration.
    pub fn actor_count(&self) -> (n: usize)
        ensures
            n == n_actors(self.state()),
    {
        self.phases.len()
    }

    /// Lets actor `i` act once. The effect is exactly one `step_spec` of
    /// the semantics: an idle actor announces itself, a waiting actor takes
    /// the cell it requests if that cell is free and otherwise stays
    /// blocked with nothing changed, an eating actor releases both cells
    /// and finishes, and a finished or out-of-range index changes nothing.
    pub fn step(&mut self, i: usize)
        requires
            old(self).inv(),
        ensures
            final(self).inv(),
            final(self).state() == step_spec(old(self).state(), i),
            final(self).names() == old(self).names(),
    {
        proof {
            lemma_step_preserves_wf(self.state(), i);
        }
        let ghost s0 = self.state();
        if i >= self.phases.len() {
            return ;
        }
        let ph = self.phases[i];
        match ph {
            Phase::Idle => {
                self.phases.set(i, Phase::AcquiringLeft);
                proof {
                    assert(self.state() =~= step_spec(s0, i));
                }
            },
            Phase::AcquiringLeft => {
                let l = self.actors[i].left;
                proof {
                    assert(s0.lefts[i as int] == l);
                }
                if self.pool.try_acquire(i, l) {
                    self.phases.set(i, Phase::AcquiringRight);
                }
                proof {
                    assert(self.state() =~= step_spec(s0, i));
                }
            },
            Phase::AcquiringRight => {
                let r = self.actors[i].right;
                proof {
                    assert(s0.rights[i as int] == r);
                }
                if self.pool.try_acquire(i, r) {
                    self.phases.set(i, Phase::Eating);
                    let name = String::from_str(self.actors[i].name.as_str());
                    let ev = Event { who: i, name, phase: Phase::Eating };
                    let ghost gev = ev;
                    let ghost q0 = self.channel@;
                    self.channel.send_event(ev);
                    proof {
                        lemma_events_seq_push_event(q0, gev);
                        assert(entries_of(events_seq(self.channel@)) =~= entries_of(
                            events_seq(q0),
                        ).push((i, Phase::Eating)));
                    }
                }
                proof {
                    assert(self.state() =~= step_spec(s0, i));
                }
            },
            Phase::Eating => {
                let l = self.actors[i].left;
                let r = self.actors[i].right;
                proof {
                    assert(s0.lefts[i as int] == l);
                    assert(s0.rights[i as int] == r);
                    assert(s0.pool[l as int] == Some(i));
                    assert(s0.pool[r as int] == Some(i));
                }
                self.pool.release(i, l);
                self.pool.release(i, r);
                self.phases.set(i, Phase::Done);
                let name = String::from_str(self.actors[i].name.as_str());
                let ev = Event { who: i, name, phase: Phase::Done };
                let ghost gev = ev;
                let ghost q0 = self.channel@;
                self.channel.send_event(ev);
                proof {
                    lemma_events_seq_push_event(q0, gev);
                    assert(entries_of(events_seq(self.channel@)) =~= entries_of(
                        events_seq(q0),
                    ).push((i, Phase::Done)));
                    assert(self.state() =~= step_spec(s0, i));
                }
            },
            Phase::Done => {},
        }
    }

    /// Follows a whole schedule: one `step` per entry, in order.
    pub fn run_schedule(&mut self, schedule: &Vec<usize>)
        requires
            old(self).inv(),
        ensures
            final(self).inv(),
            final(self).state() == run_spec(old(self).state(), schedule@),
            final(self).names() == old(self).names(),
    {
        let ghost s0 = self.state();
        let ghost nm0 = self.names();
        let mut k: usize = 0;
        while k < schedule.len()
            invariant
                self.inv(),
                k <= schedule@.len(),
                self.state() == run_spec(s0, schedule@.take(k as int)),
                self.names() == nm0,
            decreases schedule@.len() - k,
        {
            self.step(schedule[k]);
            proof {
                assert(schedule@.take(k + 1).drop_last() =~= schedule@.take(k as int));
                assert(schedule@.take(k + 1).last() == schedule@[k as int]);
            }
            k = k + 1;
        }
        proof {
            assert(schedule@.take(schedule@.len() as int) =~= schedule@);
        }
    }

    /// Whether every actor has reached its terminal phase.
    pub fn all_done(&self) -> (r: bool)
        ensures
            r == all_done(self.state()),
    {
        let n = self.phases.len();
        let mut k: usize = 0;
        while k < n
            invariant
                k <= n,
                n == self.phases@.len(),
                n == n_actors(self.state()),
                self.state().phases == self.phases@,
                forall|a: int| 0 <= a < k ==> self.state().phases[a] is Done,
            decreases n - k,
        {
            if !(self.phases[k] == Phase::Done) {
                return false;
            }
            k = k + 1;
        }
        true
    }

    /// Whether actor `i` could make progress if it acted now.
    pub fn can_step(&self, i: usize) -> (r: bool)
        requires
            self.inv(),
        ensures
            r == ((i as int) < n_actors(self.state()) && can_progress(self.state(), i as int)),
    {
        if i >= self.phases.len() {
            return false;
        }
        match self.phases[i] {
            Phase::Idle => true,
            Phase::AcquiringLeft => {
                let l = self.actors[i].left;
                proof {
                    assert(self.state().lefts[i as int] == l);
                }
                self.pool.is_free(l)
            },
            Phase::AcquiringRight => {
                let r = self.actors[i].right;
                proof {
                    assert(self.state().rights[i as int] == r);
                }
                self.pool.is_free(r)
            },
            Phase::Eating => true,
            Phase::Done => false,
        }
    }

    /// Whether the run is deadlocked: some actor still has work to do, yet
    /// no actor at all can make progress.
    pub fn is_stuck(&self) -> (r: bool)
        requires
            self.inv(),
        ensures
            r == deadlocked(self.state()),
    {
        let n = self.phases.len();
        let mut any_pending = false;
        let mut any_progress = false;
        let mut k: usize = 0;
        while k < n
            invariant
                self.inv(),
                k <= n,
                n == self.phases@.len(),
                n == n_actors(self.state()),
                self.state().phases == self.phases@,
                any_pending == exists|a: int| 0 <= a < k && !((#[trigger] self.state().phases[a]) is Done),
                any_progress == exists|a: int| 0 <= a < k && #[trigger] can_progress(self.state(), a),
            decreases n - k,
        {
            if !(self.phases[k] == Phase::Done) {
                any_pending = true;
                proof {
                    assert(!((self.state().phases[k as int]) is Done));
                }
            }
            if self.can_step(k) {
                any_progress = true;
                proof {
                    assert(can_progress(self.state(), k as int));
                }
            }
            k = k + 1;
        }
        any_pending && !any_progress
    }

    /// Closes the run: sends the one termination sentinel — after every
    /// event already in the channel — and drains the channel into the
    /// report. The report is exactly the queued events, in arrival order,
    /// each carrying its sender's name.
    pub fn finish(&mut self) -> (report: Vec<Event>)
        requires
            old(self).inv(),
        ensures
            entries_of(report@) == old(self).state().queue,
            forall|k: int|
                0 <= k < report@.len() ==> ((#[trigger] report@[k].who) as int) < n_actors(
                    old(self).state(),
                ) && report@[k].name@ == old(self).names()[report@[k].who as int],
    {
        let ghost q0 = self.channel@;
        let ghost actors0 = self.actors@;
        proof {
            lemma_report_of_closed_stream(q0);
        }
        self.channel.send_sentinel();
        proof {
            assert(self.channel@[q0.len() as int] is Sentinel);
            assert(has_sentinel(self.channel@));
        }
        let report = self.channel.drain();
        proof {
            assert(report@ == events_seq(q0));
            assert(entries_of(report@) =~= old(self).state().queue);
            let p = (|e: Event|
                (e.who as int) < actors0.len() && e.name@ == actors0[e.who as int].name@);
            lemma_events_seq_all(q0, p);
            assert forall|k: int| 0 <= k < report@.len() implies ((#[trigger] report@[k].who)
                as int) < n_actors(old(self).state()) && report@[k].name@ == old(self).names()[
                report@[k].who as int] by {
                assert(p(report@[k]));
            }
        }
        report
    }
}

/// How a scheduled run ended.
///
/// `Complete` carries the drained report: every actor finished under the
/// given schedule. `Stalled` means the schedule ran out before every actor
/// finished — in particular, a deadlocked run stalls under every schedule.
/// `InvalidConfig` means some actor's resource index lies outside the pool.
pub enum RunOutcome {
    Complete(Vec<Event>),
    Stalled,
    InvalidConfig,
}

/// Whether every actor's two resource indices lie inside a pool of
/// `pool_size` cells — the condition for a configuration to be accepted.
pub open spec fn config_valid(actors: Seq<Philosopher>, pool_size: usize) -> bool {
    forall|a: int|
        0 <= a < actors.len() ==> (#[trigger] actors[a].left as int) < pool_size && (
        actors[a].right as int) < pool_size
}

/// The state a run of `actors` over `pool_size` cells reaches after
/// following `sched`.
pub open spec fn final_state_of(actors: Seq<Philosopher>, pool_size: usize, sched: Seq<usize>) -> State {
    run_spec(
        init_state(
            actors.map_values(|p: Philosopher| p.left),
            actors.map_values(|p: Philosopher| p.right),
            pool_size,
        ),
        sched,
    )
}

/// Runs a whole configuration under an explicit schedule: builds the pool
/// and the channel, lets the actors act in the scheduled order, and, when
/// every actor has finished, sends the sentinel and drains the report.
///
/// The outcome is pinned to the semantics: with valid indices the run ends
/// `Complete` exactly when the scheduled `run_spec` finishes every actor,
/// and the report then holds exactly the queued events of that final state
/// — two per actor, each carrying its sender's name.
pub fn run(actors: Vec<Philosopher>, pool_size: usize, schedule: &Vec<usize>) -> (r: RunOutcome)
    ensures
        r is InvalidConfig <==> !config_valid(actors@, pool_size),
        config_valid(actors@, pool_size) ==> (r is Complete <==> all_done(
            final_state_of(actors@, pool_size, schedule@),
        )),
        r matches RunOutcome::Complete(report) ==> entries_of(report@) == final_state_of(
            actors@,
            pool_size,
            schedule@,
        ).queue,
        r matches RunOutcome::Complete(report) ==> report@.len() == 2 * actors@.len(),
        r matches RunOutcome::Complete(report) ==> (forall|k: int|
            0 <= k < report@.len() ==> ((#[trigger] report@[k].who) as int) < actors@.len()
                && report@[k].name@ == actors@[report@[k].who as int].name@),
        r matches RunOutcome::Complete(report) ==> (forall|a: int|
            0 <= a < actors@.len() ==> #[trigger] events_of(entries_of(report@), a) == seq![
                Phase::Eating,
                Phase::Done,
            ]),
{
    let c = Coordinator::new(actors, pool_size);
    match c {
        None => RunOutcome::InvalidConfig,
        Some(mut c) => {
            let ghost ini = c.state();
            c.run_schedule(schedule);
            let ghost fin = c.state();
            proof {
                lemma_run_preserves_wf(ini, schedule@);
            }
            if c.all_done() {
                proof {
                    lemma_all_done_count(fin);
                }
                let ghost nm = c.names();
                let report = c.finish();
                proof {
                    assert(report@.len() == entries_of(report@).len());
                    assert forall|k: int| 0 <= k < report@.len() implies ((#[trigger] report@[
                    k].who) as int) < actors@.len() && report@[k].name@ == actors@[report@[
                    k].who as int].name@ by {
                        assert(report@[k].name@ == nm[report@[k].who as int]);
                    }
                    assert forall|a: int| 0 <= a < actors@.len() implies #[trigger] events_of(
                        entries_of(report@),
                        a,
                    ) == seq![Phase::Eating, Phase::Done] by {
                        lemma_done_actor_order(fin, a);
                    }
                }
                RunOutcome::Complete(report)
            } else {
                RunOutcome::Stalled
            }
        },
    }
}

/// Builds the fair round-robin schedule: `rounds` rounds in which every
/// one of `n` actors, in index order, acts once.
pub fn fair_schedule(n: usize, rounds: usize) -> (sched: Vec<usize>)
    ensures
        sched@ == repeat_rounds(n, rounds as nat),
{
    let mut sched: Vec<usize> = Vec::new();
    let mut r: usize = 0;
    while r < rounds
        invariant
            r <= rounds,
            sched@ == repeat_rounds(n, r as nat),
        decreases rounds - r,
    {
        let mut i: usize = 0;
        while i < n
            invariant
                i <= n,
                sched@ == repeat_rounds(n, r as nat) + round_sched(n).take(i as int),
            decreases n - i,
        {
            sched.push(i);
            proof {
                assert(round_sched(n).take(i + 1).drop_last() =~= round_sched(n).take(i as int));
                assert(round_sched(n).take(i + 1).last() == i);
                assert(repeat_rounds(n, r as nat) + round_sched(n).take(i as int).push(i)
                    =~= (repeat_rounds(n, r as nat) + round_sched(n).take(i as int)).push(i));
            }
            i = i + 1;
        }
        proof {
            assert(round_sched(n).take(n as int) =~= round_sched(n));
            lemma_repeat_snoc(n, r as nat);
        }
        r = r + 1;
    }
    sched
}

/// Runs a configuration under a fair round-robin schedule that is provably
/// long enough: one round per unit of progress any actor can still make.
///
/// This carries the completion guarantee as a contract: whenever the
/// configuration is valid and every actor requests its lower-indexed cell
/// first — the corrected acquisition order that breaks the cyclic wait —
/// the run ends `Complete`, with the same report guarantees as `run`.
pub fn run_fair(actors: Vec<Philosopher>, pool_size: usize) -> (r: RunOutcome)
    requires
        4 * actors@.len() <= usize::MAX,
    ensures
        r is InvalidConfig <==> !config_valid(actors@, pool_size),
        config_valid(actors@, pool_size) && (forall|a: int|
            0 <= a < actors@.len() ==> (#[trigger] actors@[a]).left < actors@[a].right) ==> r
            is Complete,
        r matches RunOutcome::Complete(report) ==> report@.len() == 2 * actors@.len(),
        r matches RunOutcome::Complete(report) ==> (forall|k: int|
            0 <= k < report@.len() ==> ((#[trigger] report@[k].who) as int) < actors@.len()
                && report@[k].name@ == actors@[report@[k].who as int].name@),
        r matches RunOutcome::Complete(report) ==> (forall|a: int|
            0 <= a < actors@.len() ==> #[trigger] events_of(entries_of(report@), a) == seq![
                Phase::Eating,
                Phase::Done,
            ]),
{
    let n = actors.len();
    let schedule = fair_schedule(n, 4 * n);
    proof {
        let lefts = actors@.map_values(|p: Philosopher| p.left);
        let rights = actors@.map_values(|p: Philosopher| p.right);
        if config_valid(actors@, pool_size) && (forall|a: int|
            0 <= a < actors@.len() ==> (#[trigger] actors@[a]).left < actors@[a].right) {
            lemma_init_wf(lefts, rights, pool_size);
            let ini = init_state(lefts, rights, pool_size);
            assert forall|a: int| 0 <= a < n_actors(ini) implies ini.lefts[a]
                < ini.rights[a] by {
                assert(ini.lefts[a] == actors@[a].left);
                assert(ini.rights[a] == actors@[a].right);
            }
            lemma_ascending_completion(ini, n);
        }
    }
    run(actors, pool_size, &schedule)
}

/// Renders a report as its human-readable status lines, one per event, in
/// arrival order: `"<name> is <phase description>."`.
pub fn report_lines(report: &Vec<Event>) -> (lines: Vec<String>)
    ensures
        lines@.len() == report@.len(),
        forall|k: int|
            0 <= k < report@.len() ==> (#[trigger] lines@[k])@ == report@[k].name@
                + crate::actor::phase_text_spec(report@[k].phase),
{
    let mut lines: Vec<String> = Vec::new();
    let mut k: usize = 0;
    while k < report.len()
        invariant
            k <= report@.len(),
            lines@.len() == k,
            forall|j: int|
                0 <= j < k ==> (#[trigger] lines@[j])@ == report@[j].name@
                    + crate::actor::phase_text_spec(report@[j].phase),
        decreases report@.len() - k,
    {
        lines.push(report[k].line());
        k = k + 1;
    }
    lines
}

} // verus!
