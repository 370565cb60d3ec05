//! Actors and their lifecycle phases.
//!
//! An actor (named `Philosopher` after the classic presentation of the
//! problem) is one concurrent participant. It is bound at construction to two
//! resource indices, `left` and `right`, and never changes them; its runtime
//! behaviour is the fixed lifecycle `Idle -> AcquiringLeft -> AcquiringRight
//! -> Eating -> Done`, always requesting `left` first and `right` second.

use vstd::prelude::*;

verus! {

/// One point in the actor lifecycle.
///
/// `Idle` is the start state, `Done` the terminal state. `AcquiringLeft` and
/// `AcquiringRight` are the waiting states: an actor in one of them blocks
/// until the resource it is requesting becomes free. `Eating` is the bounded
/// critical section in which both resources are held.
#[derive(Clone, Copy, Debug, PartialEq, Eq, Structural)]
pub enum Phase {
    Idle,
    AcquiringLeft,
    AcquiringRight,
    Eating,
    Done,
}

/// One concurrent participant: an identity plus the two resource indices it
/// must hold simultaneously to enter its critical section.
#[derive(Clone, Debug)]
pub struct Philosopher {
    pub name: String,
    pub left: usize,
    pub right: usize,
}

impl Philosopher {
    /// Builds an actor bound to the two given resource indices.
    pub fn new(name: &str, left: usize, right: usize) -> (p: Philosopher)
        ensures
            p.name@ == name@,
            p.left == left,
            p.right == right,
    {
        Philosopher { name: String::from_str(name), left, right }
    }
}

/// The human-readable description of a phase, as it appears in a report line.
pub open spec fn phase_text_spec(p: Phase) -> Seq<char> {
    match p {
        Phase::Idle => " is waiting to start."@,
        Phase::AcquiringLeft => " is picking up the left fork."@,
        Phase::AcquiringRight => " is picking up the right fork."@,
        Phase::Eating => " is eating."@,
        Phase::Done => " is done eating."@,
    }
}

/// Returns the description of `p`, e.g. `" is eating."`.
pub fn phase_text(p: Phase) -> (r: &'static str)
    ensures
        r@ == phase_text_spec(p),
{
    match p {
        Phase::Idle => " is waiting to start.",
        Phase::AcquiringLeft => " is picking up the left fork.",
        Phase::AcquiringRight => " is picking up the right fork.",
        Phase::Eating => " is eating.",
        Phase::Done => " is done eating.",
    }
}

} // verus!
