//! A cooperative task engine without allocation: one program, built from
//! suspendable computations, is kept in a slot behind a spin lock and driven
//! forward one advance at a time by its host.

use spin::mutex::SpinMutex;
use vstd::prelude::*;

pub mod env;
pub mod futs;
pub mod program;
pub mod slot;

use crate::env::Boundary;
use crate::env::Environment;
use crate::env::Exchange;
use crate::futs::lemma_unit_outcome;
use crate::futs::Poll;
use crate::futs::Suspendable;
use crate::program::fresh_round;
use crate::program::Program;
use crate::slot::held;
use crate::slot::try_lock;

verus! {

/// The slot that owns the program: empty, or populated with one program.
pub type TaskSlot = SpinMutex<Option<Program>>;

/// What `init` does to the contents of the slot once it has the lock: an
/// empty slot gets a program on which nothing has been advanced, a populated
/// one is left as it is.
pub open spec fn slot_initialises(found: Option<Program>, left: Option<Program>) -> bool {
    match found {
        Some(program) => left == found,
        None => left matches Some(program) && fresh_round(program.round()),
    }
}

/// What `step` does once it has the lock. On an empty slot nothing happens.
/// A program found in the slot is advanced once; if it finishes, the slot is
/// left empty and the step is terminal, otherwise the program goes back.
pub open spec fn slot_advances(
    found: Option<Program>,
    left: Option<Program>,
    before: Seq<Exchange>,
    after: Seq<Exchange>,
    terminal: bool,
) -> bool {
    match found {
        None => left is None && after == before && !terminal,
        Some(program) => if terminal {
            &&& left is None
            &&& exists|last: Program| #[trigger]
                program.advances(last, before, after, Poll::Ready(()))
        } else {
            &&& left matches Some(next)
            &&& program.advances(next, before, after, Poll::Pending)
        },
    }
}

/// A second `init` changes nothing: whatever the first one found, the slot
/// is populated after it, and a populated slot is left exactly as it is, so
/// the program in it is neither reset nor replaced.
pub proof fn init_is_idempotent(
    found: Option<Program>,
    left: Option<Program>,
    again: Option<Program>,
)
    requires
        slot_initialises(found, left),
        slot_initialises(left, again),
    ensures
        left is Some,
        found is Some ==> left == found,
        again == left,
{
}

/// Is the program in the slot, if there is one, between decisions?
pub open spec fn slot_wf(slot: Option<Program>) -> bool {
    slot matches Some(program) ==> program.wf()
}

/// The part of `init` that follows the attempt at the lock. `attempt` is
/// `None` if the lock was not had, and then nothing is done.
pub fn init_attempt(attempt: Option<&mut Option<Program>>)
    ensures
        attempt matches Some(data) ==> slot_initialises(*data, *final(data)),
        attempt matches Some(data) ==> (slot_wf(*data) ==> slot_wf(*final(data))),
{
    if let Some(data) = attempt {
        if data.is_none() {
            *data = Some(Program::new());
        }
    }
}

/// The part of `step` that follows the attempt at the lock. `attempt` is
/// `None` if the lock was not had: the call then makes no exchange with the
/// host and is not terminal, as if it had not been made.
pub fn step_attempt<E: Environment>(
    attempt: Option<&mut Option<Program>>,
    env: &mut Boundary<E>,
) -> (terminal: bool)
    ensures
        attempt is None ==> !terminal && final(env)@ == old(env)@,
        attempt matches Some(data) ==> slot_advances(
            *data,
            *final(data),
            old(env)@,
            final(env)@,
            terminal,
        ),
        attempt matches Some(data) ==> (slot_wf(*data) ==> slot_wf(*final(data))),
{
    if let Some(data) = attempt {
        if let Some(mut program) = data.take() {
            let outcome = program.poll(env);
            proof {
                lemma_unit_outcome(outcome);
            }
            match outcome {
                Poll::Ready(_) => {
                    return true;
                },
                Poll::Pending => {
                    *data = Some(program);
                },
            }
        }
    }
    false
}

/// Puts a new program into the slot if the slot is empty. A populated slot
/// is left alone, and so is one whose lock is taken: the call never waits.
pub fn init(slot: &TaskSlot) {
    match try_lock(slot) {
        Some(mut guard) => init_attempt(Some(held(&mut guard))),
        None => init_attempt(None),
    }
}

/// Advances the program in the slot once and says whether it finished with
/// this call. The call never waits: if the lock is taken it does nothing, as
/// on an empty slot.
pub fn step<E: Environment>(slot: &TaskSlot, env: &mut Boundary<E>) -> (terminal: bool)
    ensures
        exists|found: Option<Program>, left: Option<Program>| #[trigger]
            slot_advances(found, left, old(env)@, final(env)@, terminal),
{
    match try_lock(slot) {
        Some(mut guard) => {
            let data = held(&mut guard);
            let ghost found = *data;
            let terminal = step_attempt(Some(data), env);
            assert(slot_advances(found, *data, old(env)@, env@, terminal));
            terminal
        },
        None => {
            let terminal = step_attempt(None, env);
            assert(slot_advances(None, None, old(env)@, env@, terminal));
            terminal
        },
    }
}

} // verus!
