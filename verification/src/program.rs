use vstd::prelude::*;
use crate::env::Boundary;
use crate::env::Environment;
use crate::env::Exchange;
use crate::futs::join;
use crate::futs::select;
use crate::futs::ButtonPressed;
use crate::futs::FirstSecond;
use crate::futs::Join;
use crate::futs::MessageReceived;
use crate::futs::Poll;
use crate::futs::Select;
use crate::futs::Suspendable;
use crate::futs::Wait;

verus! {

/// The number of counting advances of the wait beside the button.
pub const TICKS: u8 = 8;

/// The race that the program runs: the button together with the wait,
/// against the arrival of a message.
pub type Round = Select<Join<ButtonPressed, Wait>, MessageReceived>;

/// Is `round` a race on which nothing has been advanced yet?
pub open spec fn fresh_round(round: Round) -> bool {
    &&& !round.decided()
    &&& !round.first().first_done()
    &&& !round.first().second_done()
    &&& round.first().second().fresh(TICKS)
}

/// A new race, with its wait at zero.
pub fn new_round() -> (round: Round)
    ensures
        fresh_round(round),
{
    select(join(ButtonPressed {  }, Wait::new(TICKS)), MessageReceived {  })
}

/// How far a program has come: whether the button has been seen pressed, how
/// many advances the wait has counted, and whether the wait has finished.
pub struct Progress {
    pub button_seen: bool,
    pub ticks: nat,
    pub wait_over: bool,
}

/// One advance of a program in plain terms, from where the program stands
/// and from the answers that the host gives if it is asked. The result is
/// where the program stands afterwards, the exchanges that the advance makes
/// with the host, in order, and whether the program finishes.
///
/// The button is asked for unless it has been seen pressed. The wait counts
/// one advance, or finishes if it has counted them all. If both have
/// finished by now, so has the program. Only otherwise the host is asked for
/// a message; a message is announced to the host and starts everything again.
pub open spec fn plain_advance(at: Progress, button: bool, message: bool) -> (
    Progress,
    Seq<Exchange>,
    bool,
) {
    let asked = if at.button_seen {
        Seq::<Exchange>::empty()
    } else {
        seq![Exchange::ButtonPressed(button)]
    };
    let counted = Progress {
        button_seen: at.button_seen || button,
        ticks: if !at.wait_over && at.ticks < TICKS {
            at.ticks + 1
        } else {
            at.ticks
        },
        wait_over: at.wait_over || at.ticks >= TICKS,
    };
    if counted.button_seen && counted.wait_over {
        (counted, asked, true)
    } else if message {
        (
            Progress { button_seen: false, ticks: 0, wait_over: false },
            asked.push(Exchange::MessageReceived(true)).push(Exchange::MailArrived),
            false,
        )
    } else {
        (counted, asked.push(Exchange::MessageReceived(false)), false)
    }
}

/// Is the advance from `program` to `next` the plain advance on the answers
/// `button` and `message`?
pub open spec fn advances_plainly(
    program: Program,
    next: Program,
    before: Seq<Exchange>,
    after: Seq<Exchange>,
    outcome: Poll<()>,
    button: bool,
    message: bool,
) -> bool {
    let (to, said, finished) = plain_advance(program.progress(), button, message);
    &&& next.progress() == to
    &&& after == before + said
    &&& outcome is Ready <==> finished
}

/// The top-level program. It listens for messages until the button has been
/// pressed and the wait has run out since the last message: each message
/// is announced to the host and starts the wait again.
#[derive(Clone, Debug, PartialEq, Eq)]
pub struct Program {
    round: Round,
}

impl Program {
    /// The race that is currently being run.
    pub closed spec fn round(self) -> Round {
        self.round
    }

    /// The wait beside the button.
    pub open spec fn wait(self) -> Wait {
        self.round().first().second()
    }

    /// The program is between decisions, its wait is within bounds, and the
    /// wait is marked as finished exactly if it has finished. This holds of
    /// every program that is kept for its next advance.
    pub open spec fn wf(self) -> bool {
        &&& !self.round().decided()
        &&& self.wait().wf()
        &&& self.wait().threshold() == TICKS
        &&& self.round().first().second_done() == self.wait().finished()
    }

    /// How far the program has come since it was made or last started again.
    pub open spec fn progress(self) -> Progress {
        Progress {
            button_seen: self.round().first().first_done(),
            ticks: self.wait().count() as nat,
            wait_over: self.wait().finished(),
        }
    }

    /// A program on which nothing has been advanced yet.
    pub fn new() -> (program: Program)
        ensures
            fresh_round(program.round()),
            program.wf(),
    {
        Program { round: new_round() }
    }
}

/// One advance of the join of the button and the wait, in plain terms.
proof fn lemma_join_advances_plainly(
    all: Join<ButtonPressed, Wait>,
    next: Join<ButtonPressed, Wait>,
    before: Seq<Exchange>,
    after: Seq<Exchange>,
    outcome: Poll<()>,
)
    requires
        all.advances(next, before, after, outcome),
        all.second().wf(),
        all.second().threshold() == TICKS,
        all.second_done() == all.second().finished(),
    ensures
        next.second().wf(),
        next.second().threshold() == TICKS,
        next.second_done() == next.second().finished(),
        all.first_done() ==> next.first_done() && after == before,
        !all.first_done() ==> after == before.push(Exchange::ButtonPressed(next.first_done())),
        next.second().finished() == (all.second().finished() || all.second().count() >= TICKS),
        next.second().count() == if !all.second().finished() && all.second().count() < TICKS {
            all.second().count() + 1
        } else {
            all.second().count() as int
        },
        outcome is Ready <==> next.first_done() && next.second_done(),
{
    let between = choose|between: Seq<Exchange>| #[trigger]
        all.advances_through(next, before, between, after);
    assert(all.first_advances(next, before, between));
    assert(all.second_advances(next, between, after));
}

/// A program that is between decisions advances in plain terms: there are
/// answers of the host on which the advance is the plain one. If the program
/// does not finish, it is between decisions afterwards. It never meets a
/// race that had been decided before.
pub proof fn program_advances_in_plain_terms(
    program: Program,
    next: Program,
    before: Seq<Exchange>,
    after: Seq<Exchange>,
    outcome: Poll<()>,
)
    requires
        program.wf(),
        program.advances(next, before, after, outcome),
    ensures
        exists|button: bool, message: bool| #[trigger]
            advances_plainly(program, next, before, after, outcome, button, message),
        outcome is Pending ==> next.wf(),
        !program.round().advances(next.round(), before, after, Poll::Ready(None)),
{
    let round = program.round();
    let at = program.progress();
    if outcome is Ready {
        lemma_join_advances_plainly(
            round.first(),
            next.round().first(),
            before,
            after,
            Poll::Ready(()),
        );
        let button = next.progress().button_seen;
        assert(after =~= before + plain_advance(at, button, false).1);
        assert(advances_plainly(program, next, before, after, outcome, button, false));
    } else if round.advances(next.round(), before, after, Poll::Pending) {
        let between = choose|between: Seq<Exchange>| #[trigger]
            round.both_advance(next.round(), before, between, after, Poll::Pending);
        lemma_join_advances_plainly(
            round.first(),
            next.round().first(),
            before,
            between,
            Poll::Pending,
        );
        let button = next.progress().button_seen;
        assert(after =~= before + plain_advance(at, button, false).1);
        assert(advances_plainly(program, next, before, after, outcome, button, false));
    } else {
        let (decided, recorded) = choose|decided: Round, recorded: Seq<Exchange>|
            {
                &&& #[trigger] round.advances(
                    decided,
                    before,
                    recorded,
                    Poll::Ready(Some(FirstSecond::Second)),
                )
                &&& after == recorded.push(Exchange::MailArrived)
            };
        let between = choose|between: Seq<Exchange>| #[trigger]
            round.both_advance(decided, before, between, recorded, Poll::Ready(()));
        lemma_join_advances_plainly(
            round.first(),
            decided.first(),
            before,
            between,
            Poll::Pending,
        );
        let button = decided.first().first_done();
        assert(after =~= before + plain_advance(at, button, true).1);
        assert(advances_plainly(program, next, before, after, outcome, button, true));
    }
}

/// Does an advance that takes the record from `before` to `after` announce
/// a message to the host?
pub open spec fn announces_mail(before: Seq<Exchange>, after: Seq<Exchange>) -> bool {
    after.len() > before.len() && after.last() == Exchange::MailArrived
}

/// Does an advance that takes the record from `before` to `after` ask for
/// the button and find it pressed?
pub open spec fn sees_button(before: Seq<Exchange>, after: Seq<Exchange>) -> bool {
    after.len() > before.len() && after[before.len() as int] == Exchange::ButtonPressed(true)
}

/// What one advance does to the progress of a program between decisions.
proof fn lemma_advance_moves_progress(
    program: Program,
    next: Program,
    before: Seq<Exchange>,
    after: Seq<Exchange>,
    outcome: Poll<()>,
)
    requires
        program.wf(),
        program.advances(next, before, after, outcome),
    ensures
        outcome is Pending ==> next.wf(),
        outcome is Ready ==> next.round().decided(),
        next.progress().ticks <= program.progress().ticks + 1,
        program.progress().ticks <= TICKS,
        announces_mail(before, after) ==> {
            &&& outcome is Pending
            &&& next.progress().ticks == 0
            &&& !next.progress().button_seen
        },
        !announces_mail(before, after) ==> (next.progress().button_seen <==> (
        program.progress().button_seen || sees_button(before, after))),
        outcome is Ready ==> program.progress().ticks == TICKS && next.progress().button_seen,
{
    program_advances_in_plain_terms(program, next, before, after, outcome);
    let (button, message) = choose|button: bool, message: bool| #[trigger]
        advances_plainly(program, next, before, after, outcome, button, message);
    let said = plain_advance(program.progress(), button, message).1;
    assert(after == before + said);
    if said.len() > 0 {
        assert(after.last() == said.last());
        assert(after[before.len() as int] == said[0]);
    }
}

/// A run of a program: each state leads to the next by one advance, which
/// takes the record from `befores` to `afters` and gives the report, all
/// three at the same place.
pub open spec fn program_run(
    states: Seq<Program>,
    befores: Seq<Seq<Exchange>>,
    afters: Seq<Seq<Exchange>>,
    reports: Seq<Poll<()>>,
) -> bool {
    &&& states.len() == reports.len() + 1
    &&& befores.len() == reports.len()
    &&& afters.len() == reports.len()
    &&& forall|i: int|
        0 <= i < reports.len() ==> states[i].advances(
            states[i + 1],
            befores[i],
            afters[i],
            #[trigger] reports[i],
        )
}

/// In a run from a program between decisions, the program is between
/// decisions for as long as it has not finished, and its race is decided
/// from then on.
proof fn lemma_run_until_finished(
    states: Seq<Program>,
    befores: Seq<Seq<Exchange>>,
    afters: Seq<Seq<Exchange>>,
    reports: Seq<Poll<()>>,
    k: int,
)
    requires
        program_run(states, befores, afters, reports),
        states[0].wf(),
        0 <= k <= reports.len(),
    ensures
        (forall|j: int| 0 <= j < k ==> reports[j] is Pending) ==> states[k].wf(),
        (exists|j: int| 0 <= j < k && reports[j] is Ready) ==> states[k].round().decided(),
    decreases k,
{
    if k > 0 {
        lemma_run_until_finished(states, befores, afters, reports, k - 1);
        assert(states[k - 1].advances(states[k], befores[k - 1], afters[k - 1], reports[k - 1]));
        if forall|j: int| 0 <= j < k - 1 ==> reports[j] is Pending {
            lemma_advance_moves_progress(
                states[k - 1],
                states[k],
                befores[k - 1],
                afters[k - 1],
                reports[k - 1],
            );
        } else {
            let j = choose|j: int| 0 <= j < k - 1 && !(reports[j] is Pending);
            assert(0 <= j < k - 1 && reports[j] is Ready);
        }
    }
}

/// In a run, between two states that are both before the finish, the wait
/// has counted at most once for each advance.
proof fn lemma_ticks_grow_slowly(
    states: Seq<Program>,
    befores: Seq<Seq<Exchange>>,
    afters: Seq<Seq<Exchange>>,
    reports: Seq<Poll<()>>,
    from: int,
    to: int,
)
    requires
        program_run(states, befores, afters, reports),
        states[0].wf(),
        0 <= from <= to <= reports.len(),
        forall|j: int| 0 <= j < to ==> reports[j] is Pending,
    ensures
        states[to].progress().ticks <= states[from].progress().ticks + (to - from),
    decreases to - from,
{
    if from < to {
        lemma_ticks_grow_slowly(states, befores, afters, reports, from, to - 1);
        lemma_run_until_finished(states, befores, afters, reports, to - 1);
        assert(states[to - 1].advances(
            states[to],
            befores[to - 1],
            afters[to - 1],
            reports[to - 1],
        ));
        lemma_advance_moves_progress(
            states[to - 1],
            states[to],
            befores[to - 1],
            afters[to - 1],
            reports[to - 1],
        );
    }
}

/// In a run, a program that has seen the button pressed by state `k`, before
/// the finish, saw it on an advance since which no message was announced.
proof fn lemma_button_was_seen(
    states: Seq<Program>,
    befores: Seq<Seq<Exchange>>,
    afters: Seq<Seq<Exchange>>,
    reports: Seq<Poll<()>>,
    k: int,
)
    requires
        program_run(states, befores, afters, reports),
        states[0].wf(),
        !states[0].progress().button_seen,
        0 <= k <= reports.len(),
        forall|j: int| 0 <= j < k ==> reports[j] is Pending,
        states[k].progress().button_seen,
    ensures
        exists|j: int|
            {
                &&& 0 <= j < k
                &&& #[trigger] sees_button(befores[j], afters[j])
                &&& forall|m: int| j <= m < k ==> !announces_mail(befores[m], afters[m])
            },
    decreases k,
{
    lemma_run_until_finished(states, befores, afters, reports, k - 1);
    assert(states[k - 1].advances(states[k], befores[k - 1], afters[k - 1], reports[k - 1]));
    lemma_advance_moves_progress(
        states[k - 1],
        states[k],
        befores[k - 1],
        afters[k - 1],
        reports[k - 1],
    );
    if sees_button(befores[k - 1], afters[k - 1]) {
        assert(forall|m: int| k - 1 <= m < k ==> !announces_mail(befores[m], afters[m]));
    } else {
        lemma_button_was_seen(states, befores, afters, reports, k - 1);
        let j = choose|j: int|
            {
                &&& 0 <= j < k - 1
                &&& #[trigger] sees_button(befores[j], afters[j])
                &&& forall|m: int| j <= m < k - 1 ==> !announces_mail(befores[m], afters[m])
            };
        assert(forall|m: int| j <= m < k ==> !announces_mail(befores[m], afters[m]));
    }
}

/// What it takes for the program to finish. In a run from a new program, an
/// advance on which the program finishes
/// - is the first such advance,
/// - comes after `TICKS` advances or more, and after more than that since
///   any advance that announced a message,
/// - and follows or is an advance that saw the button pressed, with no
///   message announced from that one on.
pub proof fn program_finishes_only_after_button_and_full_wait(
    states: Seq<Program>,
    befores: Seq<Seq<Exchange>>,
    afters: Seq<Seq<Exchange>>,
    reports: Seq<Poll<()>>,
    i: int,
)
    requires
        program_run(states, befores, afters, reports),
        fresh_round(states[0].round()),
        0 <= i < reports.len(),
        reports[i] is Ready,
    ensures
        forall|j: int| 0 <= j < i ==> reports[j] is Pending,
        i >= TICKS,
        forall|j: int| 0 <= j < i && announces_mail(befores[j], afters[j]) ==> i - j > TICKS,
        exists|j: int|
            {
                &&& 0 <= j <= i
                &&& #[trigger] sees_button(befores[j], afters[j])
                &&& forall|m: int| j <= m <= i ==> !announces_mail(befores[m], afters[m])
            },
{
    assert(states[i].advances(states[i + 1], befores[i], afters[i], reports[i]));
    lemma_run_until_finished(states, befores, afters, reports, i);
    if exists|j: int| 0 <= j < i && reports[j] is Ready {
        // a decided race makes the program report that it is still running
        assert(false);
    }
    assert forall|j: int| 0 <= j < i implies reports[j] is Pending by {
        if !(reports[j] is Pending) {
            assert(reports[j] is Ready);
        }
    }
    lemma_advance_moves_progress(states[i], states[i + 1], befores[i], afters[i], reports[i]);
    lemma_ticks_grow_slowly(states, befores, afters, reports, 0, i);
    assert forall|j: int| 0 <= j < i && announces_mail(befores[j], afters[j]) implies i - j
        > TICKS by {
        lemma_run_until_finished(states, befores, afters, reports, j);
        assert(states[j].advances(states[j + 1], befores[j], afters[j], reports[j]));
        lemma_advance_moves_progress(states[j], states[j + 1], befores[j], afters[j], reports[j]);
        lemma_ticks_grow_slowly(states, befores, afters, reports, j + 1, i);
    }
    if sees_button(befores[i], afters[i]) {
        assert(forall|m: int| i <= m <= i ==> !announces_mail(befores[m], afters[m]));
    } else {
        lemma_button_was_seen(states, befores, afters, reports, i);
        let j = choose|j: int|
            {
                &&& 0 <= j < i
                &&& #[trigger] sees_button(befores[j], afters[j])
                &&& forall|m: int| j <= m < i ==> !announces_mail(befores[m], afters[m])
            };
        assert(forall|m: int| j <= m <= i ==> !announces_mail(befores[m], afters[m]));
    }
}

impl Suspendable for Program {
    type Output = ();

    open spec fn advances(
        self,
        next: Program,
        before: Seq<Exchange>,
        after: Seq<Exchange>,
        outcome: Poll<()>,
    ) -> bool {
        ||| {
            &&& outcome is Ready
            &&& self.round().advances(
                next.round(),
                before,
                after,
                Poll::Ready(Some(FirstSecond::First)),
            )
        }
        ||| {
            &&& outcome is Pending
            &&& fresh_round(next.round())
            &&& exists|decided: Round, between: Seq<Exchange>|
                {
                    &&& #[trigger] self.round().advances(
                        decided,
                        before,
                        between,
                        Poll::Ready(Some(FirstSecond::Second)),
                    )
                    &&& after == between.push(Exchange::MailArrived)
                }
        }
        ||| {
            &&& outcome is Pending
            &&& self.round().advances(next.round(), before, after, Poll::Ready(None))
        }
        ||| {
            &&& outcome is Pending
            &&& self.round().advances(next.round(), before, after, Poll::Pending)
        }
    }

    fn poll<E: Environment>(&mut self, env: &mut Boundary<E>) -> (outcome: Poll<()>)
        ensures
            old(self).wf() && outcome is Pending ==> final(self).wf(),
    {
        let outcome = self.poll_round(env);
        proof {
            if old(self).wf() {
                program_advances_in_plain_terms(*old(self), *self, old(env)@, env@, outcome);
            }
        }
        outcome
    }
}

impl Program {
    /// Advances the current race once and acts on what it reports.
    fn poll_round<E: Environment>(&mut self, env: &mut Boundary<E>) -> (outcome: Poll<()>)
        ensures
            old(self).advances(*final(self), old(env)@, final(env)@, outcome),
    {
        match self.round.poll(env) {
            Poll::Ready(Some(FirstSecond::First)) => Poll::Ready(()),
            Poll::Ready(Some(FirstSecond::Second)) => {
                let ghost decided = self.round;
                let ghost between = env@;
                env.notify_mail_arrived();
                self.round = new_round();
                assert(old(self).round().advances(
                    decided,
                    old(env)@,
                    between,
                    Poll::Ready(Some(FirstSecond::Second)),
                ));
                Poll::Pending
            },
            Poll::Ready(None) => Poll::Pending,
            Poll::Pending => Poll::Pending,
        }
    }
}

} // verus!
