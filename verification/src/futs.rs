use vstd::prelude::*;
use crate::env::Boundary;
use crate::env::Environment;
use crate::env::Exchange;

verus! {

/// What one advance of a suspendable computation reports.
#[derive(Clone, Copy, Debug, PartialEq, Eq)]
pub enum Poll<T> {
    /// The computation has finished with this output.
    Ready(T),
    /// The computation is still running.
    Pending,
}

/// An outcome without output is told by its variant alone.
pub proof fn lemma_unit_outcome(outcome: Poll<()>)
    ensures
        outcome is Ready ==> outcome == Poll::Ready(()),
        outcome is Pending ==> outcome == Poll::<()>::Pending,
{
    if outcome is Ready {
        assert(outcome->Ready_0 == ());
    }
}

/// A computation that is driven forward one advance at a time.
///
/// `advances` is the computation's transition relation: it relates the state
/// before an advance and the exchange record before it to the state and the
/// record after it, together with what the advance reports.
pub trait Suspendable: Sized {
    /// What the computation hands out when it finishes.
    type Output;

    /// Can one advance lead from `self` to `next`, taking the exchange record
    /// from `before` to `after` and reporting `outcome`?
    ///
    /// An implementation that does not say allows every advance, so that
    /// nothing is claimed of it.
    open spec fn advances(
        self,
        next: Self,
        before: Seq<Exchange>,
        after: Seq<Exchange>,
        outcome: Poll<Self::Output>,
    ) -> bool {
        true
    }

    /// Advances the computation once.
    fn poll<E: Environment>(&mut self, env: &mut Boundary<E>) -> (outcome: Poll<Self::Output>)
        ensures
            old(self).advances(*final(self), old(env)@, final(env)@, outcome),
    ;
}

/// Completes after being advanced a fixed number of times.
#[derive(Clone, Debug, PartialEq, Eq)]
pub struct Wait {
    threshold: u8,
    count: u8,
    done: bool,
}

impl Wait {
    /// The number of advances that only count.
    pub closed spec fn spec_threshold(&self) -> u8 {
        self.threshold
    }

    /// The number of advances counted so far.
    pub closed spec fn spec_count(&self) -> u8 {
        self.count
    }

    /// Has the wait reported that it finished?
    pub closed spec fn finished(&self) -> bool {
        self.done
    }

    /// The counter never passes the threshold, and a finished wait has reached it.
    pub open spec fn wf(self) -> bool {
        &&& self.count() <= self.threshold()
        &&& self.finished() ==> self.count() == self.threshold()
    }

    /// A wait that has not been advanced yet.
    pub open spec fn fresh(self, threshold: u8) -> bool {
        &&& self.threshold() == threshold
        &&& self.count() == 0
        &&& !self.finished()
    }

    /// One advance of a wait: it counts up to the threshold, reports that it
    /// finished on the advance after the last count, and from then on
    /// reports the same without changing.
    pub open spec fn ticks(self, next: Wait, outcome: Poll<()>) -> bool {
        if self.finished() {
            next == self && outcome is Ready
        } else if self.count() < self.threshold() {
            &&& next.threshold() == self.threshold()
            &&& next.count() == self.count() + 1
            &&& !next.finished()
            &&& outcome is Pending
        } else {
            &&& next.threshold() == self.threshold()
            &&& next.count() == self.count()
            &&& next.finished()
            &&& outcome is Ready
        }
    }

    /// A wait that needs `threshold` counting advances and one more to finish.
    pub fn new(threshold: u8) -> (wait: Wait)
        ensures
            wait.fresh(threshold),
            wait.wf(),
    {
        Wait { threshold, count: 0, done: false }
    }

    /// The number of advances that only count.
    #[verifier::when_used_as_spec(spec_threshold)]
    pub fn threshold(&self) -> (threshold: u8)
        ensures
            threshold == self.spec_threshold(),
    {
        self.threshold
    }

    /// The number of advances counted so far.
    #[verifier::when_used_as_spec(spec_count)]
    pub fn count(&self) -> (count: u8)
        ensures
            count == self.spec_count(),
    {
        self.count
    }

    /// Has the wait reported that it finished?
    pub fn is_finished(&self) -> (finished: bool)
        ensures
            finished == self.finished(),
    {
        self.done
    }
}

impl Suspendable for Wait {
    type Output = ();

    open spec fn advances(
        self,
        next: Wait,
        before: Seq<Exchange>,
        after: Seq<Exchange>,
        outcome: Poll<()>,
    ) -> bool {
        after == before && self.ticks(next, outcome)
    }

    fn poll<E: Environment>(&mut self, env: &mut Boundary<E>) -> (outcome: Poll<()>)
        ensures
            old(self).wf() ==> final(self).wf(),
    {
        if self.done {
            Poll::Ready(())
        } else if self.count < self.threshold {
            self.count = self.count + 1;
            Poll::Pending
        } else {
            self.done = true;
            Poll::Ready(())
        }
    }
}

/// A run of a wait: each state leads to the next by one advance, which gives
/// the report at the same place.
pub open spec fn wait_run(states: Seq<Wait>, reports: Seq<Poll<()>>) -> bool {
    &&& states.len() == reports.len() + 1
    &&& forall|i: int|
        0 <= i < reports.len() ==> states[i].ticks(states[i + 1], #[trigger] reports[i])
}

/// A wait that starts at zero with threshold `n` reports that it is still
/// running on each of its first `n` advances and that it has finished on
/// every later one. It counts once on each of the first `n` advances, so its
/// counter never passes the threshold; the advance after them marks it
/// finished, and no advance after that one changes it.
pub proof fn wait_finishes_on_advance_after_threshold(
    n: u8,
    states: Seq<Wait>,
    reports: Seq<Poll<()>>,
)
    requires
        wait_run(states, reports),
        states[0].fresh(n),
    ensures
        forall|i: int| 0 <= i < reports.len() ==> (#[trigger] reports[i] is Ready <==> i >= n),
        forall|i: int|
            0 <= i < states.len() ==> {
                &&& (#[trigger] states[i]).threshold() == n
                &&& states[i].count() == if i <= n { i } else { n as int }
                &&& states[i].finished() <==> i > n
                &&& states[i].wf()
            },
        forall|i: int| n < i < reports.len() ==> #[trigger] states[i + 1] == states[i],
    decreases reports.len(),
{
    if reports.len() > 0 {
        let last = reports.len() - 1;
        assert(wait_run(states.drop_last(), reports.drop_last())) by {
            assert forall|i: int| 0 <= i < reports.drop_last().len() implies states.drop_last()[i].ticks(
                states.drop_last()[i + 1],
                #[trigger] reports.drop_last()[i],
            ) by {
                assert(states[i].ticks(states[i + 1], reports[i]));
            }
        }
        wait_finishes_on_advance_after_threshold(n, states.drop_last(), reports.drop_last());
        assert(states[last].ticks(states[last + 1], reports[last]));
        assert(states.drop_last()[last] == states[last]);
        assert forall|i: int| 0 <= i < reports.len() implies (#[trigger] reports[i] is Ready <==> i
            >= n) by {
            if i < last {
                assert(reports.drop_last()[i] == reports[i]);
            }
        }
        assert forall|i: int| 0 <= i < states.len() implies {
            &&& (#[trigger] states[i]).threshold() == n
            &&& states[i].count() == if i <= n { i } else { n as int }
            &&& states[i].finished() <==> i > n
            &&& states[i].wf()
        } by {
            if i <= last {
                assert(states.drop_last()[i] == states[i]);
            }
        }
        assert forall|i: int| n < i < reports.len() implies #[trigger] states[i + 1] == states[i] by {
            if i < last {
                assert(states.drop_last()[i + 1] == states[i + 1]);
                assert(states.drop_last()[i] == states[i]);
            }
        }
    }
}

/// Completes on the first advance at which the host says that a message
/// has arrived. It keeps nothing between advances.
#[derive(Clone, Debug, PartialEq, Eq)]
pub struct MessageReceived();

impl Suspendable for MessageReceived {
    type Output = ();

    open spec fn advances(
        self,
        next: MessageReceived,
        before: Seq<Exchange>,
        after: Seq<Exchange>,
        outcome: Poll<()>,
    ) -> bool {
        next == self && after == before.push(Exchange::MessageReceived(outcome is Ready))
    }

    fn poll<E: Environment>(&mut self, env: &mut Boundary<E>) -> (outcome: Poll<()>) {
        if env.message_received() {
            Poll::Ready(())
        } else {
            Poll::Pending
        }
    }
}

/// Completes on the first advance at which the host says that the button
/// is pressed. It keeps nothing between advances.
#[derive(Clone, Debug, PartialEq, Eq)]
pub struct ButtonPressed();

impl Suspendable for ButtonPressed {
    type Output = ();

    open spec fn advances(
        self,
        next: ButtonPressed,
        before: Seq<Exchange>,
        after: Seq<Exchange>,
        outcome: Poll<()>,
    ) -> bool {
        next == self && after == before.push(Exchange::ButtonPressed(outcome is Ready))
    }

    fn poll<E: Environment>(&mut self, env: &mut Boundary<E>) -> (outcome: Poll<()>) {
        if env.button_pressed() {
            Poll::Ready(())
        } else {
            Poll::Pending
        }
    }
}

/// What a message probe reports is the answer that the host gave on that
/// advance, to the one question that the advance asked. The probe is the
/// same afterwards, and neither it nor the record so far bears on what a
/// later advance may report.
pub proof fn message_probe_reports_the_answer(
    probe: MessageReceived,
    next: MessageReceived,
    before: Seq<Exchange>,
    after: Seq<Exchange>,
    outcome: Poll<()>,
)
    requires
        probe.advances(next, before, after, outcome),
    ensures
        next == probe,
        after == before.push(Exchange::MessageReceived(outcome is Ready)),
        forall|other: MessageReceived, earlier: Seq<Exchange>, report: Poll<()>| #[trigger]
            other.advances(
                other,
                earlier,
                earlier.push(Exchange::MessageReceived(report is Ready)),
                report,
            ),
{
}

/// What a button probe reports is the answer that the host gave on that
/// advance, to the one question that the advance asked. The probe is the
/// same afterwards, and neither it nor the record so far bears on what a
/// later advance may report.
pub proof fn button_probe_reports_the_answer(
    probe: ButtonPressed,
    next: ButtonPressed,
    before: Seq<Exchange>,
    after: Seq<Exchange>,
    outcome: Poll<()>,
)
    requires
        probe.advances(next, before, after, outcome),
    ensures
        next == probe,
        after == before.push(Exchange::ButtonPressed(outcome is Ready)),
        forall|other: ButtonPressed, earlier: Seq<Exchange>, report: Poll<()>| #[trigger]
            other.advances(
                other,
                earlier,
                earlier.push(Exchange::ButtonPressed(report is Ready)),
                report,
            ),
{
}

/// Which of the two branches of a [`Select`] finished first.
#[derive(Clone, Copy, Debug, PartialEq, Eq)]
pub enum FirstSecond {
    First,
    Second,
}

/// Advances two computations together and completes as soon as one of them
/// does. The first is always consulted before the second, so the first wins
/// every tie and the second is then not advanced at all.
#[derive(Clone, Debug, PartialEq, Eq)]
pub struct Select<A, B> where A: Suspendable<Output = ()>, B: Suspendable<Output = ()> {
    a: A,
    b: B,
    done: bool,
}

impl<A, B> Select<A, B> where A: Suspendable<Output = ()>, B: Suspendable<Output = ()> {
    /// The branch that is consulted first.
    pub closed spec fn first(self) -> A {
        self.a
    }

    /// The branch that is consulted second.
    pub closed spec fn second(self) -> B {
        self.b
    }

    /// Has a winner been reported?
    pub closed spec fn decided(self) -> bool {
        self.done
    }

    /// Has a winner been reported?
    pub fn is_decided(&self) -> (decided: bool)
        ensures
            decided == self.decided(),
    {
        self.done
    }

    /// Takes the race apart into its two branches.
    pub fn into_parts(self) -> (parts: (A, B))
        ensures
            parts.0 == self.first(),
            parts.1 == self.second(),
    {
        (self.a, self.b)
    }

    /// Both branches are advanced in turn: the first does not finish and
    /// leaves the record at `between`, then the second reports `second`.
    pub open spec fn both_advance(
        self,
        next: Select<A, B>,
        before: Seq<Exchange>,
        between: Seq<Exchange>,
        after: Seq<Exchange>,
        second: Poll<()>,
    ) -> bool {
        &&& self.first().advances(next.first(), before, between, Poll::Pending)
        &&& self.second().advances(next.second(), between, after, second)
    }
}

impl<A, B> Suspendable for Select<A, B> where
    A: Suspendable<Output = ()>,
    B: Suspendable<Output = ()>,
 {
    type Output = Option<FirstSecond>;

    open spec fn advances(
        self,
        next: Select<A, B>,
        before: Seq<Exchange>,
        after: Seq<Exchange>,
        outcome: Poll<Option<FirstSecond>>,
    ) -> bool {
        match outcome {
            Poll::Ready(None) => self.decided() && next == self && after == before,
            Poll::Ready(Some(FirstSecond::First)) => {
                &&& !self.decided()
                &&& next.decided()
                &&& self.first().advances(next.first(), before, after, Poll::Ready(()))
                &&& next.second() == self.second()
            },
            Poll::Ready(Some(FirstSecond::Second)) => {
                &&& !self.decided()
                &&& next.decided()
                &&& exists|between: Seq<Exchange>| #[trigger]
                    self.both_advance(next, before, between, after, Poll::Ready(()))
            },
            Poll::Pending => {
                &&& !self.decided()
                &&& !next.decided()
                &&& exists|between: Seq<Exchange>| #[trigger]
                    self.both_advance(next, before, between, after, Poll::Pending)
            },
        }
    }

    fn poll<E: Environment>(&mut self, env: &mut Boundary<E>) -> (outcome: Poll<
        Option<FirstSecond>,
    >) {
        if self.done {
            return Poll::Ready(None);
        }
        let first = self.a.poll(env);
        proof {
            lemma_unit_outcome(first);
        }
        if let Poll::Ready(_) = first {
            self.done = true;
            return Poll::Ready(Some(FirstSecond::First));
        }
        let ghost between = env@;
        let second = self.b.poll(env);
        proof {
            lemma_unit_outcome(second);
        }
        if let Poll::Ready(_) = second {
            self.done = true;
            assert(old(self).both_advance(*self, old(env)@, between, env@, Poll::Ready(())));
            return Poll::Ready(Some(FirstSecond::Second));
        }
        assert(old(self).both_advance(*self, old(env)@, between, env@, Poll::Pending));
        Poll::Pending
    }
}

/// The first branch wins every tie. If the first branch of an undecided race
/// cannot stay pending on an advance, the race reports that the first won,
/// whatever the second would have done: only the first was advanced, and the
/// second is as it was.
pub proof fn select_first_wins_ties<A, B>(
    race: Select<A, B>,
    next: Select<A, B>,
    before: Seq<Exchange>,
    after: Seq<Exchange>,
    outcome: Poll<Option<FirstSecond>>,
) where A: Suspendable<Output = ()>, B: Suspendable<Output = ()>
    requires
        !race.decided(),
        race.advances(next, before, after, outcome),
        forall|first: A, record: Seq<Exchange>|
            !#[trigger] race.first().advances(first, before, record, Poll::Pending),
    ensures
        outcome == Poll::Ready(Some(FirstSecond::First)),
        race.first().advances(next.first(), before, after, Poll::Ready(())),
        next.second() == race.second(),
{
    if outcome is Pending {
        let between = choose|between: Seq<Exchange>| #[trigger]
            race.both_advance(next, before, between, after, Poll::Pending);
        assert(race.first().advances(next.first(), before, between, Poll::Pending));
    } else if outcome == Poll::Ready(Some(FirstSecond::Second)) {
        let between = choose|between: Seq<Exchange>| #[trigger]
            race.both_advance(next, before, between, after, Poll::Ready(()));
        assert(race.first().advances(next.first(), before, between, Poll::Pending));
    }
}

/// A race is decided once. After the advance that reports a winner, every
/// advance reports that the race had been decided: it advances neither
/// branch, makes no exchange with the host and leaves the race as it was.
pub proof fn select_decides_once<A, B>(
    race: Select<A, B>,
    decided: Select<A, B>,
    winner: FirstSecond,
    record: Seq<Exchange>,
    recorded: Seq<Exchange>,
    later: Select<A, B>,
    before: Seq<Exchange>,
    after: Seq<Exchange>,
    outcome: Poll<Option<FirstSecond>>,
) where A: Suspendable<Output = ()>, B: Suspendable<Output = ()>
    requires
        race.advances(decided, record, recorded, Poll::Ready(Some(winner))),
        decided.advances(later, before, after, outcome),
    ensures
        decided.decided(),
        outcome == Poll::<Option<FirstSecond>>::Ready(None),
        later == decided,
        after == before,
{
}

/// Races `a` against `b`: the result completes when either does, and says which.
pub fn select<A, B>(a: A, b: B) -> (race: Select<A, B>) where
    A: Suspendable<Output = ()>,
    B: Suspendable<Output = ()>,

    ensures
        race.first() == a,
        race.second() == b,
        !race.decided(),
{
    Select { a, b, done: false }
}

/// Advances two computations until both have finished. A computation that
/// has finished is not advanced again.
#[derive(Clone, Debug, PartialEq, Eq)]
pub struct Join<A, B> where A: Suspendable<Output = ()>, B: Suspendable<Output = ()> {
    a: A,
    b: B,
    donea: bool,
    doneb: bool,
}

impl<A, B> Join<A, B> where A: Suspendable<Output = ()>, B: Suspendable<Output = ()> {
    /// The computation that is advanced first.
    pub closed spec fn first(self) -> A {
        self.a
    }

    /// The computation that is advanced second.
    pub closed spec fn second(self) -> B {
        self.b
    }

    /// Has the first computation reported that it finished?
    pub closed spec fn first_done(self) -> bool {
        self.donea
    }

    /// Has the second computation reported that it finished?
    pub closed spec fn second_done(self) -> bool {
        self.doneb
    }

    /// Has the first computation reported that it finished?
    pub fn first_is_done(&self) -> (done: bool)
        ensures
            done == self.first_done(),
    {
        self.donea
    }

    /// Has the second computation reported that it finished?
    pub fn second_is_done(&self) -> (done: bool)
        ensures
            done == self.second_done(),
    {
        self.doneb
    }

    /// Takes the join apart into its two computations.
    pub fn into_parts(self) -> (parts: (A, B))
        ensures
            parts.0 == self.first(),
            parts.1 == self.second(),
    {
        (self.a, self.b)
    }

    /// The first half of an advance: the first computation is advanced unless
    /// it has finished before, and its flag is set if it finishes now.
    pub open spec fn first_advances(
        self,
        next: Join<A, B>,
        before: Seq<Exchange>,
        after: Seq<Exchange>,
    ) -> bool {
        if self.first_done() {
            next.first_done() && next.first() == self.first() && after == before
        } else {
            self.first().advances(
                next.first(),
                before,
                after,
                if next.first_done() {
                    Poll::Ready(())
                } else {
                    Poll::Pending
                },
            )
        }
    }

    /// The second half of an advance, of the same form as the first.
    pub open spec fn second_advances(
        self,
        next: Join<A, B>,
        before: Seq<Exchange>,
        after: Seq<Exchange>,
    ) -> bool {
        if self.second_done() {
            next.second_done() && next.second() == self.second() && after == before
        } else {
            self.second().advances(
                next.second(),
                before,
                after,
                if next.second_done() {
                    Poll::Ready(())
                } else {
                    Poll::Pending
                },
            )
        }
    }

    /// A whole advance: the first half up to the record `between`, then the
    /// second half.
    pub open spec fn advances_through(
        self,
        next: Join<A, B>,
        before: Seq<Exchange>,
        between: Seq<Exchange>,
        after: Seq<Exchange>,
    ) -> bool {
        self.first_advances(next, before, between) && self.second_advances(next, between, after)
    }
}

impl<A, B> Suspendable for Join<A, B> where
    A: Suspendable<Output = ()>,
    B: Suspendable<Output = ()>,
 {
    type Output = ();

    open spec fn advances(
        self,
        next: Join<A, B>,
        before: Seq<Exchange>,
        after: Seq<Exchange>,
        outcome: Poll<()>,
    ) -> bool {
        &&& exists|between: Seq<Exchange>| #[trigger]
            self.advances_through(next, before, between, after)
        &&& outcome is Ready <==> next.first_done() && next.second_done()
    }

    fn poll<E: Environment>(&mut self, env: &mut Boundary<E>) -> (outcome: Poll<()>) {
        if !self.donea {
            let first = self.a.poll(env);
            proof {
                lemma_unit_outcome(first);
            }
            if let Poll::Ready(_) = first {
                self.donea = true;
            }
        }
        let ghost between = env@;
        if !self.doneb {
            let second = self.b.poll(env);
            proof {
                lemma_unit_outcome(second);
            }
            if let Poll::Ready(_) = second {
                self.doneb = true;
            }
        }
        assert(old(self).advances_through(*self, old(env)@, between, env@));
        if self.donea && self.doneb {
            Poll::Ready(())
        } else {
            Poll::Pending
        }
    }
}

/// One advance of a join. It reports that it has finished exactly when
/// both flags are set after it. A flag that was set stays set, and the
/// computation under it is not advanced again. Once both are set, the advance
/// changes nothing and makes no exchange with the host.
pub proof fn join_finishes_when_both_have<A, B>(
    all: Join<A, B>,
    next: Join<A, B>,
    before: Seq<Exchange>,
    after: Seq<Exchange>,
    outcome: Poll<()>,
) where A: Suspendable<Output = ()>, B: Suspendable<Output = ()>
    requires
        all.advances(next, before, after, outcome),
    ensures
        outcome is Ready <==> next.first_done() && next.second_done(),
        all.first_done() ==> next.first_done() && next.first() == all.first(),
        all.second_done() ==> next.second_done() && next.second() == all.second(),
        all.first_done() ==> all.second_advances(next, before, after),
        all.second_done() ==> all.first_advances(next, before, after),
        all.first_done() && all.second_done() ==> next == all && after == before,
{
    let between = choose|between: Seq<Exchange>| #[trigger]
        all.advances_through(next, before, between, after);
    assert(all.advances_through(next, before, between, after));
}

/// A run of a join: each state leads to the next by one advance, which takes
/// the record from `befores` to `afters` and gives the report, all three at
/// the same place.
pub open spec fn join_run<A, B>(
    states: Seq<Join<A, B>>,
    befores: Seq<Seq<Exchange>>,
    afters: Seq<Seq<Exchange>>,
    reports: Seq<Poll<()>>,
) -> bool where A: Suspendable<Output = ()>, B: Suspendable<Output = ()> {
    &&& states.len() == reports.len() + 1
    &&& befores.len() == reports.len()
    &&& afters.len() == reports.len()
    &&& forall|i: int|
        0 <= i < reports.len() ==> states[i].advances(
            states[i + 1],
            befores[i],
            afters[i],
            #[trigger] reports[i],
        )
}

/// Is advance `k` of the run the one on which the first computation
/// reported that it finished?
pub open spec fn first_finishes_on<A, B>(states: Seq<Join<A, B>>, k: int) -> bool where
    A: Suspendable<Output = ()>,
    B: Suspendable<Output = ()>,
 {
    !states[k].first_done() && states[k + 1].first_done()
}

/// Is advance `k` of the run the one on which the second computation
/// reported that it finished?
pub open spec fn second_finishes_on<A, B>(states: Seq<Join<A, B>>, k: int) -> bool where
    A: Suspendable<Output = ()>,
    B: Suspendable<Output = ()>,
 {
    !states[k].second_done() && states[k + 1].second_done()
}

/// In a run of a join that starts with neither flag set, the flag of a
/// computation is set after `i` advances exactly if the computation reported
/// that it finished on one of them.
proof fn lemma_join_flags<A, B>(
    states: Seq<Join<A, B>>,
    befores: Seq<Seq<Exchange>>,
    afters: Seq<Seq<Exchange>>,
    reports: Seq<Poll<()>>,
    i: int,
) where A: Suspendable<Output = ()>, B: Suspendable<Output = ()>
    requires
        join_run(states, befores, afters, reports),
        !states[0].first_done(),
        !states[0].second_done(),
        0 <= i <= reports.len(),
    ensures
        states[i].first_done() <==> exists|k: int| 0 <= k < i && first_finishes_on(states, k),
        states[i].second_done() <==> exists|k: int| 0 <= k < i && second_finishes_on(states, k),
    decreases i,
{
    if i > 0 {
        lemma_join_flags(states, befores, afters, reports, i - 1);
        assert(states[i - 1].advances(states[i], befores[i - 1], afters[i - 1], reports[i - 1]));
        join_finishes_when_both_have(
            states[i - 1],
            states[i],
            befores[i - 1],
            afters[i - 1],
            reports[i - 1],
        );
        if states[i].first_done() {
            if states[i - 1].first_done() {
                let k = choose|k: int| 0 <= k < i - 1 && first_finishes_on(states, k);
                assert(0 <= k < i && first_finishes_on(states, k));
            } else {
                assert(first_finishes_on(states, i - 1));
            }
        }
        if states[i].second_done() {
            if states[i - 1].second_done() {
                let k = choose|k: int| 0 <= k < i - 1 && second_finishes_on(states, k);
                assert(0 <= k < i && second_finishes_on(states, k));
            } else {
                assert(second_finishes_on(states, i - 1));
            }
        }
    }
}

/// A join completes exactly on the advance by which each of its two
/// computations has reported, on that advance or an earlier one, that it
/// finished. A computation that has done so is never advanced again: it
/// stays as that advance left it.
pub proof fn join_completes_once_both_have_finished<A, B>(
    states: Seq<Join<A, B>>,
    befores: Seq<Seq<Exchange>>,
    afters: Seq<Seq<Exchange>>,
    reports: Seq<Poll<()>>,
) where A: Suspendable<Output = ()>, B: Suspendable<Output = ()>
    requires
        join_run(states, befores, afters, reports),
        !states[0].first_done(),
        !states[0].second_done(),
    ensures
        forall|i: int|
            0 <= i < reports.len() ==> (#[trigger] reports[i] is Ready <==> {
                &&& exists|k: int| 0 <= k <= i && first_finishes_on(states, k)
                &&& exists|k: int| 0 <= k <= i && second_finishes_on(states, k)
            }),
        forall|k: int, i: int|
            0 <= k < i < reports.len() && first_finishes_on(states, k) ==> (
            #[trigger] states[i + 1]).first() == (#[trigger] states[k + 1]).first(),
        forall|k: int, i: int|
            0 <= k < i < reports.len() && second_finishes_on(states, k) ==> (
            #[trigger] states[i + 1]).second() == (#[trigger] states[k + 1]).second(),
{
    assert forall|i: int| 0 <= i < reports.len() implies (#[trigger] reports[i] is Ready <==> {
        &&& exists|k: int| 0 <= k <= i && first_finishes_on(states, k)
        &&& exists|k: int| 0 <= k <= i && second_finishes_on(states, k)
    }) by {
        lemma_join_flags(states, befores, afters, reports, i + 1);
        join_finishes_when_both_have(states[i], states[i + 1], befores[i], afters[i], reports[i]);
        if states[i + 1].first_done() {
            let k = choose|k: int| 0 <= k < i + 1 && first_finishes_on(states, k);
            assert(0 <= k <= i && first_finishes_on(states, k));
        }
        if states[i + 1].second_done() {
            let k = choose|k: int| 0 <= k < i + 1 && second_finishes_on(states, k);
            assert(0 <= k <= i && second_finishes_on(states, k));
        }
    }
    assert forall|k: int, i: int|
        0 <= k < i < reports.len() && first_finishes_on(states, k) implies (
    #[trigger] states[i + 1]).first() == (#[trigger] states[k + 1]).first() by {
        lemma_join_keeps_finished(states, befores, afters, reports, k, i);
    }
    assert forall|k: int, i: int|
        0 <= k < i < reports.len() && second_finishes_on(states, k) implies (
    #[trigger] states[i + 1]).second() == (#[trigger] states[k + 1]).second() by {
        lemma_join_keeps_finished(states, befores, afters, reports, k, i);
    }
}

/// In a run of a join, a computation whose flag is set after advance `k` is
/// still flagged, and still as it was, after every later advance `i`.
proof fn lemma_join_keeps_finished<A, B>(
    states: Seq<Join<A, B>>,
    befores: Seq<Seq<Exchange>>,
    afters: Seq<Seq<Exchange>>,
    reports: Seq<Poll<()>>,
    k: int,
    i: int,
) where A: Suspendable<Output = ()>, B: Suspendable<Output = ()>
    requires
        join_run(states, befores, afters, reports),
        0 <= k <= i < reports.len(),
    ensures
        states[k + 1].first_done() ==> states[i + 1].first_done() && states[i + 1].first()
            == states[k + 1].first(),
        states[k + 1].second_done() ==> states[i + 1].second_done() && states[i + 1].second()
            == states[k + 1].second(),
    decreases i - k,
{
    if k < i {
        lemma_join_keeps_finished(states, befores, afters, reports, k, i - 1);
        assert(states[i].advances(states[i + 1], befores[i], afters[i], reports[i]));
        join_finishes_when_both_have(states[i], states[i + 1], befores[i], afters[i], reports[i]);
    }
}

/// Joins `a` and `b`: the result completes when both have.
pub fn join<A, B>(a: A, b: B) -> (all: Join<A, B>) where
    A: Suspendable<Output = ()>,
    B: Suspendable<Output = ()>,

    ensures
        all.first() == a,
        all.second() == b,
        !all.first_done(),
        !all.second_done(),
{
    Join { a, b, donea: false, doneb: false }
}

} // verus!
