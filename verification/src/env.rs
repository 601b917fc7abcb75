use vstd::prelude::*;

verus! {

/// One exchange between the engine and its host.
#[derive(Clone, Copy, Debug, PartialEq, Eq, Structural)]
pub enum Exchange {
    /// The host was asked whether the button is pressed and gave this answer.
    ButtonPressed(bool),
    /// The host was asked whether a message has arrived and gave this answer.
    MessageReceived(bool),
    /// The host was told that mail has arrived.
    MailArrived,
}

/// The capabilities that the host provides to the engine.
///
/// The two questions are expected to be cheap reads that answer `false` when
/// the host cannot tell. Nothing is taken for granted of the answers.
pub trait Environment {
    /// Is the button pressed right now?
    fn button_pressed(&mut self) -> bool;

    /// Has a message arrived?
    fn message_received(&mut self) -> bool;

    /// Fire-and-forget notice that mail has arrived.
    fn notify_mail_arrived(&mut self);
}

/// A host environment together with the record of every exchange made
/// through it. The record is ghost: it costs nothing at run time.
pub struct Boundary<E: Environment> {
    host: E,
    log: Ghost<Seq<Exchange>>,
}

impl<E: Environment> View for Boundary<E> {
    type V = Seq<Exchange>;

    closed spec fn view(&self) -> Seq<Exchange> {
        self.log@
    }
}

impl<E: Environment> Boundary<E> {
    /// The host behind this boundary.
    pub closed spec fn spec_host(&self) -> &E {
        &self.host
    }

    /// Wraps a host; nothing has been exchanged yet.
    pub fn new(host: E) -> (boundary: Self)
        ensures
            boundary@ == Seq::<Exchange>::empty(),
            *boundary.host() == host,
    {
        Boundary { host, log: Ghost(Seq::empty()) }
    }

    /// Asks the host once whether the button is pressed.
    pub fn button_pressed(&mut self) -> (answer: bool)
        ensures
            final(self)@ == old(self)@.push(Exchange::ButtonPressed(answer)),
    {
        let answer = self.host.button_pressed();
        proof {
            self.log@ = self.log@.push(Exchange::ButtonPressed(answer));
        }
        answer
    }

    /// Asks the host once whether a message has arrived.
    pub fn message_received(&mut self) -> (answer: bool)
        ensures
            final(self)@ == old(self)@.push(Exchange::MessageReceived(answer)),
    {
        let answer = self.host.message_received();
        proof {
            self.log@ = self.log@.push(Exchange::MessageReceived(answer));
        }
        answer
    }

    /// Tells the host once that mail has arrived.
    pub fn notify_mail_arrived(&mut self)
        ensures
            final(self)@ == old(self)@.push(Exchange::MailArrived),
    {
        self.host.notify_mail_arrived();
        proof {
            self.log@ = self.log@.push(Exchange::MailArrived);
        }
    }

    /// The host behind this boundary.
    #[verifier::when_used_as_spec(spec_host)]
    pub fn host(&self) -> (host: &E)
        ensures
            host == self.spec_host(),
    {
        &self.host
    }

    /// Gives the host back.
    pub fn into_host(self) -> (host: E)
        ensures
            host == *self.host(),
    {
        self.host
    }
}

} // verus!
