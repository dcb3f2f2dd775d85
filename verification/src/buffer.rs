//! The discovery buffer: a background task owns the driver and forwards its
//! changes to the consumer over a bounded channel.
//!
//! The task ([`Daemon`]) polls three things in order on every turn: the
//! disconnect signal, the channel's room, and the driver. When the channel is
//! full the driver is not advanced at all — that is the backpressure point,
//! stated in `poll_step`'s contract. The channel itself is the `queue` the
//! daemon owns; the ghost `sent`/`recvd` sequences carry the proof that the
//! consumer sees every change exactly once and in order.

use vstd::prelude::*;

use crate::discover;
use crate::discover::{poll_rel, Change, Event, Step};

verus! {

/// Wraps a driver builder with a channel capacity.
#[derive(Clone, Copy, Debug, PartialEq, Eq, Structural)]
pub struct Buffer {
    capacity: usize,
}

/// The consumer's handle: while it exists, the consumer is connected. Its
/// holder reads the channel through [`Daemon::recv`] and reports
/// `disconnected` to [`Daemon::poll_step`] once the handle is dropped.
#[derive(Clone, Copy, Debug, PartialEq, Eq, Structural)]
pub struct Discover {
    target: u64,
}

/// The buffer's pending work: a driver still being built for a target.
#[derive(Clone, Copy, Debug, PartialEq, Eq, Structural)]
pub struct DiscoverFuture {
    capacity: usize,
    target: u64,
}

/// What one turn of the background task did.
#[derive(Clone, Copy, Debug, PartialEq, Eq, Structural)]
pub enum DaemonStep {
    /// The consumer went away; the task exits cleanly.
    Exited,
    /// The channel is full; the driver was not advanced.
    Full,
    /// A change was placed in the channel.
    Sent(Change),
    /// The driver advanced without producing a change.
    Forwarded(Step),
    /// The driver failed or the name is gone; the task exits and the channel
    /// closes, which the consumer observes as end of stream.
    Ended,
}

/// The background task: the driver, the bounded channel, and the record of
/// everything sent and received.
pub struct Daemon {
    driver: discover::Discover,
    queue: Vec<Change>,
    capacity: usize,
    sent: Ghost<Seq<Change>>,
    recvd: Ghost<Seq<Change>>,
}

impl Buffer {
    pub closed spec fn capacity_of(&self) -> usize {
        self.capacity
    }

    /// A buffer delivering through a channel of the given capacity.
    pub fn new(capacity: usize) -> (r: Buffer)
        ensures
            r.capacity_of() == capacity,
    {
        Buffer { capacity }
    }

    /// Begins discovery for a target; the driver is built asynchronously by
    /// the caller and handed to [`DiscoverFuture::poll`].
    pub fn call(&self, target: u64) -> (r: DiscoverFuture)
        ensures
            r.capacity_of() == self.capacity_of(),
            r.target_tok() == target,
    {
        DiscoverFuture { capacity: self.capacity, target }
    }
}

impl DiscoverFuture {
    pub closed spec fn capacity_of(&self) -> usize {
        self.capacity
    }

    pub closed spec fn target_tok(&self) -> u64 {
        self.target
    }

    /// Completes once the driver is built: spawns the background task (the
    /// returned daemon, to be driven by the caller) and hands the consumer
    /// its handle. The channel starts empty.
    pub fn poll(self, driver: discover::Discover) -> (r: (Daemon, Discover))
        requires
            driver.wf(),
        ensures
            r.0.wf(),
            r.0.capacity_of() == self.capacity_of(),
            r.0.driver_at() == driver,
            r.0.queue_seq() == Seq::<Change>::empty(),
            r.0.sent_seq() == Seq::<Change>::empty(),
            r.0.recvd_seq() == Seq::<Change>::empty(),
            r.1.target_tok() == self.target_tok(),
    {
        let daemon = Daemon {
            driver,
            queue: Vec::new(),
            capacity: self.capacity,
            sent: Ghost(Seq::empty()),
            recvd: Ghost(Seq::empty()),
        };
        (daemon, Discover { target: self.target })
    }
}

impl Discover {
    pub closed spec fn target_tok(&self) -> u64 {
        self.target
    }
}

impl Daemon {
    pub closed spec fn driver_at(&self) -> discover::Discover {
        self.driver
    }

    pub closed spec fn queue_seq(&self) -> Seq<Change> {
        self.queue@
    }

    pub closed spec fn capacity_of(&self) -> usize {
        self.capacity
    }

    /// Every change the driver has delivered into the channel, in order.
    pub closed spec fn sent_seq(&self) -> Seq<Change> {
        self.sent@
    }

    /// Every change the consumer has taken out, in order.
    pub closed spec fn recvd_seq(&self) -> Seq<Change> {
        self.recvd@
    }

    pub open spec fn wf(&self) -> bool {
        &&& self.driver_at().wf()
        &&& self.sent_seq() == self.recvd_seq() + self.queue_seq()
        &&& self.queue_seq().len() <= self.capacity_of()
    }

    /// How many changes sit in the channel.
    pub fn queued_len(&self) -> (r: usize)
        ensures
            r == self.queue_seq().len(),
    {
        self.queue.len()
    }

    /// One turn of the background task. The disconnect signal is checked
    /// first, then the channel's room — while the channel is full, the
    /// driver is not advanced and the whole state is untouched — and only
    /// then the driver, whose emitted change (if any) is placed in the
    /// channel.
    pub fn poll_step(&mut self, disconnected: bool, e: Event) -> (r: DaemonStep)
        requires
            old(self).wf(),
            !disconnected && old(self).queue_seq().len() < old(self).capacity_of()
                ==> old(self).driver_at().expects(e),
        ensures
            final(self).wf(),
            final(self).capacity_of() == old(self).capacity_of(),
            final(self).recvd_seq() == old(self).recvd_seq(),
            disconnected ==> *final(self) == *old(self) && r == DaemonStep::Exited,
            !disconnected && old(self).queue_seq().len() >= old(self).capacity_of()
                ==> *final(self) == *old(self) && r == DaemonStep::Full,
            !disconnected && old(self).queue_seq().len() < old(self).capacity_of() ==> match r {
                DaemonStep::Sent(c) => poll_rel(
                    old(self).driver_at(),
                    e,
                    final(self).driver_at(),
                    Step::Emit(c),
                ) && final(self).queue_seq() == old(self).queue_seq().push(c)
                    && final(self).sent_seq() == old(self).sent_seq().push(c),
                DaemonStep::Forwarded(st) => poll_rel(
                    old(self).driver_at(),
                    e,
                    final(self).driver_at(),
                    st,
                ) && !(st is Emit) && !(st is Fail) && !(st is Gone) && final(self).queue_seq()
                    == old(self).queue_seq() && final(self).sent_seq() == old(self).sent_seq(),
                DaemonStep::Ended => (poll_rel(
                    old(self).driver_at(),
                    e,
                    final(self).driver_at(),
                    Step::Fail,
                ) || exists|b: bool|
                    poll_rel(old(self).driver_at(), e, final(self).driver_at(), Step::Gone(b)))
                    && final(self).queue_seq() == old(self).queue_seq() && final(self).sent_seq()
                    == old(self).sent_seq(),
                _ => false,
            },
    {
        if disconnected {
            return DaemonStep::Exited;
        }
        if self.queue.len() >= self.capacity {
            return DaemonStep::Full;
        }
        let step = self.driver.poll(e);
        match step {
            Step::Emit(c) => {
                self.queue.push(c);
                proof {
                    self.sent@ = self.sent@.push(c);
                    assert(self.sent@ =~= self.recvd@ + self.queue@);
                }
                DaemonStep::Sent(c)
            },
            Step::Fail => DaemonStep::Ended,
            Step::Gone(b) => {
                proof {
                    assert(poll_rel(
                        old(self).driver_at(),
                        e,
                        self.driver_at(),
                        Step::Gone(b),
                    ));
                }
                DaemonStep::Ended
            },
            Step::Await(n) => DaemonStep::Forwarded(Step::Await(n)),
            Step::Idle => DaemonStep::Forwarded(Step::Idle),
        }
    }

    /// The consumer takes the next change out of the channel.
    pub fn recv(&mut self) -> (r: Option<Change>)
        requires
            old(self).wf(),
        ensures
            final(self).wf(),
            final(self).capacity_of() == old(self).capacity_of(),
            final(self).driver_at() == old(self).driver_at(),
            final(self).sent_seq() == old(self).sent_seq(),
            old(self).queue_seq().len() == 0 ==> r is None && *final(self) == *old(self),
            old(self).queue_seq().len() > 0 ==> r == Some(old(self).queue_seq()[0])
                && final(self).queue_seq() == old(self).queue_seq().skip(1)
                && final(self).recvd_seq() == old(self).recvd_seq().push(old(self).queue_seq()[0]),
    {
        if self.queue.len() == 0 {
            None
        } else {
            let c = self.queue.remove(0);
            proof {
                self.recvd@ = self.recvd@.push(c);
                assert(self.queue@ =~= old(self).queue@.skip(1));
                assert(self.sent@ =~= self.recvd@ + self.queue@);
            }
            Some(c)
        }
    }
}

/// The channel loses nothing and keeps order: what the consumer has received
/// is exactly the first part of what the task has sent, and what still sits
/// in the channel is exactly the rest.
pub proof fn lemma_channel_order(d: Daemon)
    requires
        d.wf(),
    ensures
        d.recvd_seq() == d.sent_seq().take(d.recvd_seq().len() as int),
        d.queue_seq() == d.sent_seq().skip(d.recvd_seq().len() as int),
        d.recvd_seq().len() + d.queue_seq().len() == d.sent_seq().len(),
{
    assert(d.recvd_seq() =~= d.sent_seq().take(d.recvd_seq().len() as int));
    assert(d.queue_seq() =~= d.sent_seq().skip(d.recvd_seq().len() as int));
}

} // verus!
