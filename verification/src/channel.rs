use vstd::prelude::*;
use crate::event::{EventView, ProcessEvent};

verus! {

/// The event queue of one process as the consumer observes it: the events
/// sent but not yet received, oldest first, and how many producers (stream
/// readers and the exit waiter) still hold a sending end.
pub struct ChannelView {
    /// The events sent but not yet received, oldest first.
    pub queue: Seq<EventView>,
    /// How many producers still hold a sending end.
    pub producers: nat,
}

/// The channel every background observer of one process feeds and whose
/// receiving end the process handle owns.  Receiving never blocks: it yields
/// the oldest queued event, reports that nothing is queued yet, or reports
/// that every producer has finished and nothing will ever arrive again.
pub struct EventChannel {
    queue: Vec<ProcessEvent>,
    producers: usize,
}

/// What one non-blocking receive reports.
#[derive(Debug, Clone, PartialEq, Eq)]
pub enum RecvResult {
    /// The oldest queued event.
    Received(ProcessEvent),
    /// Nothing is queued right now, but a producer may still send.
    Empty,
    /// Nothing is queued and every producer has finished: nothing will ever
    /// arrive again.
    Disconnected,
}

/// The channel state after one non-blocking receive.
pub open spec fn recv_state(c: ChannelView) -> ChannelView {
    if c.queue.len() > 0 {
        ChannelView { queue: c.queue.drop_first(), producers: c.producers }
    } else {
        c
    }
}

/// True when a non-blocking receive on this state reports that the channel is
/// disconnected: nothing queued and no producer left.
pub open spec fn recv_disconnected(c: ChannelView) -> bool {
    c.queue.len() == 0 && c.producers == 0
}

impl View for EventChannel {
    type V = ChannelView;

    closed spec fn view(&self) -> ChannelView {
        ChannelView { queue: self.queue.deep_view(), producers: self.producers as nat }
    }
}

impl EventChannel {
    /// A fresh channel for one process, fed by the given number of producers
    /// and with nothing queued yet.
    pub fn new(producers: usize) -> (c: Self)
        ensures
            c@.queue == Seq::<EventView>::empty(),
            c@.producers == producers,
    {
        EventChannel { queue: Vec::new(), producers }
    }

    /// A producer sends one event: it joins the queue behind every event sent
    /// before it.  Only a live producer can send.
    pub fn send(&mut self, event: ProcessEvent)
        requires
            old(self)@.producers > 0,
        ensures
            final(self)@.queue == old(self)@.queue.push(event@),
            final(self)@.producers == old(self)@.producers,
    {
        self.queue.push(event);
        proof {
            assert(self@.queue =~= old(self)@.queue.push(event@));
        }
    }

    /// A producer finishes and drops its sending end.  What it already sent
    /// stays queued.
    pub fn producer_done(&mut self)
        requires
            old(self)@.producers > 0,
        ensures
            final(self)@.queue == old(self)@.queue,
            final(self)@.producers == old(self)@.producers - 1,
    {
        self.producers = self.producers - 1;
    }

    /// Non-blocking receive: the oldest queued event when there is one;
    /// `Empty` when nothing is queued but a producer survives; `Disconnected`
    /// when nothing is queued and every producer has finished.
    pub fn try_recv(&mut self) -> (r: RecvResult)
        ensures
            final(self)@ == recv_state(old(self)@),
            match r {
                RecvResult::Received(e) => old(self)@.queue.len() > 0 && e@ == old(
                    self,
                )@.queue[0],
                RecvResult::Empty => old(self)@.queue.len() == 0 && old(self)@.producers > 0,
                RecvResult::Disconnected => recv_disconnected(old(self)@),
            },
    {
        if self.queue.len() > 0 {
            let e = self.queue.remove(0);
            proof {
                assert(self@.queue =~= old(self)@.queue.drop_first());
            }
            RecvResult::Received(e)
        } else if self.producers > 0 {
            RecvResult::Empty
        } else {
            RecvResult::Disconnected
        }
    }
}

/// Disconnection is lasting: once a receive reports `Disconnected`, the
/// channel is unchanged, no producer remains that could ever send or finish
/// again, and every later receive reports `Disconnected` as well.
pub proof fn lemma_disconnected_is_lasting(c: ChannelView)
    requires
        recv_disconnected(c),
    ensures
        recv_state(c) == c,
        recv_disconnected(recv_state(c)),
        c.producers == 0,
{
}

} // verus!
