use vstd::prelude::*;
use crate::channel::{recv_disconnected, recv_state, EventChannel, RecvResult};
use crate::event::IoErrorInfo;

verus! {

/// The state of one observed process as its owner sees it: the cached
/// process identifier, the child's captured input stream when there is one
/// (modelled as the bytes handed to it so far), and the receiving end of the
/// event channel its observers feed.
pub struct ProcessView {
    /// The operating-system process identifier, cached at construction.
    pub id: u32,
    /// The bytes written to the child's input stream so far, or `None` when
    /// the input stream was not captured.
    pub stdin: Option<Seq<u8>>,
    /// The event channel as the consumer observes it.
    pub channel: crate::channel::ChannelView,
}

/// The handle to one observed child process: it owns the receiving end of the
/// event channel exclusively, optionally the child's input stream, and an
/// immutable copy of the process identifier, taken before the underlying
/// child structure was handed to the background observers.
pub struct Process {
    id: u32,
    stdin: Option<Vec<u8>>,
    channel: EventChannel,
}

impl View for Process {
    type V = ProcessView;

    closed spec fn view(&self) -> ProcessView {
        ProcessView { id: self.id, stdin: self.stdin.deep_view(), channel: self.channel@ }
    }
}

impl Process {
    /// The handle for a freshly observed process: the cached identifier,
    /// an input stream that has seen no bytes yet (when captured at all), and
    /// an empty channel fed by the given number of producers — one per
    /// captured output stream plus one for the exit waiter.
    pub fn new(id: u32, capture_stdin: bool, producers: usize) -> (p: Process)
        ensures
            p@.id == id,
            p@.stdin == if capture_stdin {
                Some(Seq::<u8>::empty())
            } else {
                None::<Seq<u8>>
            },
            p@.channel.queue == Seq::<crate::event::EventView>::empty(),
            p@.channel.producers == producers,
    {
        Process {
            id,
            stdin: if capture_stdin {
                Some(Vec::new())
            } else {
                None
            },
            channel: EventChannel::new(producers),
        }
    }

    /// The operating-system process identifier cached at construction.
    pub fn id(&self) -> (r: u32)
        ensures
            r == self@.id,
    {
        self.id
    }

    /// Non-blocking receive on the event channel; everything else about the
    /// handle stays as it was.
    pub fn try_recv(&mut self) -> (r: RecvResult)
        ensures
            final(self)@.id == old(self)@.id,
            final(self)@.stdin == old(self)@.stdin,
            final(self)@.channel == recv_state(old(self)@.channel),
            match r {
                RecvResult::Received(e) => old(self)@.channel.queue.len() > 0 && e@ == old(
                    self,
                )@.channel.queue[0],
                RecvResult::Empty => old(self)@.channel.queue.len() == 0 && old(
                    self,
                )@.channel.producers > 0,
                RecvResult::Disconnected => recv_disconnected(old(self)@.channel),
            },
    {
        self.channel.try_recv()
    }

    /// Pass bytes through to the child's input stream.  When the input stream
    /// was never captured this fails with `NotConnected` and changes nothing;
    /// otherwise every byte is handed over, behind those written before.
    pub fn write(&mut self, buf: &[u8]) -> (r: Result<usize, IoErrorInfo>)
        ensures
            final(self)@.id == old(self)@.id,
            final(self)@.channel == old(self)@.channel,
            match old(self)@.stdin {
                None => r == Err::<usize, IoErrorInfo>(IoErrorInfo::NotConnected) && final(self)@.stdin
                    == old(self)@.stdin,
                Some(written) => r == Ok::<usize, IoErrorInfo>(buf@.len() as usize)
                    && final(self)@.stdin == Some(written + buf@),
            },
    {
        match self.stdin.as_mut() {
            Some(stdin) => {
                let ghost written = stdin@;
                let mut i: usize = 0;
                while i < buf.len()
                    invariant
                        i <= buf@.len(),
                        stdin@ == written + buf@.subrange(0, i as int),
                    decreases buf@.len() - i,
                {
                    stdin.push(buf[i]);
                    proof {
                        assert(stdin@ =~= written + buf@.subrange(0, i + 1 as int));
                    }
                    i = i + 1;
                }
                proof {
                    assert(buf@.subrange(0, buf@.len() as int) =~= buf@);
                }
                Ok(buf.len())
            },
            None => Err(IoErrorInfo::NotConnected),
        }
    }

    /// Flush the child's input stream: a pass-through with nothing to do in
    /// this handle, but like [`Process::write`] it fails with `NotConnected`
    /// when the input stream was never captured.
    pub fn flush(&mut self) -> (r: Result<(), IoErrorInfo>)
        ensures
            final(self)@ == old(self)@,
            r == if old(self)@.stdin is Some {
                Ok::<(), IoErrorInfo>(())
            } else {
                Err::<(), IoErrorInfo>(IoErrorInfo::NotConnected)
            },
    {
        match self.stdin.as_ref() {
            Some(_) => Ok(()),
            None => Err(IoErrorInfo::NotConnected),
        }
    }

    /// A producer delivers one event into the handle's channel.
    pub fn deliver(&mut self, event: crate::event::ProcessEvent)
        requires
            old(self)@.channel.producers > 0,
        ensures
            final(self)@.id == old(self)@.id,
            final(self)@.stdin == old(self)@.stdin,
            final(self)@.channel.queue == old(self)@.channel.queue.push(event@),
            final(self)@.channel.producers == old(self)@.channel.producers,
    {
        self.channel.send(event);
    }

    /// A producer finishes and drops its sending end of the handle's channel.
    pub fn producer_done(&mut self)
        requires
            old(self)@.channel.producers > 0,
        ensures
            final(self)@.id == old(self)@.id,
            final(self)@.stdin == old(self)@.stdin,
            final(self)@.channel.queue == old(self)@.channel.queue,
            final(self)@.channel.producers == old(self)@.channel.producers - 1,
    {
        self.channel.producer_done();
    }
}

} // verus!
