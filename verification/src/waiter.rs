use vstd::prelude::*;
use vstd::utf8::{decode_utf8, valid_utf8};
use crate::codec::{chunk_plan, decode_chunk, lemma_decode_utf8_concat};
use crate::event::{is_terminal, EventView, ExitInfo, IoErrorInfo, ProcessEvent, StdioChannel};
use crate::reader::{
    chunk_bytes, data_text, lemma_data_text_concat, lemma_reader_preserves_data, reader_trace,
    ReadView,
};

verus! {

/// What the blocking wait for the child's termination produced, as the host
/// layer hands it to the exit-waiter logic.
#[derive(Debug, Clone, PartialEq, Eq)]
pub enum WaitOutcome {
    /// The wait itself failed.
    Failed(IoErrorInfo),
    /// The process terminated with the given status; the wait also collected
    /// whatever trailing output was still buffered on each stream.
    Finished(ExitInfo, Vec<u8>, Vec<u8>),
}

/// The mathematical value of a [`WaitOutcome`].
pub enum WaitView {
    /// The wait itself failed.
    Failed(IoErrorInfo),
    /// The process terminated; the status, the trailing standard output and
    /// the trailing standard error.
    Finished(ExitInfo, Seq<u8>, Seq<u8>),
}

impl View for WaitOutcome {
    type V = WaitView;

    open spec fn view(&self) -> WaitView {
        match self {
            WaitOutcome::Failed(e) => WaitView::Failed(*e),
            WaitOutcome::Finished(status, out, err) => WaitView::Finished(*status, out@, err@),
        }
    }
}

/// The events one trailing buffer gives rise to, and whether the waiter goes
/// on afterwards.  An absent (empty) buffer is skipped; a non-empty one is
/// decoded and forwarded like any stream chunk, and refusing it as text ends
/// the waiter before any exit event.
pub open spec fn buffer_events(bytes: Seq<u8>, channel: StdioChannel) -> (Seq<EventView>, bool) {
    if bytes.len() == 0 {
        (seq![], true)
    } else {
        let plan = chunk_plan(bytes, channel);
        (
            match plan.0 {
                Some(e) => seq![e],
                None => seq![],
            },
            plan.1,
        )
    }
}

/// All events the exit waiter emits: a single failure report when the wait
/// itself failed; otherwise the trailing output of each stream, standard
/// output first, followed by exactly one exit event — unless a trailing
/// buffer is refused as text, which ends the waiter with that report and no
/// exit event.
pub open spec fn waiter_trace(o: WaitView) -> Seq<EventView> {
    match o {
        WaitView::Failed(e) => seq![EventView::CommandError(e)],
        WaitView::Finished(status, out, err) => {
            let stdout_part = buffer_events(out, StdioChannel::Stdout);
            if !stdout_part.1 {
                stdout_part.0
            } else {
                let stderr_part = buffer_events(err, StdioChannel::Stderr);
                if !stderr_part.1 {
                    stdout_part.0 + stderr_part.0
                } else {
                    stdout_part.0 + stderr_part.0 + seq![EventView::Exit(status)]
                }
            }
        },
    }
}

/// Compute the events the exit waiter forwards once the blocking wait has
/// returned, following [`waiter_trace`].  The host layer sends them in order
/// and stops early only if a send fails.
pub fn wait_plan(outcome: WaitOutcome) -> (r: Vec<ProcessEvent>)
    ensures
        r.deep_view() == waiter_trace(outcome@),
{
    let ghost trace = waiter_trace(outcome@);
    let mut events: Vec<ProcessEvent> = Vec::new();
    match outcome {
        WaitOutcome::Failed(e) => {
            events.push(ProcessEvent::CommandError(e));
            assert(events.deep_view() =~= trace);
        },
        WaitOutcome::Finished(status, out_buf, err_buf) => {
            if out_buf.len() > 0 {
                let (ev, go_on) = decode_chunk(out_buf.as_slice(), StdioChannel::Stdout);
                if let Some(e) = ev {
                    events.push(e);
                }
                if !go_on {
                    assert(events.deep_view() =~= trace);
                    return events;
                }
            }
            if err_buf.len() > 0 {
                let (ev, go_on) = decode_chunk(err_buf.as_slice(), StdioChannel::Stderr);
                if let Some(e) = ev {
                    events.push(e);
                }
                if !go_on {
                    assert(events.deep_view() =~= trace);
                    return events;
                }
            }
            events.push(ProcessEvent::Exit(status));
            assert(events.deep_view() =~= trace);
        },
    }
    events
}

/// A process whose streams left no trailing output yields exactly one event
/// from the exit waiter, and that event is terminal: the exit status when the
/// wait succeeded, the wait's own failure otherwise.
pub proof fn lemma_waiter_single_terminal(o: WaitView)
    requires
        match o {
            WaitView::Failed(_) => true,
            WaitView::Finished(_, out, err) => out.len() == 0 && err.len() == 0,
        },
    ensures
        waiter_trace(o).len() == 1,
        is_terminal(waiter_trace(o)[0]),
        (o matches WaitView::Finished(status, out, err) ==> waiter_trace(o)[0]
            == EventView::Exit(status)),
        (o matches WaitView::Failed(e) ==> waiter_trace(o)[0] == EventView::CommandError(e)),
{
}

/// Every byte of one stream appears exactly once, in order: over a run whose
/// reads each produced a non-empty chunk of valid text and whose wait
/// collected a valid trailing buffer for the same stream, the texts of the
/// reader's data events followed by the waiter's trailing forward for that
/// stream decode precisely the concatenation of everything the stream
/// produced — nothing dropped, nothing repeated, nothing reordered.
pub proof fn lemma_stream_data_exactly_once(
    reads: Seq<ReadView>,
    trailing: Seq<u8>,
    channel: StdioChannel,
)
    requires
        forall|i: int| 0 <= i < reads.len() ==> ((#[trigger] reads[i]) matches ReadView::Chunk(b)
            && valid_utf8(b) && b.len() > 0),
        valid_utf8(trailing),
    ensures
        valid_utf8(chunk_bytes(reads) + trailing),
        data_text(reader_trace(reads, channel) + buffer_events(trailing, channel).0)
            == decode_utf8(chunk_bytes(reads) + trailing),
{
    lemma_reader_preserves_data(reads, channel);
    lemma_decode_utf8_concat(chunk_bytes(reads), trailing);
    lemma_data_text_concat(reader_trace(reads, channel), buffer_events(trailing, channel).0);
    let tail_events = buffer_events(trailing, channel).0;
    if trailing.len() == 0 {
        assert(chunk_bytes(reads) + trailing =~= chunk_bytes(reads));
        assert(data_text(tail_events) =~= Seq::<char>::empty());
        assert(data_text(reader_trace(reads, channel)) + data_text(tail_events)
            =~= data_text(reader_trace(reads, channel)));
    } else {
        assert(tail_events =~= seq![EventView::Data(channel, decode_utf8(trailing))]);
        assert(tail_events.len() == 1);
        assert(tail_events[0] == EventView::Data(channel, decode_utf8(trailing)));
        assert(tail_events.drop_first() =~= Seq::<EventView>::empty());
        assert(data_text(Seq::<EventView>::empty()) =~= Seq::<char>::empty());
        assert(decode_utf8(trailing) + Seq::<char>::empty() =~= decode_utf8(trailing));
        assert(data_text(tail_events) =~= decode_utf8(trailing));
    }
}

/// The exit waiter emits a terminal event only as its very last event, and
/// it always emits at least one event.
pub proof fn lemma_waiter_terminal_is_last(o: WaitView)
    ensures
        waiter_trace(o).len() >= 1,
        forall|i: int| 0 <= i < waiter_trace(o).len() - 1 ==> !is_terminal(
            #[trigger] waiter_trace(o)[i],
        ),
{
}

} // verus!
