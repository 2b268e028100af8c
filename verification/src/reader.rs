use vstd::prelude::*;
use vstd::utf8::{decode_utf8, valid_utf8};
use crate::codec::{chunk_plan, decode_chunk, lemma_decode_utf8_concat};
use crate::event::{event_tag, EventView, IoErrorInfo, ProcessEvent, StdioChannel};

verus! {

/// What one blocking read on a captured stream produced, as the host layer
/// hands it to the reader logic.
#[derive(Debug, Clone, PartialEq, Eq)]
pub enum ReadOutcome {
    /// The read returned zero bytes: the stream has closed cleanly.
    Closed,
    /// The read produced this chunk of bytes.
    Chunk(Vec<u8>),
    /// The read itself failed.
    Failed(IoErrorInfo),
}

/// The mathematical value of a [`ReadOutcome`].
pub enum ReadView {
    /// The stream has closed cleanly.
    Closed,
    /// The read produced this chunk of bytes.
    Chunk(Seq<u8>),
    /// The read itself failed.
    Failed(IoErrorInfo),
}

impl View for ReadOutcome {
    type V = ReadView;

    open spec fn view(&self) -> ReadView {
        match self {
            ReadOutcome::Closed => ReadView::Closed,
            ReadOutcome::Chunk(b) => ReadView::Chunk(b@),
            ReadOutcome::Failed(e) => ReadView::Failed(*e),
        }
    }
}

/// What a stream reader does after one read: stop silently, forward one last
/// event, or forward an event and read again.  Forwarding that fails because
/// the consumer is gone also stops the reader, whatever the action says.
#[derive(Debug, Clone, PartialEq, Eq)]
pub enum ReaderAction {
    /// Stop without forwarding anything.
    Stop,
    /// Forward this event, then stop.
    EmitThenStop(ProcessEvent),
    /// Forward this event, then keep reading.
    EmitThenContinue(ProcessEvent),
}

/// The events a [`ReaderAction`] forwards.
pub open spec fn action_events(a: ReaderAction) -> Seq<EventView> {
    match a {
        ReaderAction::Stop => seq![],
        ReaderAction::EmitThenStop(e) => seq![e@],
        ReaderAction::EmitThenContinue(e) => seq![e@],
    }
}

/// The events the reader forwards for one read outcome: nothing on a clean
/// close, the chunk's event (if any) for a chunk, and an I/O error report on
/// a failed read.
pub open spec fn reader_emits(o: ReadView, channel: StdioChannel) -> Seq<EventView> {
    match o {
        ReadView::Closed => seq![],
        ReadView::Chunk(b) => match chunk_plan(b, channel).0 {
            Some(e) => seq![e],
            None => seq![],
        },
        ReadView::Failed(e) => seq![EventView::IoError(channel, e)],
    }
}

/// Whether the reader reads again after this outcome: only after a non-empty
/// chunk of valid text.
pub open spec fn reader_continues(o: ReadView, channel: StdioChannel) -> bool {
    match o {
        ReadView::Chunk(b) => chunk_plan(b, channel).1,
        _ => false,
    }
}

/// Decide what a stream reader does with the outcome of one blocking read.
/// The host layer calls this in a loop, forwards the returned event, and
/// stops when told to (or when forwarding fails).
pub fn reader_step(outcome: ReadOutcome, channel: StdioChannel) -> (r: ReaderAction)
    ensures
        action_events(r) == reader_emits(outcome@, channel),
        (r is EmitThenContinue) == reader_continues(outcome@, channel),
{
    match outcome {
        ReadOutcome::Closed => ReaderAction::Stop,
        ReadOutcome::Chunk(b) => {
            let (ev, go_on) = decode_chunk(b.as_slice(), channel);
            match ev {
                Some(e) => {
                    if go_on {
                        ReaderAction::EmitThenContinue(e)
                    } else {
                        ReaderAction::EmitThenStop(e)
                    }
                },
                None => ReaderAction::Stop,
            }
        },
        ReadOutcome::Failed(e) => ReaderAction::EmitThenStop(ProcessEvent::IoError(channel, e)),
    }
}

/// All events one reader emits over a whole run, the reads taken in the order
/// the stream produced them, cut short at the first outcome after which the
/// reader stops.
pub open spec fn reader_trace(reads: Seq<ReadView>, channel: StdioChannel) -> Seq<EventView>
    decreases reads.len(),
{
    if reads.len() == 0 {
        seq![]
    } else if reader_continues(reads[0], channel) {
        reader_emits(reads[0], channel) + reader_trace(reads.drop_first(), channel)
    } else {
        reader_emits(reads[0], channel)
    }
}

/// Every event a stream reader ever emits is tagged with that reader's own
/// stream.
pub proof fn lemma_reader_trace_tagged(reads: Seq<ReadView>, channel: StdioChannel)
    ensures
        forall|i: int| 0 <= i < reader_trace(reads, channel).len() ==> event_tag(
            #[trigger] reader_trace(reads, channel)[i],
        ) == Some(channel),
    decreases reads.len(),
{
    if reads.len() != 0 {
        lemma_reader_trace_tagged(reads.drop_first(), channel);
    }
}

/// The bytes a run of reads produced, in stream order.
pub open spec fn chunk_bytes(reads: Seq<ReadView>) -> Seq<u8>
    decreases reads.len(),
{
    if reads.len() == 0 {
        seq![]
    } else {
        (match reads[0] {
            ReadView::Chunk(b) => b,
            _ => seq![],
        }) + chunk_bytes(reads.drop_first())
    }
}

/// The text carried by the data events of a trace, concatenated in order.
pub open spec fn data_text(events: Seq<EventView>) -> Seq<char>
    decreases events.len(),
{
    if events.len() == 0 {
        seq![]
    } else {
        (match events[0] {
            EventView::Data(_, s) => s,
            _ => seq![],
        }) + data_text(events.drop_first())
    }
}

/// The text of a trace is collected piecewise: splitting a trace anywhere
/// splits its concatenated text at the matching point.
pub proof fn lemma_data_text_concat(a: Seq<EventView>, b: Seq<EventView>)
    ensures
        data_text(a + b) == data_text(a) + data_text(b),
    decreases a.len(),
{
    if a.len() == 0 {
        assert(a + b =~= b);
        assert(data_text(a) + data_text(b) =~= data_text(b));
    } else {
        assert((a + b).drop_first() =~= a.drop_first() + b);
        lemma_data_text_concat(a.drop_first(), b);
        assert((a + b)[0] == a[0]);
        assert(data_text(a + b) =~= data_text(a) + data_text(b));
    }
}

/// A reader neither loses, duplicates nor reorders data: over a run of reads
/// that each produce a non-empty chunk of valid text, it emits one data event
/// per chunk, in stream order, and the concatenation of their texts is
/// exactly the decoding of the concatenation of the chunks.
pub proof fn lemma_reader_preserves_data(reads: Seq<ReadView>, channel: StdioChannel)
    requires
        forall|i: int| 0 <= i < reads.len() ==> ((#[trigger] reads[i]) matches ReadView::Chunk(b)
            && valid_utf8(b) && b.len() > 0),
    ensures
        valid_utf8(chunk_bytes(reads)),
        reader_trace(reads, channel).len() == reads.len(),
        forall|i: int| 0 <= i < reads.len() ==> (#[trigger] reader_trace(reads, channel)[i])
            is Data,
        data_text(reader_trace(reads, channel)) == decode_utf8(chunk_bytes(reads)),
    decreases reads.len(),
{
    let trace = reader_trace(reads, channel);
    if reads.len() == 0 {
        assert(valid_utf8(chunk_bytes(reads)));
        assert(decode_utf8(chunk_bytes(reads)) =~= data_text(trace));
    } else {
        let b = reads[0]->Chunk_0;
        let rest = reads.drop_first();
        assert(forall|i: int| 0 <= i < rest.len() ==> rest[i] == reads[i + 1]);
        lemma_reader_preserves_data(rest, channel);
        assert(chunk_plan(b, channel).0 == Some(EventView::Data(channel, decode_utf8(b))));
        assert(reader_continues(reads[0], channel));
        let first_ev = EventView::Data(channel, decode_utf8(b));
        assert(trace == seq![first_ev] + reader_trace(rest, channel));
        assert(forall|i: int| 1 <= i < trace.len() ==> trace[i] == reader_trace(
            rest,
            channel,
        )[i - 1]);
        assert(trace.drop_first() =~= reader_trace(rest, channel));
        lemma_decode_utf8_concat(b, chunk_bytes(rest));
        assert(data_text(trace) == decode_utf8(b) + data_text(reader_trace(rest, channel)));
    }
}

} // verus!
