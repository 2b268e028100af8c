use vstd::prelude::*;
use crate::event::{event_tag, EventView, StdioChannel};
use crate::reader::{lemma_reader_trace_tagged, reader_trace, ReadView};

verus! {

/// True when `m` is an interleaving of `a` and `b`: every element of `m`
/// comes from exactly one of the two sources, each source contributes all of
/// its elements, and each source's elements keep their own order.
pub open spec fn is_interleaving(a: Seq<EventView>, b: Seq<EventView>, m: Seq<EventView>) -> bool
    decreases m.len(),
{
    if m.len() == 0 {
        a.len() == 0 && b.len() == 0
    } else {
        ||| (a.len() > 0 && a[0] == m[0] && is_interleaving(a.drop_first(), b, m.drop_first()))
        ||| (b.len() > 0 && b[0] == m[0] && is_interleaving(a, b.drop_first(), m.drop_first()))
    }
}

/// The events of a trace tagged with the given stream, in trace order.
pub open spec fn keep_tagged(s: Seq<EventView>, channel: StdioChannel) -> Seq<EventView>
    decreases s.len(),
{
    if s.len() == 0 {
        seq![]
    } else if event_tag(s[0]) == Some(channel) {
        seq![s[0]] + keep_tagged(s.drop_first(), channel)
    } else {
        keep_tagged(s.drop_first(), channel)
    }
}

/// Delivery keeps each stream's own order: however the queue interleaves one
/// source whose events all carry a given stream tag with another source none
/// of whose events carry it, the consumer sees the tagged events exactly as
/// the first source produced them — same events, same order, nothing lost,
/// nothing inserted.  No claim relates events of different tags.
pub proof fn lemma_interleaving_keeps_stream_order(
    a: Seq<EventView>,
    b: Seq<EventView>,
    m: Seq<EventView>,
    channel: StdioChannel,
)
    requires
        is_interleaving(a, b, m),
        forall|i: int| 0 <= i < a.len() ==> event_tag(#[trigger] a[i]) == Some(channel),
        forall|i: int| 0 <= i < b.len() ==> event_tag(#[trigger] b[i]) != Some(channel),
    ensures
        keep_tagged(m, channel) == a,
    decreases m.len(),
{
    if m.len() == 0 {
        assert(keep_tagged(m, channel) =~= a);
    } else if a.len() > 0 && a[0] == m[0] && is_interleaving(a.drop_first(), b, m.drop_first()) {
        lemma_interleaving_keeps_stream_order(a.drop_first(), b, m.drop_first(), channel);
        assert(event_tag(m[0]) == Some(channel));
        assert(keep_tagged(m, channel) =~= a);
    } else {
        assert(b.len() > 0 && b[0] == m[0] && is_interleaving(a, b.drop_first(), m.drop_first()));
        lemma_interleaving_keeps_stream_order(a, b.drop_first(), m.drop_first(), channel);
        assert(event_tag(m[0]) != Some(channel));
    }
}

/// The bridge keeps each stream reader's order: however the queue merges one
/// reader's events with those of the other sources — the other stream's
/// reader and the exit waiter — as long as no other source contributes events
/// carrying this reader's tag, the consumer sees this stream's events exactly
/// in the order its reads produced them.
pub proof fn lemma_bridge_keeps_reader_order(
    reads: Seq<ReadView>,
    others: Seq<EventView>,
    m: Seq<EventView>,
    channel: StdioChannel,
)
    requires
        is_interleaving(reader_trace(reads, channel), others, m),
        forall|i: int| 0 <= i < others.len() ==> event_tag(#[trigger] others[i])
            != Some(channel),
    ensures
        keep_tagged(m, channel) == reader_trace(reads, channel),
{
    lemma_reader_trace_tagged(reads, channel);
    lemma_interleaving_keeps_stream_order(reader_trace(reads, channel), others, m, channel);
}

} // verus!
