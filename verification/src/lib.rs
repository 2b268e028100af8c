//! Observe a child operating-system process through a stream of non-blocking
//! events.
//!
//! A child process is normally watched through blocking reads on its standard
//! output and standard error and a blocking wait for its termination.  This
//! crate models the bridge that turns those blocking sources into one ordered,
//! non-blocking event queue: one reader per captured stream and one exit
//! waiter feed a shared multi-producer single-consumer channel, whose
//! receiving end the consumer owns and drains without blocking.
//!
//! The crate holds the verified core of that bridge: the event vocabulary,
//! the decisions each reader and the exit waiter make after every blocking
//! call, the queue as the consumer observes it, and the order in which a
//! process and its descendants are terminated.  The blocking calls themselves
//! (reads, the wait, thread creation, signals) are performed by a thin host
//! layer that drives these decision functions.

mod channel;
mod codec;
mod event;
mod interleave;
mod kill;
mod process;
mod reader;
mod waiter;

pub use channel::{lemma_disconnected_is_lasting, recv_disconnected, recv_state, ChannelView,
    EventChannel, RecvResult};
pub use codec::{chunk_plan, decode_chunk, lemma_decode_utf8_concat, lemma_utf8_valid_prefix_len,
    utf8_valid_prefix_len};
pub use event::{event_tag, is_terminal, EventView, ExitInfo, IoErrorInfo, ProcessEvent,
    StdioChannel, Utf8ErrorInfo};
pub use interleave::{is_interleaving, keep_tagged, lemma_bridge_keeps_reader_order,
    lemma_interleaving_keeps_stream_order};
pub use kill::{acyclic, child_first, descends, kill_order, lists_child, reaches, table_pids,
    ProcessEntry, ProcessTable};
pub use process::{Process, ProcessView};
pub use reader::{action_events, chunk_bytes, data_text, lemma_data_text_concat,
    lemma_reader_preserves_data, lemma_reader_trace_tagged, reader_continues, reader_emits,
    reader_step, reader_trace, ReadOutcome, ReadView, ReaderAction};
pub use waiter::{buffer_events, lemma_stream_data_exactly_once, lemma_waiter_single_terminal,
    lemma_waiter_terminal_is_last, wait_plan, waiter_trace, WaitOutcome, WaitView};
