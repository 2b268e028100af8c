use vstd::prelude::*;

verus! {

/// Identifies which standard stream of the child process an event pertains
/// to.  It is an informational tag on events, not an ownership handle.
#[derive(Copy, Clone, Debug, PartialEq, Eq, Structural)]
pub enum StdioChannel {
    /// The standard output stream of a child process.
    Stdout,
    /// The standard error stream of a child process.
    Stderr,
}

/// What the consumer learns of an operating-system I/O error.
#[derive(Copy, Clone, Debug, PartialEq, Eq)]
pub enum IoErrorInfo {
    /// Writing was requested but the child's input stream was never captured.
    NotConnected,
    /// The operating system reported this raw error code.
    Os(i32),
    /// An error the operating system gave no code for.
    Unknown,
}

/// How a child process finished.
#[derive(Copy, Clone, Debug, PartialEq, Eq)]
pub struct ExitInfo {
    /// The exit code, when the process exited normally; `None` when it was
    /// terminated by a signal or the code is otherwise unavailable.
    pub code: Option<i32>,
}

impl ExitInfo {
    /// True exactly when the process exited normally with code zero.
    pub fn success(&self) -> (r: bool)
        ensures
            r == (self.code == Some(0i32)),
    {
        match self.code {
            Some(c) => c == 0,
            None => false,
        }
    }
}

/// A chunk of stream bytes was refused as text.
#[derive(Copy, Clone, Debug, PartialEq, Eq)]
pub struct Utf8ErrorInfo {
    /// How many bytes from the start of the refused chunk formed valid text.
    pub valid_up_to: usize,
}

/// An event observed on a child process: data on a captured stream, a failure
/// of one of the observing threads, or the termination of the process.
#[derive(Debug, Clone, PartialEq, Eq)]
pub enum ProcessEvent {
    /// Data received on a stream, decoded as text.
    Data(StdioChannel, String),
    /// The blocking wait for the child's termination itself failed; no
    /// further event follows from the exit waiter.
    CommandError(IoErrorInfo),
    /// A read on a stream failed; no further event follows from that
    /// stream's reader.
    IoError(StdioChannel, IoErrorInfo),
    /// A chunk of bytes on a stream was not valid text; no further event
    /// follows from that stream's reader.
    Utf8Error(StdioChannel, Utf8ErrorInfo),
    /// The process terminated with the given status.  The exit waiter emits
    /// nothing after it.
    Exit(ExitInfo),
}

/// The mathematical value of a [`ProcessEvent`], with text carried as a
/// sequence of characters.
pub enum EventView {
    /// Data received on a stream.
    Data(StdioChannel, Seq<char>),
    /// The blocking wait for the child's termination failed.
    CommandError(IoErrorInfo),
    /// A read on a stream failed.
    IoError(StdioChannel, IoErrorInfo),
    /// A chunk of bytes on a stream was not valid text.
    Utf8Error(StdioChannel, Utf8ErrorInfo),
    /// The process terminated.
    Exit(ExitInfo),
}

impl View for ProcessEvent {
    type V = EventView;

    open spec fn view(&self) -> EventView {
        match self {
            ProcessEvent::Data(c, s) => EventView::Data(*c, s@),
            ProcessEvent::CommandError(e) => EventView::CommandError(*e),
            ProcessEvent::IoError(c, e) => EventView::IoError(*c, *e),
            ProcessEvent::Utf8Error(c, e) => EventView::Utf8Error(*c, *e),
            ProcessEvent::Exit(s) => EventView::Exit(*s),
        }
    }
}

impl DeepView for ProcessEvent {
    type V = EventView;

    open spec fn deep_view(&self) -> EventView {
        self.view()
    }
}

/// The stream an event is tagged with, when it pertains to one.
pub open spec fn event_tag(e: EventView) -> Option<StdioChannel> {
    match e {
        EventView::Data(c, _) => Some(c),
        EventView::IoError(c, _) => Some(c),
        EventView::Utf8Error(c, _) => Some(c),
        EventView::CommandError(_) => None,
        EventView::Exit(_) => None,
    }
}

/// True for the two events that report the fate of the process itself and
/// that the exit waiter emits as its very last event.
pub open spec fn is_terminal(e: EventView) -> bool {
    e is Exit || e is CommandError
}

} // verus!
