use vstd::prelude::*;
use crate::message::ErrorKind;

verus! {

/// Where a connection stands.
#[derive(PartialEq, Eq, Structural, Clone, Copy, Debug)]
pub enum Conn {
    /// Waiting for the next frame.
    Reading,
    /// A request is being answered.
    Dispatching,
    /// A reply is being written; `close_after` says whether the connection
    /// ends once it is out.
    Writing { close_after: bool },
    Closed,
}

/// How answering a request ended.
#[derive(PartialEq, Eq, Structural, Clone, Copy, Debug)]
pub enum Outcome {
    Answered,
    Failed(ErrorKind),
}

/// What happened on the connection.
#[derive(PartialEq, Eq, Structural, Clone, Copy, Debug)]
pub enum Event {
    /// A whole frame arrived.
    FrameRead,
    /// A frame header announced more than the limit.
    FrameOversized,
    /// The peer closed its end.
    PeerClosed,
    /// Reading or writing failed.
    IoError,
    /// The request was answered, or failed.
    Handled(Outcome),
    /// The reply has been written.
    Written,
}

/// What the connection task does next.
#[derive(PartialEq, Eq, Structural, Clone, Copy, Debug)]
pub enum Action {
    ReadFrame,
    Dispatch,
    /// Write the reply: the response, or the error of the failure.
    WriteReply,
    /// Write a protocol error for a frame that was too large.
    WriteOversized,
    Close,
}

/// Whether the connection ends after reporting an error of kind `k`:
/// protocol and inference errors concern one request only.
pub open spec fn closes_after(k: ErrorKind) -> bool {
    k == ErrorKind::Cancelled || k == ErrorKind::Internal || k == ErrorKind::ModelLoad
}

/// The state and action after event `e` in state `s`.
pub open spec fn transition(s: Conn, e: Event) -> (Conn, Action) {
    match (s, e) {
        (Conn::Reading, Event::FrameRead) => (Conn::Dispatching, Action::Dispatch),
        (Conn::Reading, Event::FrameOversized) => (
            Conn::Writing { close_after: true },
            Action::WriteOversized,
        ),
        (Conn::Dispatching, Event::Handled(Outcome::Answered)) => (
            Conn::Writing { close_after: false },
            Action::WriteReply,
        ),
        (Conn::Dispatching, Event::Handled(Outcome::Failed(k))) => (
            Conn::Writing { close_after: closes_after(k) },
            Action::WriteReply,
        ),
        (Conn::Writing { close_after }, Event::Written) => if close_after {
            (Conn::Closed, Action::Close)
        } else {
            (Conn::Reading, Action::ReadFrame)
        },
        _ => (Conn::Closed, Action::Close),
    }
}

fn ends_connection(k: ErrorKind) -> (r: bool)
    ensures
        r == closes_after(k),
{
    match k {
        ErrorKind::Cancelled | ErrorKind::Internal | ErrorKind::ModelLoad => true,
        _ => false,
    }
}

/// Advances a connection by one event. Anything unexpected, a closed peer
/// or an I/O error closes it.
pub fn next(s: Conn, e: Event) -> (r: (Conn, Action))
    ensures
        r == transition(s, e),
{
    match (s, e) {
        (Conn::Reading, Event::FrameRead) => (Conn::Dispatching, Action::Dispatch),
        (Conn::Reading, Event::FrameOversized) => (
            Conn::Writing { close_after: true },
            Action::WriteOversized,
        ),
        (Conn::Dispatching, Event::Handled(Outcome::Answered)) => (
            Conn::Writing { close_after: false },
            Action::WriteReply,
        ),
        (Conn::Dispatching, Event::Handled(Outcome::Failed(k))) => (
            Conn::Writing { close_after: ends_connection(k) },
            Action::WriteReply,
        ),
        (Conn::Writing { close_after }, Event::Written) => if close_after {
            (Conn::Closed, Action::Close)
        } else {
            (Conn::Reading, Action::ReadFrame)
        },
        _ => (Conn::Closed, Action::Close),
    }
}

/// A malformed request is answered and the connection reads the next
/// frame: a protocol error ends only the request.
pub proof fn lemma_protocol_error_keeps_connection()
    ensures
        transition(Conn::Reading, Event::FrameRead) == (Conn::Dispatching, Action::Dispatch),
        transition(Conn::Dispatching, Event::Handled(Outcome::Failed(ErrorKind::Protocol))) == (
        Conn::Writing { close_after: false }, Action::WriteReply),
        transition(Conn::Writing { close_after: false }, Event::Written) == (
            Conn::Reading,
            Action::ReadFrame,
        ),
{
}

/// An I/O error or a closed peer ends the connection in every state, and
/// a closed connection stays closed.
pub proof fn lemma_io_error_closes(s: Conn, e: Event)
    ensures
        transition(s, Event::IoError) == (Conn::Closed, Action::Close),
        transition(s, Event::PeerClosed) == (Conn::Closed, Action::Close),
        transition(Conn::Closed, e) == (Conn::Closed, Action::Close),
{
}

/// A cancelled request is reported, then the connection closes.
pub proof fn lemma_cancel_closes()
    ensures
        transition(Conn::Dispatching, Event::Handled(Outcome::Failed(ErrorKind::Cancelled))) == (
        Conn::Writing { close_after: true }, Action::WriteReply),
        transition(Conn::Writing { close_after: true }, Event::Written) == (
            Conn::Closed,
            Action::Close,
        ),
{
}

} // verus!
