use inference::message::ErrorKind;
use inference::session::{next, Action, Conn, Event, Outcome};

#[test]
fn malformed_request_keeps_connection_open() {
    let (s, a) = next(Conn::Reading, Event::FrameRead);
    assert_eq!((s, a), (Conn::Dispatching, Action::Dispatch));
    let (s, a) = next(s, Event::Handled(Outcome::Failed(ErrorKind::Protocol)));
    assert_eq!((s, a), (Conn::Writing { close_after: false }, Action::WriteReply));
    let (s, a) = next(s, Event::Written);
    assert_eq!((s, a), (Conn::Reading, Action::ReadFrame));
    // The next, valid request is answered on the same connection.
    let (s, _) = next(s, Event::FrameRead);
    let (s, a) = next(s, Event::Handled(Outcome::Answered));
    assert_eq!((s, a), (Conn::Writing { close_after: false }, Action::WriteReply));
    assert_eq!(next(s, Event::Written), (Conn::Reading, Action::ReadFrame));
}

#[test]
fn inference_error_keeps_connection_open() {
    let (s, _) = next(Conn::Dispatching, Event::Handled(Outcome::Failed(ErrorKind::Inference)));
    assert_eq!(next(s, Event::Written), (Conn::Reading, Action::ReadFrame));
}

#[test]
fn internal_and_cancelled_close_after_reply() {
    for k in [ErrorKind::Internal, ErrorKind::Cancelled] {
        let (s, a) = next(Conn::Dispatching, Event::Handled(Outcome::Failed(k)));
        assert_eq!((s, a), (Conn::Writing { close_after: true }, Action::WriteReply));
        assert_eq!(next(s, Event::Written), (Conn::Closed, Action::Close));
    }
}

#[test]
fn oversized_frame_reported_then_closed() {
    let (s, a) = next(Conn::Reading, Event::FrameOversized);
    assert_eq!(a, Action::WriteOversized);
    assert_eq!(next(s, Event::Written), (Conn::Closed, Action::Close));
}

#[test]
fn peer_close_and_io_errors_close() {
    assert_eq!(next(Conn::Reading, Event::PeerClosed), (Conn::Closed, Action::Close));
    assert_eq!(next(Conn::Reading, Event::IoError), (Conn::Closed, Action::Close));
    assert_eq!(
        next(Conn::Writing { close_after: false }, Event::IoError),
        (Conn::Closed, Action::Close)
    );
    assert_eq!(next(Conn::Closed, Event::FrameRead), (Conn::Closed, Action::Close));
}
