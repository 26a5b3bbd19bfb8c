use word_lsp::session::Action;
use word_lsp::session::Incoming;
use word_lsp::session::NotificationKind;
use word_lsp::session::RequestKind;
use word_lsp::session::Session;
use word_lsp::session::SessionError;
use word_lsp::session::SessionState;

fn bytes(s: &str) -> Vec<u8> {
    s.as_bytes().to_vec()
}

fn open_msg(uri: &str, text: &str) -> Incoming {
    Incoming::Notification(NotificationKind::DidOpen { uri: bytes(uri), text: bytes(text) })
}

fn change_msg(uri: &str, texts: &[&str]) -> Incoming {
    Incoming::Notification(NotificationKind::DidChange {
        uri: bytes(uri),
        changes: texts.iter().map(|t| bytes(t)).collect(),
    })
}

fn completion_msg(uri: &str, line: usize, character: usize) -> Incoming {
    Incoming::Request(RequestKind::Completion { uri: bytes(uri), line, character })
}

fn running() -> Session {
    let mut s = Session::new();
    s.initialized();
    s
}

#[test]
fn handshake_starts_the_session() {
    let mut s = Session::new();
    assert_eq!(s.state, SessionState::AwaitingInitialize);
    s.initialized();
    assert_eq!(s.state, SessionState::Running);
}

#[test]
fn open_then_complete() {
    let mut s = running();
    s.step(open_msg("file:///a", "let x = 1")).unwrap();
    let r = s.step(completion_msg("file:///a", 0, 9)).unwrap();
    assert_eq!(r, Action::Respond(vec![bytes("let"), bytes("x"), bytes("1")]));
}

#[test]
fn completion_beyond_last_line_is_quiet() {
    let mut s = running();
    s.step(open_msg("file:///a", "one\ntwo")).unwrap();
    let r = s.step(completion_msg("file:///a", 5, 0)).unwrap();
    assert_eq!(r, Action::NoReply);
}

#[test]
fn change_replaces_document_wholesale() {
    let mut s = running();
    s.step(open_msg("file:///d", "let x = 1\nlet y")).unwrap();
    s.step(change_msg("file:///d", &["let y = "])).unwrap();
    let r = s.step(completion_msg("file:///d", 0, 7)).unwrap();
    assert_eq!(r, Action::Respond(vec![bytes("let"), bytes("y")]));
    // The prior text is gone: it had a second line, the replacement has none.
    let r2 = s.step(completion_msg("file:///d", 1, 0)).unwrap();
    assert_eq!(r2, Action::NoReply);
}

#[test]
fn change_takes_the_first_entry() {
    let mut s = running();
    s.step(open_msg("file:///d", "old")).unwrap();
    s.step(change_msg("file:///d", &["first second", "third"])).unwrap();
    let r = s.step(completion_msg("file:///d", 0, 12)).unwrap();
    assert_eq!(r, Action::Respond(vec![bytes("first"), bytes("second")]));
}

#[test]
fn completion_for_unopened_document_is_fatal() {
    let mut s = running();
    let r = s.step(completion_msg("file:///nope", 0, 0));
    assert_eq!(r, Err(SessionError::UnknownDocument));
}

#[test]
fn empty_change_is_fatal() {
    let mut s = running();
    s.step(open_msg("file:///d", "kept")).unwrap();
    let r = s.step(change_msg("file:///d", &[]));
    assert_eq!(r, Err(SessionError::EmptyChange));
    // The store was not touched.
    let r2 = s.step(completion_msg("file:///d", 0, 4)).unwrap();
    assert_eq!(r2, Action::Respond(vec![bytes("kept")]));
}

#[test]
fn shutdown_is_acknowledged_then_exit_terminates() {
    let mut s = running();
    let r = s.step(Incoming::Request(RequestKind::Shutdown)).unwrap();
    assert_eq!(r, Action::AcknowledgeShutdown);
    assert_eq!(s.state, SessionState::ShuttingDown);
    s.exited();
    assert_eq!(s.state, SessionState::Terminated);
}

#[test]
fn other_messages_are_left_alone() {
    let mut s = running();
    s.step(open_msg("file:///a", "word")).unwrap();
    assert_eq!(s.step(Incoming::Request(RequestKind::Unrecognized)), Ok(Action::NoReply));
    assert_eq!(s.step(Incoming::Response), Ok(Action::NoReply));
    assert_eq!(
        s.step(Incoming::Notification(NotificationKind::Unrecognized)),
        Ok(Action::NoReply)
    );
    assert_eq!(s.state, SessionState::Running);
    let r = s.step(completion_msg("file:///a", 0, 4)).unwrap();
    assert_eq!(r, Action::Respond(vec![bytes("word")]));
}

#[test]
fn repeated_identical_requests_answer_alike() {
    let mut s = running();
    s.step(open_msg("file:///a", "b a b c a")).unwrap();
    let r1 = s.step(completion_msg("file:///a", 0, 9)).unwrap();
    let r2 = s.step(completion_msg("file:///a", 0, 9)).unwrap();
    assert_eq!(r1, r2);
    assert_eq!(r1, Action::Respond(vec![bytes("b"), bytes("a"), bytes("c")]));
}
