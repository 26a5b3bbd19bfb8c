//! The session: a state machine over a document store. Messages arrive one
//! at a time, already decoded to plain values; each is a request, a
//! response, or a notification. A shutdown request moves the session to
//! `ShuttingDown`; a completion request is answered from the store; open
//! and change notifications replace a document's text wholesale; everything
//! else is observed and left alone. A completion request for a document
//! never opened, and a change notification with no replacement entry, are
//! caller-contract violations and come back as errors for the caller to
//! treat as fatal.

use vstd::prelude::*;

use crate::complete::completion_labels;
use crate::complete::spec_completion;
use crate::store::DocStore;

verus! {

#[derive(Clone, Copy, PartialEq, Eq, Structural, Debug)]
pub enum SessionState {
    AwaitingInitialize,
    Running,
    ShuttingDown,
    Terminated,
}

/// A request the session recognizes, or anything else.
#[derive(Debug)]
pub enum RequestKind {
    Shutdown,
    Completion { uri: Vec<u8>, line: usize, character: usize },
    Unrecognized,
}

/// A notification the session recognizes, or anything else. A change
/// carries the replacement entries' texts; the first is taken whole.
#[derive(Debug)]
pub enum NotificationKind {
    DidOpen { uri: Vec<u8>, text: Vec<u8> },
    DidChange { uri: Vec<u8>, changes: Vec<Vec<u8>> },
    Unrecognized,
}

/// One inbound message.
#[derive(Debug)]
pub enum Incoming {
    Request(RequestKind),
    Response,
    Notification(NotificationKind),
}

/// What the session asks its transport to do with a message.
#[derive(Debug, PartialEq, Eq)]
pub enum Action {
    /// Acknowledge the shutdown request.
    AcknowledgeShutdown,
    /// Answer the completion request with these candidate labels.
    Respond(Vec<Vec<u8>>),
    /// Send nothing.
    NoReply,
}

/// A caller-contract violation; the session cannot recover from it.
#[derive(Clone, Copy, PartialEq, Eq, Structural, Debug)]
pub enum SessionError {
    /// A completion request named a document that was never opened.
    UnknownDocument,
    /// A change notification carried no replacement entry.
    EmptyChange,
}

pub struct Session {
    pub state: SessionState,
    pub store: DocStore,
}

/// Everything `step` does, as a relation between the session before the
/// call, the session after it, the message, and the result.
pub open spec fn step_result(
    pre: Session,
    post: Session,
    msg: Incoming,
    r: Result<Action, SessionError>,
) -> bool {
    match msg {
        Incoming::Request(req) => match req {
            RequestKind::Shutdown => post.state == SessionState::ShuttingDown && post.store@
                == pre.store@ && r == Ok::<Action, SessionError>(Action::AcknowledgeShutdown),
            RequestKind::Completion { uri, line, character } => {
                &&& post.state == SessionState::Running
                &&& post.store@ == pre.store@
                &&& if !pre.store@.contains_key(uri@) {
                    r == Err::<Action, SessionError>(SessionError::UnknownDocument)
                } else {
                    match spec_completion(pre.store@[uri@], line as int, character as int) {
                        Some(labels) => r matches Ok(Action::Respond(v)) && v@.map_values(
                            |l: Vec<u8>| l@,
                        ) == labels,
                        None => r == Ok::<Action, SessionError>(Action::NoReply),
                    }
                }
            },
            RequestKind::Unrecognized => post.state == SessionState::Running && post.store@
                == pre.store@ && r == Ok::<Action, SessionError>(Action::NoReply),
        },
        Incoming::Response => post.state == SessionState::Running && post.store@ == pre.store@
            && r == Ok::<Action, SessionError>(Action::NoReply),
        Incoming::Notification(n) => match n {
            NotificationKind::DidOpen { uri, text } => post.state == SessionState::Running
                && post.store@ == pre.store@.insert(uri@, text@) && r == Ok::<
                Action,
                SessionError,
            >(Action::NoReply),
            NotificationKind::DidChange { uri, changes } => {
                if changes@.len() == 0 {
                    post.state == SessionState::Running && post.store@ == pre.store@ && r == Err::<
                        Action,
                        SessionError,
                    >(SessionError::EmptyChange)
                } else {
                    post.state == SessionState::Running && post.store@ == pre.store@.insert(
                        uri@,
                        changes@[0]@,
                    ) && r == Ok::<Action, SessionError>(Action::NoReply)
                }
            },
            NotificationKind::Unrecognized => post.state == SessionState::Running && post.store@
                == pre.store@ && r == Ok::<Action, SessionError>(Action::NoReply),
        },
    }
}

impl Session {
    /// The session's internal invariant.
    pub open spec fn wf(&self) -> bool {
        self.store.wf()
    }

    /// A fresh session: no documents, handshake not yet done.
    pub fn new() -> (s: Session)
        ensures
            s.wf(),
            s.state == SessionState::AwaitingInitialize,
            s.store@ == Map::<Seq<u8>, Seq<u8>>::empty(),
    {
        Session { state: SessionState::AwaitingInitialize, store: DocStore::new() }
    }

    /// The transport finished the capability handshake: start running.
    pub fn initialized(&mut self)
        requires
            old(self).wf(),
            old(self).state == SessionState::AwaitingInitialize,
        ensures
            final(self).wf(),
            final(self).state == SessionState::Running,
            final(self).store@ == old(self).store@,
    {
        self.state = SessionState::Running;
    }

    /// The transport saw the exit signal, or disconnected, after shutdown.
    pub fn exited(&mut self)
        requires
            old(self).wf(),
            old(self).state == SessionState::ShuttingDown,
        ensures
            final(self).wf(),
            final(self).state == SessionState::Terminated,
            final(self).store@ == old(self).store@,
    {
        self.state = SessionState::Terminated;
    }

    /// Process one inbound message, in arrival order, and say what to send.
    pub fn step(&mut self, msg: Incoming) -> (r: Result<Action, SessionError>)
        requires
            old(self).wf(),
            old(self).state == SessionState::Running,
        ensures
            final(self).wf(),
            step_result(*old(self), *final(self), msg, r),
    {
        match msg {
            Incoming::Request(req) => match req {
                RequestKind::Shutdown => {
                    self.state = SessionState::ShuttingDown;
                    Ok(Action::AcknowledgeShutdown)
                },
                RequestKind::Completion { uri, line, character } => {
                    match self.store.get(&uri) {
                        None => Err(SessionError::UnknownDocument),
                        Some(text) => match completion_labels(text, line, character) {
                            Some(labels) => Ok(Action::Respond(labels)),
                            None => Ok(Action::NoReply),
                        },
                    }
                },
                RequestKind::Unrecognized => Ok(Action::NoReply),
            },
            Incoming::Response => Ok(Action::NoReply),
            Incoming::Notification(n) => match n {
                NotificationKind::DidOpen { uri, text } => {
                    self.store.put(uri, text);
                    Ok(Action::NoReply)
                },
                NotificationKind::DidChange { uri, changes } => {
                    if changes.len() == 0 {
                        Err(SessionError::EmptyChange)
                    } else {
                        let mut changes = changes;
                        let text = changes.remove(0);
                        self.store.put(uri, text);
                        Ok(Action::NoReply)
                    }
                },
                NotificationKind::Unrecognized => Ok(Action::NoReply),
            },
        }
    }
}

} // verus!
