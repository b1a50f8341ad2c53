//! One connection's protocol state: its identity, its consume flag, the
//! notification it is building, and the replies waiting to be written.

use vstd::prelude::*;
use crate::notifications::{NotificationDetails, DetailsView, empty_details};
use crate::protocol::{strings_view, opt_view};

verus! {

/// The failure codes that replies carry as their first argument.
#[derive(Clone, Copy, PartialEq, Eq, Structural, Debug)]
pub enum Failure {
    MissingArg,
    AlreadyLoggedIn,
    NoLogin,
    MissingTrailing,
    InvalidArg,
    UnknownCmd,
    DbFail,
    NoDb,
    InvalidMessage,
    /// Every notification id has been issued.
    NoId,
}

pub open spec fn failure_code(f: Failure) -> Seq<char> {
    match f {
        Failure::MissingArg => "MISSING_ARG"@,
        Failure::AlreadyLoggedIn => "ALREADY_LOGGED_IN"@,
        Failure::NoLogin => "NO_LOGIN"@,
        Failure::MissingTrailing => "MISSING_TRAILING"@,
        Failure::InvalidArg => "INVALID_ARG"@,
        Failure::UnknownCmd => "UNKNOWN_CMD"@,
        Failure::DbFail => "DB_FAIL"@,
        Failure::NoDb => "NO_DB"@,
        Failure::InvalidMessage => "INVALID_MESSAGE"@,
        Failure::NoId => "NO_ID"@,
    }
}

impl Failure {
    /// The code as it stands on the wire.
    pub fn code(&self) -> (r: &'static str)
        ensures
            r@ == failure_code(*self),
    {
        match self {
            Failure::MissingArg => "MISSING_ARG",
            Failure::AlreadyLoggedIn => "ALREADY_LOGGED_IN",
            Failure::NoLogin => "NO_LOGIN",
            Failure::MissingTrailing => "MISSING_TRAILING",
            Failure::InvalidArg => "INVALID_ARG",
            Failure::UnknownCmd => "UNKNOWN_CMD",
            Failure::DbFail => "DB_FAIL",
            Failure::NoDb => "NO_DB",
            Failure::InvalidMessage => "INVALID_MESSAGE",
            Failure::NoId => "NO_ID",
        }
    }
}

/// The mutable state of one session.
#[derive(Debug)]
pub struct ClientState {
    /// The identity claimed by LOGIN; set at most once.
    pub name: Option<String>,
    /// The notification being built.
    pub details: NotificationDetails,
    /// Whether broadcasts are delivered to this session.
    pub consume: bool,
}

pub struct ClientStateView {
    pub name: Option<Seq<char>>,
    pub details: DetailsView,
    pub consume: bool,
}

impl View for ClientState {
    type V = ClientStateView;

    open spec fn view(&self) -> ClientStateView {
        ClientStateView { name: opt_view(self.name), details: self.details@, consume: self.consume }
    }
}

/// A fresh session: not logged in, building nothing, consuming broadcasts.
pub open spec fn fresh_state() -> ClientStateView {
    ClientStateView { name: None, details: empty_details(), consume: true }
}

impl ClientState {
    /// The state of a new connection. Sessions consume broadcasts until they
    /// say `CONSUME off`.
    pub fn new() -> (r: Self)
        ensures
            r@ == fresh_state(),
    {
        ClientState { name: None, consume: true, details: NotificationDetails::new() }
    }
}

/// A live session as the registry holds it.
#[derive(Debug)]
pub struct ClientHandle {
    /// Tells this session apart from every other live one.
    pub key: u64,
    /// The peer's address, for WHO.
    pub peer: String,
    pub state: ClientState,
    /// Text waiting to be written to the peer, oldest first.
    pub outbox: Vec<String>,
    /// Whether the connection still takes text; once its writer is gone,
    /// broadcasts pass it by.
    pub open: bool,
}

pub struct SessionView {
    pub key: u64,
    pub peer: Seq<char>,
    pub state: ClientStateView,
    pub outbox: Seq<Seq<char>>,
    pub open: bool,
}

/// A session after `msg` was offered to it: queued at the end of its
/// outbox while its connection is open, dropped once it is closed.
pub open spec fn queued(x: SessionView, msg: Seq<char>) -> SessionView {
    if x.open {
        SessionView { outbox: x.outbox.push(msg), ..x }
    } else {
        x
    }
}

impl View for ClientHandle {
    type V = SessionView;

    open spec fn view(&self) -> SessionView {
        SessionView {
            key: self.key,
            peer: self.peer@,
            state: self.state@,
            outbox: strings_view(self.outbox@),
            open: self.open,
        }
    }
}

impl ClientHandle {
    /// A new session for the connection `key` from `peer`.
    pub fn new(key: u64, peer: String) -> (r: Self)
        ensures
            r@ == (SessionView { key, peer: peer@, state: fresh_state(), outbox: Seq::empty(), open: true }),
    {
        let r = ClientHandle { key, peer, state: ClientState::new(), outbox: Vec::new(), open: true };
        assert(r@.outbox =~= Seq::<Seq<char>>::empty());
        r
    }

    /// Queues `msg` for the peer, after everything queued before it; a
    /// closed connection takes nothing.
    pub fn write(&mut self, msg: String)
        ensures
            final(self)@ == queued(old(self)@, msg@),
    {
        if self.open {
            let ghost before = self.outbox@;
            self.outbox.push(msg);
            assert(strings_view(self.outbox@) =~= strings_view(before).push(msg@));
        }
    }

    /// Hands out the queued text and empties the queue.
    pub fn take_outbox(&mut self) -> (r: Vec<String>)
        ensures
            strings_view(r@) == old(self)@.outbox,
            final(self)@ == (SessionView { outbox: Seq::empty(), ..old(self)@ }),
    {
        let mut r: Vec<String> = Vec::new();
        std::mem::swap(&mut r, &mut self.outbox);
        assert(strings_view(self.outbox@) =~= Seq::<Seq<char>>::empty());
        r
    }
}

} // verus!
