//! The registry of live sessions: notification ids, fan-out of broadcasts,
//! the roster, and the command dispatch of every session.

use vstd::prelude::*;
use crate::session::{queued, ClientHandle, SessionView, ClientStateView, Failure, failure_code};
use crate::protocol::{Message, MessageView, reply, reply_text, strings_view, strs_view, opt_str_view, line, spec_line, all_in, CharClass};
use crate::notifications::{NotificationDetails, DetailsView, empty_details, body_after};
use crate::frames::{notify_frame, notify_frame_text, history_group, history_group_text, frame_body, prefixed_lines, crlf, lemma_two_lines};
use crate::text::{ascii_upper, upper, upper_of, lower_of, unicode_upper, unicode_lower, same_text, decimal, decimal_string};

verus! {

/// The registry: every live session, whether a history store is attached,
/// and the next notification id to issue.
#[derive(Debug)]
pub struct ServerState {
    pub clients: Vec<ClientHandle>,
    /// Whether a history store is attached.
    pub db: bool,
    /// The next notification id to issue.
    pub counter: usize,
}

pub struct RegistryView {
    pub sessions: Seq<SessionView>,
    pub db: bool,
    pub counter: usize,
}

pub open spec fn sessions_view(v: Seq<ClientHandle>) -> Seq<SessionView> {
    v.map_values(|c: ClientHandle| c@)
}

impl View for ServerState {
    type V = RegistryView;

    open spec fn view(&self) -> RegistryView {
        RegistryView { sessions: sessions_view(self.clients@), db: self.db, counter: self.counter }
    }
}

/// No two live sessions share a key.
pub open spec fn keys_unique(s: Seq<SessionView>) -> bool {
    forall|i: int, j: int| 0 <= i < j < s.len() ==> s[i].key != s[j].key
}

/// The first session from `i` on with `key`, or the end.
pub open spec fn find_from(s: Seq<SessionView>, key: u64, i: int) -> int
    decreases s.len() - i,
{
    if 0 <= i < s.len() && s[i].key != key {
        find_from(s, key, i + 1)
    } else {
        i
    }
}

pub open spec fn index_of(s: Seq<SessionView>, key: u64) -> int {
    find_from(s, key, 0)
}

pub proof fn lemma_find_from(s: Seq<SessionView>, key: u64, i: int)
    requires
        0 <= i <= s.len(),
    ensures
        i <= find_from(s, key, i) <= s.len(),
        forall|m: int| i <= m < find_from(s, key, i) ==> s[m].key != key,
        find_from(s, key, i) < s.len() ==> s[find_from(s, key, i)].key == key,
    decreases s.len() - i,
{
    if i < s.len() && s[i].key != key {
        lemma_find_from(s, key, i + 1);
    }
}

/// Whether broadcasts reach a session: it is logged in, consumes, and its
/// connection still takes text.
pub open spec fn eligible(s: SessionView) -> bool {
    s.state.consume && s.state.name is Some && s.open
}

/// The sessions after `frame` was queued on each eligible one.
pub open spec fn deliver(s: Seq<SessionView>, frame: Seq<char>) -> Seq<SessionView> {
    s.map_values(
        |x: SessionView|
            if eligible(x) {
                SessionView { outbox: x.outbox.push(frame), ..x }
            } else {
                x
            },
    )
}

/// The sessions after `frame` was offered to every one: each open session
/// queues it, closed ones pass it by.
pub open spec fn deliver_all(s: Seq<SessionView>, frame: Seq<char>) -> Seq<SessionView> {
    s.map_values(|x: SessionView| queued(x, frame))
}

/// How many sessions broadcasts reach.
pub open spec fn eligible_count(s: Seq<SessionView>) -> nat
    decreases s.len(),
{
    if s.len() == 0 {
        0
    } else {
        eligible_count(s.drop_last()) + if eligible(s.last()) {
            1nat
        } else {
            0nat
        }
    }
}

pub proof fn lemma_eligible_count_bound(s: Seq<SessionView>)
    ensures
        eligible_count(s) <= s.len(),
    decreases s.len(),
{
    if s.len() > 0 {
        lemma_eligible_count_bound(s.drop_last());
    }
}

/// The roster entry of a logged-in session: its identity, its peer address
/// and whether it consumes.
pub open spec fn roster(s: Seq<SessionView>) -> Seq<(Seq<char>, Seq<char>, bool)>
    decreases s.len(),
{
    if s.len() == 0 {
        Seq::empty()
    } else {
        let prev = roster(s.drop_last());
        let x = s.last();
        match x.state.name {
            Some(n) => prev.push((n, x.peer, x.state.consume)),
            None => prev,
        }
    }
}

pub open spec fn roster_view(v: Seq<(String, String, bool)>) -> Seq<(Seq<char>, Seq<char>, bool)> {
    v.map_values(|e: (String, String, bool)| (e.0@, e.1@, e.2))
}

/// Issues the next notification id: ids come out in increasing order and
/// none twice. `None` once every id has been issued.
pub fn next_id(state: &mut ServerState) -> (r: Option<usize>)
    ensures
        old(state).counter < usize::MAX ==> r == Some(old(state).counter) && final(state)@ == (RegistryView {
            counter: (old(state).counter + 1) as usize,
            ..old(state)@
        }),
        old(state).counter == usize::MAX ==> r is None && final(state)@ == old(state)@,
{
    if state.counter < usize::MAX {
        let id = state.counter;
        state.counter = state.counter + 1;
        Some(id)
    } else {
        None
    }
}

/// Seeds the id counter, as from the last id of a history store, so that
/// `id` is the next one issued. The counter never moves back: an id is
/// issued at most once.
pub fn set_id(state: &mut ServerState, id: usize)
    ensures
        final(state)@ == (RegistryView {
            counter: if id > old(state).counter { id } else { old(state).counter },
            ..old(state)@
        }),
{
    if id > state.counter {
        state.counter = id;
    }
}

/// Seeds the id counter from the highest id found in a history store, so
/// that ids go on after it and none is issued twice across restarts.
pub fn resume_after(state: &mut ServerState, last: usize)
    ensures
        final(state)@ == (RegistryView {
            counter: if last == usize::MAX {
                usize::MAX
            } else if last + 1 > old(state).counter {
                (last + 1) as usize
            } else {
                old(state).counter
            },
            ..old(state)@
        }),
{
    if last == usize::MAX {
        state.counter = usize::MAX;
    } else {
        set_id(state, last + 1);
    }
}

impl ServerState {
    /// An empty registry without a history store; ids start at 0.
    pub fn new() -> (r: Self)
        ensures
            r@ == (RegistryView { sessions: Seq::empty(), db: false, counter: 0 }),
    {
        let r = ServerState { clients: Vec::new(), db: false, counter: 0 };
        assert(r@.sessions =~= Seq::<SessionView>::empty());
        r
    }

    /// Where the session `key` stands, if it is live.
    pub fn find(&self, key: u64) -> (r: Option<usize>)
        ensures
            match r {
                Some(i) => i == index_of(self@.sessions, key) && i < self@.sessions.len(),
                None => index_of(self@.sessions, key) == self@.sessions.len(),
            },
    {
        proof {
            lemma_find_from(self@.sessions, key, 0);
        }
        let mut i: usize = 0;
        while i < self.clients.len()
            invariant
                i <= self.clients@.len(),
                find_from(self@.sessions, key, 0) == find_from(self@.sessions, key, i as int),
            decreases self.clients@.len() - i,
        {
            if self.clients[i].key == key {
                return Some(i);
            }
            i = i + 1;
        }
        None
    }

    /// Registers a session, unless one with its key is live already.
    pub fn add_client(&mut self, handle: ClientHandle) -> (r: bool)
        ensures
            r == (index_of(old(self)@.sessions, handle.key) == old(self)@.sessions.len()),
            final(self)@ == (if r {
                RegistryView { sessions: old(self)@.sessions.push(handle@), ..old(self)@ }
            } else {
                old(self)@
            }),
            keys_unique(old(self)@.sessions) ==> keys_unique(final(self)@.sessions),
    {
        proof {
            lemma_find_from(self@.sessions, handle.key, 0);
        }
        match self.find(handle.key) {
            Some(_) => false,
            None => {
                let ghost before = self.clients@;
                self.clients.push(handle);
                assert(sessions_view(self.clients@) =~= sessions_view(before).push(handle@));
                true
            },
        }
    }

    /// Deregisters the session `key`, if it is live.
    pub fn remove_client(&mut self, key: u64) -> (r: bool)
        ensures
            r == (index_of(old(self)@.sessions, key) < old(self)@.sessions.len()),
            final(self)@ == (if r {
                RegistryView {
                    sessions: old(self)@.sessions.remove(index_of(old(self)@.sessions, key)),
                    ..old(self)@
                }
            } else {
                old(self)@
            }),
            keys_unique(old(self)@.sessions) ==> keys_unique(final(self)@.sessions),
    {
        match self.find(key) {
            Some(i) => {
                let ghost before = self.clients@;
                let _gone = self.clients.remove(i);
                assert(sessions_view(self.clients@) =~= sessions_view(before).remove(i as int));
                true
            },
            None => false,
        }
    }

    /// Notes that the connection of the session `key` takes no more text:
    /// from now on broadcasts neither reach nor count it.
    pub fn mark_closed(&mut self, key: u64) -> (r: bool)
        ensures
            r == (index_of(old(self)@.sessions, key) < old(self)@.sessions.len()),
            final(self)@ == (if r {
                with_session(
                    old(self)@,
                    index_of(old(self)@.sessions, key),
                    SessionView { open: false, ..old(self)@.sessions[index_of(old(self)@.sessions, key)] },
                )
            } else {
                old(self)@
            }),
            keys_unique(old(self)@.sessions) ==> keys_unique(final(self)@.sessions),
    {
        match self.find(key) {
            Some(i) => {
                let ghost r0 = self@;
                let mut c = self.take_client(i);
                c.open = false;
                let ghost placed = c@;
                self.put_client(i, c);
                proof {
                    lemma_remove_insert(r0.sessions, i as int, placed);
                }
                true
            },
            None => false,
        }
    }

    /// How many sessions are live.
    pub fn clients_len(&self) -> (r: usize)
        ensures
            r == self@.sessions.len(),
    {
        self.clients.len()
    }

    /// Whether a history store is attached.
    pub fn has_db(&self) -> (r: bool)
        ensures
            r == self@.db,
    {
        self.db
    }

    /// Queues `msg` on the session at `i`.
    fn write_to(&mut self, i: usize, msg: String)
        requires
            i < old(self)@.sessions.len(),
        ensures
            final(self)@ == (RegistryView {
                sessions: old(self)@.sessions.update(i as int, queued(old(self)@.sessions[i as int], msg@)),
                ..old(self)@
            }),
    {
        let ghost before = self.clients@;
        let mut c = self.clients.remove(i);
        c.write(msg);
        self.clients.insert(i, c);
        assert(sessions_view(self.clients@) =~= sessions_view(before).update(i as int, c@));
    }

    /// Queues `msg` on every session.
    pub fn broadcast(&mut self, msg: &String)
        ensures
            final(self)@ == (RegistryView { sessions: deliver_all(old(self)@.sessions, msg@), ..old(self)@ }),
    {
        let ghost start = self@.sessions;
        let mut i: usize = 0;
        while i < self.clients.len()
            invariant
                i <= self.clients@.len() == start.len(),
                self.db == old(self).db,
                self.counter == old(self).counter,
                self@.sessions =~= deliver_all(start, msg@).take(i as int) + start.skip(i as int),
            decreases start.len() - i,
        {
            self.write_to(i, msg.clone());
            i = i + 1;
            assert(self@.sessions =~= deliver_all(start, msg@).take(i as int) + start.skip(i as int));
        }
        assert(self@.sessions =~= deliver_all(start, msg@));
    }

    /// Queues `msg` on every session that is logged in and consumes, and
    /// says on how many.
    pub fn broadcast_notification(&mut self, msg: &String) -> (r: usize)
        ensures
            r == eligible_count(old(self)@.sessions),
            final(self)@ == (RegistryView { sessions: deliver(old(self)@.sessions, msg@), ..old(self)@ }),
    {
        let ghost start = self@.sessions;
        let mut n: usize = 0;
        let mut i: usize = 0;
        while i < self.clients.len()
            invariant
                i <= self.clients@.len() == start.len(),
                self.db == old(self).db,
                self.counter == old(self).counter,
                self@.sessions =~= deliver(start, msg@).take(i as int) + start.skip(i as int),
                n == eligible_count(start.take(i as int)),
            decreases start.len() - i,
        {
            proof {
                assert(start.take(i + 1).drop_last() =~= start.take(i as int));
                assert(start.take(i + 1).last() == start[i as int]);
                assert(self@.sessions[i as int] == start.skip(i as int)[0]);
                lemma_eligible_count_bound(start.take(i as int));
            }
            if self.clients[i].state.consume && self.clients[i].state.name.is_some() && self.clients[i].open {
                self.write_to(i, msg.clone());
                n = n + 1;
            }
            i = i + 1;
            assert(self@.sessions =~= deliver(start, msg@).take(i as int) + start.skip(i as int));
        }
        assert(self@.sessions =~= deliver(start, msg@));
        assert(start.take(i as int) =~= start);
        n
    }

    /// The logged-in sessions: identity, peer address and consume flag.
    pub fn who(&self) -> (r: Vec<(String, String, bool)>)
        ensures
            roster_view(r@) == roster(self@.sessions),
    {
        let mut v: Vec<(String, String, bool)> = Vec::new();
        let mut i: usize = 0;
        while i < self.clients.len()
            invariant
                i <= self.clients@.len(),
                roster_view(v@) == roster(self@.sessions.take(i as int)),
            decreases self.clients@.len() - i,
        {
            let ghost before = v@;
            let c = &self.clients[i];
            match &c.state.name {
                Some(login) => {
                    v.push((login.clone(), c.peer.clone(), c.state.consume));
                    assert(roster_view(v@) =~= roster_view(before).push((login@, c.peer@, c.state.consume)));
                },
                None => {},
            }
            proof {
                assert(self@.sessions.take(i + 1).drop_last() =~= self@.sessions.take(i as int));
            }
            i = i + 1;
        }
        assert(self@.sessions.take(i as int) =~= self@.sessions);
        v
    }

    /// Hands out the text queued for the session `key`.
    pub fn take_outbox(&mut self, key: u64) -> (r: Vec<String>)
        ensures
            index_of(old(self)@.sessions, key) < old(self)@.sessions.len() ==> {
                let i = index_of(old(self)@.sessions, key);
                &&& strings_view(r@) == old(self)@.sessions[i].outbox
                &&& final(self)@ == (RegistryView {
                    sessions: old(self)@.sessions.update(i, SessionView { outbox: Seq::empty(), ..old(self)@.sessions[i] }),
                    ..old(self)@
                })
            },
            index_of(old(self)@.sessions, key) == old(self)@.sessions.len() ==> r@.len() == 0 && final(self)@ == old(self)@,
    {
        match self.find(key) {
            Some(i) => {
                let ghost before = self.clients@;
                let mut c = self.clients.remove(i);
                let r = c.take_outbox();
                self.clients.insert(i, c);
                assert(sessions_view(self.clients@) =~= sessions_view(before).update(i as int, c@));
                r
            },
            None => Vec::new(),
        }
    }
}

/// The name that VERSION reports.
pub const PACKAGE_NAME: &'static str = "notificationd";

/// The version that VERSION reports.
pub const PACKAGE_VERSION: &'static str = "0.1.0";

/// What the connection's driver does after a message was handled.
#[derive(Debug)]
pub enum Action {
    /// Keep reading.
    Continue,
    /// Shut the connection down (QUIT).
    Close,
    /// Save this sent notification in the history store; a failure there
    /// changes nothing for the session.
    Persist(NotificationDetails),
    /// Read the history store and hand the outcome to `history_loaded`,
    /// with this request id.
    LoadHistory(Option<u32>),
}

pub enum ActionView {
    Continue,
    Close,
    Persist(DetailsView),
    LoadHistory(Option<u32>),
}

impl View for Action {
    type V = ActionView;

    open spec fn view(&self) -> ActionView {
        match self {
            Action::Continue => ActionView::Continue,
            Action::Close => ActionView::Close,
            Action::Persist(d) => ActionView::Persist(d@),
            Action::LoadHistory(id) => ActionView::LoadHistory(*id),
        }
    }
}

/// The history store could not be read.
#[derive(Debug, Clone, Copy, PartialEq, Eq, Structural)]
pub struct StoreError;

pub open spec fn failure_text(id: Option<u32>, command: Seq<char>, f: Failure, trailing: Option<Seq<char>>) -> Seq<char> {
    reply_text(id, false, command, seq![failure_code(f)], trailing)
}

pub open spec fn with_session(r: RegistryView, i: int, x: SessionView) -> RegistryView {
    RegistryView { sessions: r.sessions.update(i, x), ..r }
}

pub open spec fn with_state(r: RegistryView, i: int, st: ClientStateView) -> RegistryView {
    with_session(r, i, SessionView { state: st, ..r.sessions[i] })
}

/// `r` after `texts` were queued on the session at `i`, if it is open.
pub open spec fn answer_all(r: RegistryView, i: int, texts: Seq<Seq<char>>) -> RegistryView {
    if r.sessions[i].open {
        with_session(r, i, SessionView { outbox: r.sessions[i].outbox + texts, ..r.sessions[i] })
    } else {
        r
    }
}

/// `r` after `text` was queued on the session at `i`, if it is open.
pub open spec fn answer(r: RegistryView, i: int, text: Seq<char>) -> RegistryView {
    with_session(r, i, queued(r.sessions[i], text))
}

/// The WHO replies: one per logged-in session, with its identity, a
/// CONSUME marker where it consumes, and its peer address.
pub open spec fn who_lines(s: Seq<SessionView>, req: Option<u32>) -> Seq<Seq<char>>
    decreases s.len(),
{
    if s.len() == 0 {
        Seq::empty()
    } else {
        let prev = who_lines(s.drop_last(), req);
        let x = s.last();
        match x.state.name {
            Some(n) => prev.push(
                reply_text(
                    req,
                    true,
                    "WHO"@,
                    if x.state.consume {
                        seq![n, "CONSUME"@]
                    } else {
                        seq![n]
                    },
                    Some(x.peer),
                ),
            ),
            None => prev,
        }
    }
}

pub open spec fn login_step(r: RegistryView, i: int, m: MessageView) -> (RegistryView, ActionView) {
    let st = r.sessions[i].state;
    if m.arguments.len() == 0 {
        (answer(r, i, failure_text(m.id, "LOGIN"@, Failure::MissingArg, None)), ActionView::Continue)
    } else {
        match st.name {
            Some(n) => (
                answer(
                    r,
                    i,
                    failure_text(
                        m.id,
                        "LOGIN"@,
                        Failure::AlreadyLoggedIn,
                        Some("You are already logged in as "@ + n + ". Please reconnect."@),
                    ),
                ),
                ActionView::Continue,
            ),
            None => (
                answer(
                    with_state(r, i, ClientStateView { name: Some(m.arguments[0]), ..st }),
                    i,
                    reply_text(m.id, true, "LOGIN"@, Seq::empty(), Some("Welcome "@ + m.arguments[0])),
                ),
                ActionView::Continue,
            ),
        }
    }
}

/// Whether a BODY request starts the body over: its first argument, in
/// Unicode upper case, is RST.
pub open spec fn body_resets(m: MessageView) -> bool {
    m.arguments.len() > 0 && upper_of(m.arguments[0]) == "RST"@
}

pub open spec fn body_step(r: RegistryView, i: int, m: MessageView) -> RegistryView {
    let st = r.sessions[i].state;
    let d = st.details;
    match m.trailing {
        Some(t) => with_state(
            r,
            i,
            ClientStateView {
                details: DetailsView { body: Some(body_after(d.body, t, body_resets(m))), ..d },
                ..st
            },
        ),
        None => if body_resets(m) {
            with_state(r, i, ClientStateView { details: DetailsView { body: None, ..d }, ..st })
        } else {
            answer(r, i, failure_text(m.id, "BODY"@, Failure::MissingTrailing, None))
        },
    }
}

/// The argument of CONSUME in Unicode lower case; `on` when there is none.
pub open spec fn consume_arg(m: MessageView) -> Seq<char> {
    if m.arguments.len() > 0 {
        lower_of(m.arguments[0])
    } else {
        "on"@
    }
}

/// What a lower-cased CONSUME argument asks for: `on` or `true` to
/// consume, `off` or `false` not to, anything else nothing.
pub open spec fn consume_value(a: Seq<char>) -> Option<bool> {
    if a == "on"@ || a == "true"@ {
        Some(true)
    } else if a == "off"@ || a == "false"@ {
        Some(false)
    } else {
        None
    }
}

pub open spec fn consume_step(r: RegistryView, i: int, m: MessageView) -> RegistryView {
    let st = r.sessions[i].state;
    let a = consume_arg(m);
    if consume_value(a) is Some {
        answer(
            with_state(r, i, ClientStateView { consume: consume_value(a)->Some_0, ..st }),
            i,
            reply_text(m.id, true, "CONSUME"@, seq![a], None),
        )
    } else {
        answer(r, i, failure_text(m.id, "CONSUME"@, Failure::InvalidArg, None))
    }
}

/// SEND: the session's notification gets the next id and its author, its
/// frame is queued on every eligible session, the sender learns on how
/// many, and its builder starts over. The sender is no special case: it
/// gets its own frame exactly when it is eligible itself. With a history store attached the
/// notification is handed out to be saved.
pub open spec fn send_step(r: RegistryView, i: int, req: Option<u32>) -> (RegistryView, ActionView) {
    let x = r.sessions[i];
    let user = x.state.name->Some_0;
    if r.counter == usize::MAX {
        (answer(r, i, failure_text(req, "SEND"@, Failure::NoId, None)), ActionView::Continue)
    } else {
        let id = r.counter;
        let d = x.state.details;
        let delivered = deliver(r.sessions, notify_frame(user, id as nat, d));
        let y = delivered[i];
        let sent = RegistryView {
            sessions: delivered.update(
                i,
                queued(
                    SessionView { state: ClientStateView { details: empty_details(), ..y.state }, ..y },
                    reply_text(req, true, "SEND"@, seq![decimal(eligible_count(r.sessions))], None),
                ),
            ),
            counter: (id + 1) as usize,
            db: r.db,
        };
        (sent, if r.db {
            ActionView::Persist(DetailsView { user: Some(user), id: Some(id), ..d })
        } else {
            ActionView::Continue
        })
    }
}

/// What a logged-in session's request does.
pub open spec fn command_step(r: RegistryView, i: int, m: MessageView) -> (RegistryView, ActionView) {
    let x = r.sessions[i];
    let st = x.state;
    let cmd = upper(m.command);
    if cmd == "TITLE"@ {
        match m.trailing {
            Some(t) => (
                with_state(r, i, ClientStateView { details: DetailsView { title: Some(t), ..st.details }, ..st }),
                ActionView::Continue,
            ),
            None => (answer(r, i, failure_text(m.id, "TITLE"@, Failure::MissingTrailing, None)), ActionView::Continue),
        }
    } else if cmd == "BODY"@ {
        (body_step(r, i, m), ActionView::Continue)
    } else if cmd == "SEND"@ {
        send_step(r, i, m.id)
    } else if cmd == "RESET"@ {
        (with_state(r, i, ClientStateView { details: empty_details(), ..st }), ActionView::Continue)
    } else if cmd == "VERSION"@ {
        (answer(r, i, reply_text(m.id, true, "VERSION"@, seq![PACKAGE_NAME@, PACKAGE_VERSION@], None)), ActionView::Continue)
    } else if cmd == "CONSUME"@ {
        (consume_step(r, i, m), ActionView::Continue)
    } else if cmd == "QUIT"@ {
        (r, ActionView::Close)
    } else if cmd == "HISTORY"@ {
        if r.db {
            (r, ActionView::LoadHistory(m.id))
        } else {
            (answer(r, i, failure_text(m.id, "HISTORY"@, Failure::NoDb, None)), ActionView::Continue)
        }
    } else if cmd == "WHO"@ {
        (
            answer_all(r, i, who_lines(r.sessions, m.id).push(reply_text(m.id, true, "WHO"@, seq!["END"@], None))),
            ActionView::Continue,
        )
    } else {
        (
            answer(r, i, failure_text(m.id, "ERR"@, Failure::UnknownCmd, Some("I do not know "@ + cmd))),
            ActionView::Continue,
        )
    }
}

/// What one message does to the registry when the session `key` sends it.
/// Replies are refused; LOGIN is the only request before logging in.
pub open spec fn transition(r: RegistryView, key: u64, m: MessageView) -> (RegistryView, ActionView) {
    let i = index_of(r.sessions, key);
    if i >= r.sessions.len() {
        (r, ActionView::Continue)
    } else if m.sign is Some {
        (
            answer(
                r,
                i,
                failure_text(m.id, "ERR"@, Failure::InvalidMessage, Some("You can't send a reply message to a server."@)),
            ),
            ActionView::Continue,
        )
    } else if upper(m.command) == "LOGIN"@ {
        login_step(r, i, m)
    } else if r.sessions[i].state.name is None {
        (answer(r, i, failure_text(m.id, "ERR"@, Failure::NoLogin, Some("Please login first."@))), ActionView::Continue)
    } else {
        command_step(r, i, m)
    }
}

/// A failure reply.
pub fn failure_reply(id: Option<u32>, command: &str, f: Failure, trailing: Option<&str>) -> (r: String)
    ensures
        r@ == failure_text(id, command@, f, opt_str_view(trailing)),
{
    let args = vec![f.code()];
    assert(strs_view(args@) =~= seq![failure_code(f)]);
    reply(id, false, command, args, trailing)
}

impl ServerState {
    fn take_client(&mut self, i: usize) -> (c: ClientHandle)
        requires
            i < old(self)@.sessions.len(),
        ensures
            c@ == old(self)@.sessions[i as int],
            final(self)@ == (RegistryView { sessions: old(self)@.sessions.remove(i as int), ..old(self)@ }),
    {
        let ghost before = self.clients@;
        let c = self.clients.remove(i);
        assert(sessions_view(self.clients@) =~= sessions_view(before).remove(i as int));
        c
    }

    fn put_client(&mut self, i: usize, c: ClientHandle)
        requires
            i <= old(self)@.sessions.len(),
        ensures
            final(self)@ == (RegistryView { sessions: old(self)@.sessions.insert(i as int, c@), ..old(self)@ }),
    {
        let ghost before = self.clients@;
        self.clients.insert(i, c);
        assert(sessions_view(self.clients@) =~= sessions_view(before).insert(i as int, c@));
    }

    fn login(&mut self, i: usize, m: &Message) -> (r: Action)
        requires
            i < old(self)@.sessions.len(),
        ensures
            (final(self)@, r@) == login_step(old(self)@, i as int, m@),
    {
        let ghost r0 = self@;
        if m.arguments.len() == 0 {
            self.write_to(i, failure_reply(m.id, "LOGIN", Failure::MissingArg, None));
            return Action::Continue;
        }
        let mut c = self.take_client(i);
        match &c.state.name {
            Some(n) => {
                let mut text = String::from_str("You are already logged in as ");
                text.append(n.as_str());
                text.append(". Please reconnect.");
                c.write(failure_reply(m.id, "LOGIN", Failure::AlreadyLoggedIn, Some(text.as_str())));
            },
            None => {
                c.state.name = Some(m.arguments[0].clone());
                let mut text = String::from_str("Welcome ");
                text.append(m.arguments[0].as_str());
                let args: Vec<&str> = Vec::new();
                assert(strs_view(args@) =~= Seq::<Seq<char>>::empty());
                c.write(reply(m.id, true, "LOGIN", args, Some(text.as_str())));
            },
        }
        let ghost placed = c@;
        self.put_client(i, c);
        proof {
            assert(r0.sessions.remove(i as int).insert(i as int, placed) =~= r0.sessions.update(i as int, placed));
            assert(placed == login_step(r0, i as int, m@).0.sessions[i as int]);
            assert(self@.sessions =~= login_step(r0, i as int, m@).0.sessions);
        }
        Action::Continue
    }
}

proof fn lemma_remove_insert(s: Seq<SessionView>, i: int, x: SessionView)
    requires
        0 <= i < s.len(),
    ensures
        s.remove(i).insert(i, x) == s.update(i, x),
{
    assert(s.remove(i).insert(i, x) =~= s.update(i, x));
}

/// Whether an argument already in upper case is the word RST.
pub fn is_reset_word(folded: &str) -> (r: bool)
    ensures
        r == (folded@ == "RST"@),
{
    same_text(folded, "RST")
}

/// What a CONSUME argument already in lower case asks for.
pub fn consume_choice(folded: &str) -> (r: Option<bool>)
    ensures
        r == consume_value(folded@),
{
    if same_text(folded, "on") || same_text(folded, "true") {
        Some(true)
    } else if same_text(folded, "off") || same_text(folded, "false") {
        Some(false)
    } else {
        None
    }
}

/// Whether the first argument, in upper case, is RST.
fn first_is_rst(m: &Message) -> (r: bool)
    ensures
        r == body_resets(m@),
{
    if m.arguments.len() == 0 {
        return false;
    }
    let a = unicode_upper(m.arguments[0].as_str());
    is_reset_word(a.as_str())
}

impl ServerState {
    fn title(&mut self, i: usize, m: &Message)
        requires
            i < old(self)@.sessions.len(),
            upper(m@.command) == "TITLE"@,
        ensures
            final(self)@ == command_step(old(self)@, i as int, m@).0,
    {
        let ghost r0 = self@;
        match &m.trailing {
            Some(t) => {
                let mut c = self.take_client(i);
                c.state.details.set_title(t.clone());
                let ghost placed = c@;
                self.put_client(i, c);
                proof {
                    lemma_remove_insert(r0.sessions, i as int, placed);
                    assert(self@.sessions =~= command_step(r0, i as int, m@).0.sessions);
                }
            },
            None => {
                self.write_to(i, failure_reply(m.id, "TITLE", Failure::MissingTrailing, None));
            },
        }
    }

    fn body(&mut self, i: usize, m: &Message)
        requires
            i < old(self)@.sessions.len(),
        ensures
            final(self)@ == body_step(old(self)@, i as int, m@),
    {
        let ghost r0 = self@;
        let reset = first_is_rst(m);
        match &m.trailing {
            Some(t) => {
                let mut c = self.take_client(i);
                c.state.details.append_body(t, reset);
                let ghost placed = c@;
                self.put_client(i, c);
                proof {
                    lemma_remove_insert(r0.sessions, i as int, placed);
                    assert(self@.sessions =~= body_step(r0, i as int, m@).sessions);
                }
            },
            None => {
                if reset {
                    let mut c = self.take_client(i);
                    c.state.details.clear_body();
                    let ghost placed = c@;
                    self.put_client(i, c);
                    proof {
                        lemma_remove_insert(r0.sessions, i as int, placed);
                        assert(self@.sessions =~= body_step(r0, i as int, m@).sessions);
                    }
                } else {
                    self.write_to(i, failure_reply(m.id, "BODY", Failure::MissingTrailing, None));
                }
            },
        }
    }

    fn reset_builder(&mut self, i: usize)
        requires
            i < old(self)@.sessions.len(),
        ensures
            final(self)@ == with_state(
                old(self)@,
                i as int,
                ClientStateView { details: empty_details(), ..old(self)@.sessions[i as int].state },
            ),
    {
        let ghost r0 = self@;
        let mut c = self.take_client(i);
        c.state.details.reset();
        let ghost placed = c@;
        self.put_client(i, c);
        proof {
            lemma_remove_insert(r0.sessions, i as int, placed);
        }
    }

    fn consume(&mut self, i: usize, m: &Message)
        requires
            i < old(self)@.sessions.len(),
        ensures
            final(self)@ == consume_step(old(self)@, i as int, m@),
    {
        let ghost r0 = self@;
        let a = if m.arguments.len() > 0 {
            unicode_lower(m.arguments[0].as_str())
        } else {
            String::from_str("on")
        };
        if let Some(on) = consume_choice(a.as_str()) {
            let mut c = self.take_client(i);
            c.state.consume = on;
            let args = vec![a.as_str()];
            assert(strs_view(args@) =~= seq![a@]);
            c.write(reply(m.id, true, "CONSUME", args, None));
            let ghost placed = c@;
            self.put_client(i, c);
            proof {
                lemma_remove_insert(r0.sessions, i as int, placed);
                assert(self@.sessions =~= consume_step(r0, i as int, m@).sessions);
            }
        } else {
            self.write_to(i, failure_reply(m.id, "CONSUME", Failure::InvalidArg, None));
        }
    }

    /// The WHO replies for the request `req`.
    fn who_replies(&self, req: Option<u32>) -> (r: Vec<String>)
        ensures
            strings_view(r@) == who_lines(self@.sessions, req),
    {
        let mut v: Vec<String> = Vec::new();
        let mut i: usize = 0;
        while i < self.clients.len()
            invariant
                i <= self.clients@.len(),
                strings_view(v@) == who_lines(self@.sessions.take(i as int), req),
            decreases self.clients@.len() - i,
        {
            let ghost before = v@;
            let c = &self.clients[i];
            match &c.state.name {
                Some(login) => {
                    let args = if c.state.consume {
                        vec![login.as_str(), "CONSUME"]
                    } else {
                        vec![login.as_str()]
                    };
                    assert(strs_view(args@) =~= (if c.state.consume {
                        seq![login@, "CONSUME"@]
                    } else {
                        seq![login@]
                    }));
                    let text = reply(req, true, "WHO", args, Some(c.peer.as_str()));
                    v.push(text);
                    assert(strings_view(v@) =~= strings_view(before).push(text@));
                },
                None => {},
            }
            proof {
                assert(self@.sessions.take(i + 1).drop_last() =~= self@.sessions.take(i as int));
            }
            i = i + 1;
        }
        assert(self@.sessions.take(i as int) =~= self@.sessions);
        v
    }

    /// Queues every text of `texts` on the session at `i`, in order.
    fn write_all_to(&mut self, i: usize, texts: Vec<String>)
        requires
            i < old(self)@.sessions.len(),
        ensures
            final(self)@ == answer_all(old(self)@, i as int, strings_view(texts@)),
    {
        let ghost r0 = self@;
        let mut c = self.take_client(i);
        let mut k: usize = 0;
        assert(r0.sessions[i as int].outbox + strings_view(texts@.take(0)) =~= r0.sessions[i as int].outbox);
        while k < texts.len()
            invariant
                k <= texts@.len(),
                i < r0.sessions.len(),
                c@ == (if r0.sessions[i as int].open {
                    SessionView { outbox: r0.sessions[i as int].outbox + strings_view(texts@.take(k as int)), ..r0.sessions[i as int] }
                } else {
                    r0.sessions[i as int]
                }),
            decreases texts@.len() - k,
        {
            c.write(texts[k].clone());
            proof {
                assert(strings_view(texts@.take(k + 1)) =~= strings_view(texts@.take(k as int)).push(texts@[k as int]@));
                assert(r0.sessions[i as int].outbox + strings_view(texts@.take(k + 1)) =~= (r0.sessions[i as int].outbox
                    + strings_view(texts@.take(k as int))).push(texts@[k as int]@));
            }
            k = k + 1;
        }
        assert(texts@.take(k as int) =~= texts@);
        let ghost placed = c@;
        self.put_client(i, c);
        proof {
            lemma_remove_insert(r0.sessions, i as int, placed);
            if !r0.sessions[i as int].open {
                assert(r0.sessions.update(i as int, placed) =~= r0.sessions);
            }
        }
    }

    fn answer_who(&mut self, i: usize, m: &Message)
        requires
            i < old(self)@.sessions.len(),
        ensures
            final(self)@ == answer_all(
                old(self)@,
                i as int,
                who_lines(old(self)@.sessions, m@.id).push(reply_text(m@.id, true, "WHO"@, seq!["END"@], None)),
            ),
    {
        let mut texts = self.who_replies(m.id);
        let args = vec!["END"];
        assert(strs_view(args@) =~= seq!["END"@]);
        let ghost before = texts@;
        let end = reply(m.id, true, "WHO", args, None);
        texts.push(end);
        assert(strings_view(texts@) =~= strings_view(before).push(end@));
        self.write_all_to(i, texts);
    }
}

pub open spec fn details_view(v: Seq<NotificationDetails>) -> Seq<DetailsView> {
    v.map_values(|d: NotificationDetails| d@)
}

/// The replies of a successful HISTORY: a group for each stored record,
/// oldest first, then `HISTORY END`.
pub open spec fn history_texts(req: Option<u32>, records: Seq<DetailsView>) -> Seq<Seq<char>> {
    records.map_values(|d: DetailsView| history_group(req, d)).push(
        reply_text(req, true, "HISTORY"@, seq!["END"@], None),
    )
}

/// What reading the history store does for the session `key`: the stored
/// records on success, DB_FAIL otherwise.
pub open spec fn history_step(
    r: RegistryView,
    key: u64,
    req: Option<u32>,
    records: Result<Seq<DetailsView>, ()>,
) -> RegistryView {
    let i = index_of(r.sessions, key);
    if i >= r.sessions.len() {
        r
    } else {
        match records {
            Ok(v) => answer_all(r, i, history_texts(req, v)),
            Err(_) => answer(r, i, failure_text(req, "HISTORY"@, Failure::DbFail, None)),
        }
    }
}

pub open spec fn records_view(records: Result<Vec<NotificationDetails>, StoreError>) -> Result<Seq<DetailsView>, ()> {
    match records {
        Ok(v) => Ok(details_view(v@)),
        Err(_) => Err(()),
    }
}

impl ServerState {
    fn send(&mut self, i: usize, req: Option<u32>) -> (r: Action)
        requires
            i < old(self)@.sessions.len(),
            old(self)@.sessions[i as int].state.name is Some,
        ensures
            (final(self)@, r@) == send_step(old(self)@, i as int, req),
    {
        let ghost r0 = self@;
        let user = match &self.clients[i].state.name {
            Some(u) => u.clone(),
            None => String::new(),
        };
        match next_id(self) {
            None => {
                self.write_to(i, failure_reply(req, "SEND", Failure::NoId, None));
                Action::Continue
            },
            Some(id) => {
                let details = self.clients[i].state.details.duplicate();
                let frame = notify_frame_text(&details, &user, id);
                let n = self.broadcast_notification(&frame);
                self.reset_builder(i);
                let count = decimal_string(n as u64);
                let args = vec![count.as_str()];
                assert(strs_view(args@) =~= seq![count@]);
                self.write_to(i, reply(req, true, "SEND", args, None));
                assert(self@.sessions =~= send_step(r0, i as int, req).0.sessions);
                if self.db {
                    Action::Persist(details.stamped(&user, id))
                } else {
                    Action::Continue
                }
            },
        }
    }

    /// Handles one message from the session `key`. Its replies, and any
    /// broadcast it makes, are queued on the sessions' outboxes; the result
    /// says what the connection's driver does next.
    pub fn handle_message(&mut self, key: u64, msg: Message) -> (r: Action)
        ensures
            (final(self)@, r@) == transition(old(self)@, key, msg@),
    {
        let i = match self.find(key) {
            Some(i) => i,
            None => return Action::Continue,
        };
        if msg.sign.is_some() {
            self.write_to(
                i,
                failure_reply(msg.id, "ERR", Failure::InvalidMessage, Some("You can't send a reply message to a server.")),
            );
            return Action::Continue;
        }
        let cmd = ascii_upper(msg.command.as_str());
        let c = cmd.as_str();
        if same_text(c, "LOGIN") {
            return self.login(i, &msg);
        }
        if self.clients[i].state.name.is_none() {
            self.write_to(i, failure_reply(msg.id, "ERR", Failure::NoLogin, Some("Please login first.")));
            return Action::Continue;
        }
        if same_text(c, "TITLE") {
            self.title(i, &msg);
            Action::Continue
        } else if same_text(c, "BODY") {
            self.body(i, &msg);
            Action::Continue
        } else if same_text(c, "SEND") {
            self.send(i, msg.id)
        } else if same_text(c, "RESET") {
            self.reset_builder(i);
            Action::Continue
        } else if same_text(c, "VERSION") {
            let args = vec![PACKAGE_NAME, PACKAGE_VERSION];
            assert(strs_view(args@) =~= seq![PACKAGE_NAME@, PACKAGE_VERSION@]);
            self.write_to(i, reply(msg.id, true, "VERSION", args, None));
            Action::Continue
        } else if same_text(c, "CONSUME") {
            self.consume(i, &msg);
            Action::Continue
        } else if same_text(c, "QUIT") {
            Action::Close
        } else if same_text(c, "HISTORY") {
            if self.db {
                Action::LoadHistory(msg.id)
            } else {
                self.write_to(i, failure_reply(msg.id, "HISTORY", Failure::NoDb, None));
                Action::Continue
            }
        } else if same_text(c, "WHO") {
            self.answer_who(i, &msg);
            Action::Continue
        } else {
            let mut text = String::from_str("I do not know ");
            text.append(c);
            self.write_to(i, failure_reply(msg.id, "ERR", Failure::UnknownCmd, Some(text.as_str())));
            Action::Continue
        }
    }

    /// Parses one line received from the session `key` and handles it.
    pub fn handle_line(&mut self, key: u64, raw: &str) -> (r: Action)
        ensures
            (final(self)@, r@) == transition(old(self)@, key, spec_line(raw@, false)->Ok_0.0),
    {
        match line(raw, false) {
            Ok((_rest, msg)) => self.handle_message(key, msg),
            // a line that need not end in a line break always parses
            Err(_) => Action::Continue,
        }
    }

    /// Answers the HISTORY request `req` of the session `key` with what the
    /// history store gave back.
    pub fn history_loaded(&mut self, key: u64, req: Option<u32>, records: Result<Vec<NotificationDetails>, StoreError>)
        ensures
            final(self)@ == history_step(old(self)@, key, req, records_view(records)),
    {
        let i = match self.find(key) {
            Some(i) => i,
            None => return ,
        };
        match records {
            Ok(v) => {
                let mut texts: Vec<String> = Vec::new();
                let mut k: usize = 0;
                while k < v.len()
                    invariant
                        k <= v@.len(),
                        strings_view(texts@) == details_view(v@.take(k as int)).map_values(
                            |d: DetailsView| history_group(req, d),
                        ),
                    decreases v@.len() - k,
                {
                    let ghost before = texts@;
                    let g = history_group_text(req, &v[k]);
                    texts.push(g);
                    proof {
                        assert(strings_view(texts@) =~= strings_view(before).push(g@));
                        assert(details_view(v@.take(k + 1)).map_values(|d: DetailsView| history_group(req, d))
                            =~= details_view(v@.take(k as int)).map_values(|d: DetailsView| history_group(req, d)).push(
                            history_group(req, v@[k as int]@),
                        ));
                    }
                    k = k + 1;
                }
                assert(v@.take(k as int) =~= v@);
                let args = vec!["END"];
                assert(strs_view(args@) =~= seq!["END"@]);
                let ghost before = texts@;
                let end = reply(req, true, "HISTORY", args, None);
                texts.push(end);
                assert(strings_view(texts@) =~= strings_view(before).push(end@));
                self.write_all_to(i, texts);
            },
            Err(_) => {
                self.write_to(i, failure_reply(req, "HISTORY", Failure::DbFail, None));
            },
        }
    }
}

/// Before LOGIN, every request but LOGIN is answered with NO_LOGIN (queued
/// while the connection is open) and changes nothing else: no session's state, no other outbox, not the id
/// counter.
pub proof fn lemma_login_first(r: RegistryView, key: u64, m: MessageView)
    requires
        index_of(r.sessions, key) < r.sessions.len(),
        r.sessions[index_of(r.sessions, key)].state.name is None,
        m.sign is None,
        upper(m.command) != "LOGIN"@,
    ensures
        ({
            let i = index_of(r.sessions, key);
            let (r2, a) = transition(r, key, m);
            &&& a == ActionView::Continue
            &&& r2.counter == r.counter
            &&& r2.db == r.db
            &&& r2.sessions.len() == r.sessions.len()
            &&& forall|j: int| 0 <= j < r.sessions.len() && j != i ==> r2.sessions[j] == r.sessions[j]
            &&& r2.sessions[i].key == key
            &&& r2.sessions[i].state == r.sessions[i].state
            &&& r2.sessions[i] == queued(
                r.sessions[i],
                failure_text(m.id, "ERR"@, Failure::NoLogin, Some("Please login first."@)),
            )
        }),
{
    lemma_find_from(r.sessions, key, 0);
}

proof fn lemma_deliver_keeps_state(s: Seq<SessionView>, frame: Seq<char>)
    ensures
        deliver(s, frame).len() == s.len(),
        forall|j: int| 0 <= j < s.len() ==> (#[trigger] deliver(s, frame)[j]).state == s[j].state
            && deliver(s, frame)[j].key == s[j].key,
{
}

/// An identity is set at most once: whatever a logged-in session sends,
/// LOGIN under another name included, it keeps its identity, and every
/// other session keeps its own.
pub proof fn lemma_identity_kept(r: RegistryView, key: u64, m: MessageView)
    ensures
        transition(r, key, m).0.sessions.len() == r.sessions.len(),
        forall|j: int|
            0 <= j < r.sessions.len() && (#[trigger] r.sessions[j]).state.name is Some ==> transition(
                r,
                key,
                m,
            ).0.sessions[j].state.name == r.sessions[j].state.name,
{
    lemma_find_from(r.sessions, key, 0);
    let i = index_of(r.sessions, key);
    if i < r.sessions.len() {
        let x = r.sessions[i];
        let frame = notify_frame(x.state.name->Some_0, r.counter as nat, x.state.details);
        lemma_deliver_keeps_state(r.sessions, frame);
    }
}

/// The id counter never moves back, and a message moves it by one at most.
/// It moves only on a SEND of a logged-in session, which signs its
/// notification with the id that the counter held.
pub proof fn lemma_counter_step(r: RegistryView, key: u64, m: MessageView)
    ensures
        transition(r, key, m).0.counter == r.counter || transition(r, key, m).0.counter == r.counter + 1,
        transition(r, key, m).0.counter != r.counter ==> {
            let i = index_of(r.sessions, key);
            &&& 0 <= i < r.sessions.len()
            &&& r.sessions[i].state.name is Some
            &&& m.sign is None
            &&& upper(m.command) == "SEND"@
            &&& transition(r, key, m) == send_step(r, i, m.id)
        },
{
    lemma_find_from(r.sessions, key, 0);
}

/// A run of the registry: each state follows from the one before by one
/// message of some session.
pub open spec fn is_run(states: Seq<RegistryView>, keys: Seq<u64>, msgs: Seq<MessageView>) -> bool {
    &&& states.len() == keys.len() + 1
    &&& msgs.len() == keys.len()
    &&& forall|k: int| 0 <= k < keys.len() ==> #[trigger] states[k + 1] == transition(states[k], keys[k], msgs[k]).0
}

/// Step `k` of a run issues a notification id: the counter it started from.
pub open spec fn issues_id(states: Seq<RegistryView>, k: int) -> bool {
    states[k + 1].counter != states[k].counter
}

proof fn lemma_run_counter(states: Seq<RegistryView>, keys: Seq<u64>, msgs: Seq<MessageView>, a: int, b: int)
    requires
        is_run(states, keys, msgs),
        0 <= a <= b <= keys.len(),
    ensures
        states[a].counter <= states[b].counter,
    decreases b - a,
{
    if a < b {
        lemma_run_counter(states, keys, msgs, a, b - 1);
        lemma_counter_step(states[b - 1], keys[b - 1], msgs[b - 1]);
        assert(states[(b - 1) + 1] == transition(states[b - 1], keys[b - 1], msgs[b - 1]).0);
    }
}

/// Notification ids issued in one run are pairwise distinct and increase
/// in the order they were issued, whichever sessions sent them.
pub proof fn lemma_ids_increase(states: Seq<RegistryView>, keys: Seq<u64>, msgs: Seq<MessageView>, a: int, b: int)
    requires
        is_run(states, keys, msgs),
        0 <= a < b < keys.len(),
        issues_id(states, a),
        issues_id(states, b),
    ensures
        states[a].counter < states[b].counter,
{
    lemma_counter_step(states[a], keys[a], msgs[a]);
    assert(states[a + 1] == transition(states[a], keys[a], msgs[a]).0);
    lemma_run_counter(states, keys, msgs, a + 1, b);
}

/// The command words that dispatch tests are told apart by their length
/// or their first letter.
proof fn lemma_command_words(c: Seq<char>)
    ensures
        c == "HISTORY"@ ==> c != "LOGIN"@ && c != "TITLE"@ && c != "BODY"@ && c != "SEND"@ && c != "RESET"@
            && c != "VERSION"@ && c != "CONSUME"@ && c != "QUIT"@,
        c == "BODY"@ ==> c != "LOGIN"@ && c != "TITLE"@,
        c == "SEND"@ ==> c != "LOGIN"@ && c != "TITLE"@ && c != "BODY"@,
{
    reveal_strlit("HISTORY");
    reveal_strlit("LOGIN");
    reveal_strlit("TITLE");
    reveal_strlit("BODY");
    reveal_strlit("SEND");
    reveal_strlit("RESET");
    reveal_strlit("VERSION");
    reveal_strlit("CONSUME");
    reveal_strlit("QUIT");
    if c == "HISTORY"@ {
        assert(c.len() == 7 && c[0] == 'H');
    }
    if c == "BODY"@ {
        assert(c.len() == 4);
    }
    if c == "SEND"@ {
        assert(c.len() == 4 && c[0] == 'S');
    }
}

/// SEND from a logged-in session while ids are left: its frame, signed
/// with the counter, is queued on exactly the sessions that are logged in,
/// consume and are open (the sender too when it is one of them), and the
/// sender is told how many those are.
pub proof fn lemma_send_reaches_eligible(r: RegistryView, key: u64, m: MessageView)
    requires
        index_of(r.sessions, key) < r.sessions.len(),
        r.sessions[index_of(r.sessions, key)].state.name is Some,
        m.sign is None,
        upper(m.command) == "SEND"@,
        r.counter < usize::MAX,
    ensures
        ({
            let i = index_of(r.sessions, key);
            let x = r.sessions[i];
            let frame = notify_frame(x.state.name->Some_0, r.counter as nat, x.state.details);
            let r2 = transition(r, key, m).0;
            &&& r2.sessions.len() == r.sessions.len()
            &&& r2.counter == r.counter + 1
            &&& forall|j: int|
                0 <= j < r.sessions.len() && j != i ==> (#[trigger] r2.sessions[j]).outbox == (if eligible(
                    r.sessions[j],
                ) {
                    r.sessions[j].outbox.push(frame)
                } else {
                    r.sessions[j].outbox
                })
            &&& r2.sessions[i].outbox == queued(
                SessionView {
                    outbox: if eligible(x) {
                        x.outbox.push(frame)
                    } else {
                        x.outbox
                    },
                    ..x
                },
                reply_text(m.id, true, "SEND"@, seq![decimal(eligible_count(r.sessions))], None),
            ).outbox
            &&& r2.sessions[i].state.details == empty_details()
        }),
{
    lemma_find_from(r.sessions, key, 0);
    lemma_command_words(upper(m.command));
}

/// Body lines accumulate: on an empty body, BODY with `a` and then with
/// `b` (no RST) make the body `a\nb\n`, whose lines are `a` and `b`; a SEND
/// after them puts one BODY line for each in its frame.
pub proof fn lemma_body_lines_accumulate(
    r0: RegistryView,
    key: u64,
    m1: MessageView,
    m2: MessageView,
    m3: MessageView,
)
    requires
        index_of(r0.sessions, key) < r0.sessions.len(),
        r0.sessions[index_of(r0.sessions, key)].state.name is Some,
        r0.sessions[index_of(r0.sessions, key)].state.details.body is None,
        m1.sign is None,
        upper(m1.command) == "BODY"@,
        !body_resets(m1),
        m1.trailing is Some,
        m2.sign is None,
        upper(m2.command) == "BODY"@,
        !body_resets(m2),
        m2.trailing is Some,
        m3.sign is None,
        upper(m3.command) == "SEND"@,
        r0.counter < usize::MAX,
    ensures
        ({
            let i = index_of(r0.sessions, key);
            let a = m1.trailing->Some_0;
            let b = m2.trailing->Some_0;
            let r1 = transition(r0, key, m1).0;
            let r2 = transition(r1, key, m2).0;
            let d = r2.sessions[i].state.details;
            &&& index_of(r2.sessions, key) == i
            &&& d.body == Some(a.push('\n') + b.push('\n'))
            &&& (all_in(a, CharClass::Text) && all_in(b, CharClass::Text)) ==> frame_body(d) == "BODY: "@ + a
                + crlf() + "BODY: "@ + b + crlf()
            &&& transition(r2, key, m3) == send_step(r2, i, m3.id)
            &&& send_step(r2, i, m3.id).0.sessions[i].state.details == empty_details()
        }),
{
    let i = index_of(r0.sessions, key);
    lemma_find_from(r0.sessions, key, 0);
    lemma_command_words(upper(m1.command));
    lemma_command_words(upper(m3.command));
    let r1 = transition(r0, key, m1).0;
    assert(r1.sessions.len() == r0.sessions.len());
    assert forall|j: int| 0 <= j < r0.sessions.len() implies #[trigger] r1.sessions[j].key == r0.sessions[j].key by {}
    assert(index_of(r1.sessions, key) == i) by {
        lemma_find_from(r1.sessions, key, 0);
    }
    let r2 = transition(r1, key, m2).0;
    assert(r2.sessions.len() == r1.sessions.len());
    assert forall|j: int| 0 <= j < r1.sessions.len() implies #[trigger] r2.sessions[j].key == r1.sessions[j].key by {}
    assert(index_of(r2.sessions, key) == i) by {
        lemma_find_from(r2.sessions, key, 0);
    }
    let a = m1.trailing->Some_0;
    let b = m2.trailing->Some_0;
    assert(r2.sessions[i].state.details.body == Some(a.push('\n') + b.push('\n')));
    if all_in(a, CharClass::Text) && all_in(b, CharClass::Text) {
        lemma_two_lines(a, b);
        let lines = seq![a, b];
        assert(lines.drop_last() =~= seq![a]);
        assert(seq![a].drop_last() =~= Seq::<Seq<char>>::empty());
        let pre = "BODY: "@;
        assert(prefixed_lines(pre, Seq::<Seq<char>>::empty()) == Seq::<char>::empty());
        assert(prefixed_lines(pre, seq![a]) == prefixed_lines(pre, Seq::<Seq<char>>::empty()) + pre + a + crlf());
        assert(prefixed_lines(pre, seq![a]) =~= pre + a + crlf());
        assert(prefixed_lines(pre, lines) == prefixed_lines(pre, seq![a]) + pre + b + crlf());
        assert(prefixed_lines(pre, lines) =~= pre + a + crlf() + pre + b + crlf());
    }
}

/// BODY RST with text `c` starts the body over as `c\n`, whatever it
/// held before.
pub proof fn lemma_body_restart(r: RegistryView, key: u64, m: MessageView)
    requires
        index_of(r.sessions, key) < r.sessions.len(),
        r.sessions[index_of(r.sessions, key)].state.name is Some,
        m.sign is None,
        upper(m.command) == "BODY"@,
        body_resets(m),
        m.trailing is Some,
    ensures
        transition(r, key, m).0.sessions[index_of(r.sessions, key)].state.details.body == Some(
            m.trailing->Some_0.push('\n'),
        ),
{
    lemma_find_from(r.sessions, key, 0);
    lemma_command_words(upper(m.command));
}

/// HISTORY without a history store is answered with NO_DB; with one, the
/// store is read, and an empty store gives nothing but `HISTORY END`.
pub proof fn lemma_history(r: RegistryView, key: u64, m: MessageView)
    requires
        index_of(r.sessions, key) < r.sessions.len(),
        r.sessions[index_of(r.sessions, key)].state.name is Some,
        m.sign is None,
        upper(m.command) == "HISTORY"@,
    ensures
        ({
            let i = index_of(r.sessions, key);
            &&& !r.db ==> transition(r, key, m) == (
                answer(r, i, failure_text(m.id, "HISTORY"@, Failure::NoDb, None)),
                ActionView::Continue,
            )
            &&& r.db ==> transition(r, key, m) == (r, ActionView::LoadHistory(m.id))
            &&& history_step(r, key, m.id, Ok(Seq::empty())) == answer_all(
                r,
                i,
                seq![reply_text(m.id, true, "HISTORY"@, seq!["END"@], None)],
            )
        }),
{
    let i = index_of(r.sessions, key);
    lemma_command_words(upper(m.command));
    assert(Seq::<DetailsView>::empty().map_values(|d: DetailsView| history_group(m.id, d)) =~= Seq::<Seq<char>>::empty());
    assert(history_texts(m.id, Seq::empty()) =~= seq![reply_text(m.id, true, "HISTORY"@, seq!["END"@], None)]);
}

} // verus!
