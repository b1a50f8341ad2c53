//! The forwarding client: it logs in, asks for broadcasts, and turns the
//! frames it receives back into notifications for the local display.

use vstd::prelude::*;
use crate::text::{chars_of, upper, ascii_upper, same_text, digits_value, is_digit, lemma_digits_value_grows};
use crate::protocol::{Message, MessageView};
use crate::notifications::{NotificationDetails, DetailsView, empty_details, body_after};

verus! {

/// The value of a non-empty run of decimal digits that fits in a `usize`.
pub open spec fn decimal_value(s: Seq<char>) -> Option<usize> {
    if 0 < s.len() && (forall|i: int| 0 <= i < s.len() ==> is_digit(#[trigger] s[i])) && digits_value(s)
        <= usize::MAX {
        Some(digits_value(s) as usize)
    } else {
        None
    }
}

/// A notification id as text: decimal digits, optionally behind a `+`.
pub open spec fn id_value(s: Seq<char>) -> Option<usize> {
    if s.len() > 0 && s[0] == '+' {
        decimal_value(s.drop_first())
    } else {
        decimal_value(s)
    }
}

/// Reads a notification id.
pub fn parse_decimal(s: &str) -> (r: Option<usize>)
    ensures
        r == id_value(s@),
{
    let mut v = chars_of(s);
    if v.len() > 0 && v[0] == '+' {
        let _sign = v.remove(0);
        assert(v@ =~= s@.drop_first());
    }
    digits_of(&v)
}

/// The value of the digits `v`.
fn digits_of(v: &Vec<char>) -> (r: Option<usize>)
    ensures
        r == decimal_value(v@),
{
    if v.len() == 0 {
        return None;
    }
    let mut acc: usize = 0;
    let mut i: usize = 0;
    assert(v@.take(0) =~= Seq::<char>::empty());
    while i < v.len()
        invariant
            i <= v@.len(),
            v@.len() > 0,
            forall|m: int| 0 <= m < i ==> is_digit(#[trigger] v@[m]),
            acc == digits_value(v@.take(i as int)),
        decreases v@.len() - i,
    {
        let c = v[i];
        if !('0' <= c && c <= '9') {
            return None;
        }
        let d: usize = ((c as u8) - 48) as usize;
        proof {
            let next = v@.take(i + 1);
            assert(next.drop_last() =~= v@.take(i as int));
            assert(next.last() == c);
            lemma_digits_value_grows(v@, i + 1);
        }
        if acc > (usize::MAX - d) / 10 {
            assert(acc * 10 + d > usize::MAX) by (nonlinear_arith)
                requires
                    acc > (usize::MAX - d) / 10,
                    d <= 9,
            ;
            return None;
        }
        assert(acc * 10 + d <= usize::MAX) by (nonlinear_arith)
            requires
                acc <= (usize::MAX - d) / 10,
                d <= 9,
        ;
        acc = acc * 10 + d;
        i = i + 1;
    }
    assert(v@.take(i as int) =~= v@);
    Some(acc)
}

/// The forwarding client's progress through the frames it receives.
#[derive(Debug)]
pub struct Forwarder {
    /// The notification whose frame is being read.
    pub details: Option<NotificationDetails>,
    /// Whether the server has confirmed the login.
    pub logged_in: bool,
}

pub struct ForwarderView {
    pub details: Option<DetailsView>,
    pub logged_in: bool,
}

pub open spec fn opt_details_view(d: Option<NotificationDetails>) -> Option<DetailsView> {
    match d {
        Some(x) => Some(x@),
        None => None,
    }
}

impl View for Forwarder {
    type V = ForwarderView;

    open spec fn view(&self) -> ForwarderView {
        ForwarderView { details: opt_details_view(self.details), logged_in: self.logged_in }
    }
}

/// What the forwarding client does after a frame line.
#[derive(Debug)]
pub enum Event {
    Nothing,
    /// The server confirmed the login, for the first time.
    LoggedIn,
    /// A whole notification arrived: show it.
    Display(NotificationDetails),
}

pub enum EventView {
    Nothing,
    LoggedIn,
    Display(DetailsView),
}

impl View for Event {
    type V = EventView;

    open spec fn view(&self) -> EventView {
        match self {
            Event::Nothing => EventView::Nothing,
            Event::LoggedIn => EventView::LoggedIn,
            Event::Display(d) => EventView::Display(d@),
        }
    }
}

/// How one received line moves the forwarding client on. NOTIFY_START
/// opens a notification with its author and id, TITLE and BODY fill it in,
/// NOTIFY_END hands it out; a positive LOGIN reply confirms the login.
pub open spec fn forward_step(f: ForwarderView, m: MessageView) -> (ForwarderView, EventView) {
    let cmd = upper(m.command);
    if cmd == "NOTIFY_START"@ {
        (
            ForwarderView {
                details: Some(
                    DetailsView {
                        user: if m.arguments.len() > 0 {
                            Some(m.arguments[0])
                        } else {
                            None
                        },
                        id: if m.arguments.len() > 1 {
                            id_value(m.arguments[1])
                        } else {
                            None
                        },
                        ..empty_details()
                    },
                ),
                ..f
            },
            EventView::Nothing,
        )
    } else if cmd == "TITLE"@ {
        match f.details {
            Some(d) => (ForwarderView { details: Some(DetailsView { title: m.trailing, ..d }), ..f }, EventView::Nothing),
            None => (f, EventView::Nothing),
        }
    } else if cmd == "BODY"@ {
        match (f.details, m.trailing) {
            (Some(d), Some(t)) => (
                ForwarderView { details: Some(DetailsView { body: Some(body_after(d.body, t, false)), ..d }), ..f },
                EventView::Nothing,
            ),
            _ => (f, EventView::Nothing),
        }
    } else if cmd == "NOTIFY_END"@ {
        match f.details {
            Some(d) => (ForwarderView { details: None, ..f }, EventView::Display(d)),
            None => (f, EventView::Nothing),
        }
    } else if cmd == "LOGIN"@ && m.sign == Some(true) && !f.logged_in {
        (ForwarderView { logged_in: true, ..f }, EventView::LoggedIn)
    } else {
        (f, EventView::Nothing)
    }
}

impl Forwarder {
    /// Before the first line.
    pub fn new() -> (r: Self)
        ensures
            r@ == (ForwarderView { details: None, logged_in: false }),
    {
        Forwarder { details: None, logged_in: false }
    }

    /// Takes in one received line.
    pub fn on_message(&mut self, m: &Message) -> (r: Event)
        ensures
            (final(self)@, r@) == forward_step(old(self)@, m@),
    {
        let cmd = ascii_upper(m.command.as_str());
        let c = cmd.as_str();
        if same_text(c, "NOTIFY_START") {
            let mut d = NotificationDetails::new();
            if m.arguments.len() > 0 {
                d.user = Some(m.arguments[0].clone());
            }
            if m.arguments.len() > 1 {
                d.id = parse_decimal(m.arguments[1].as_str());
            }
            self.details = Some(d);
            Event::Nothing
        } else if same_text(c, "TITLE") {
            match &mut self.details {
                Some(d) => {
                    d.title = match &m.trailing {
                        Some(t) => Some(t.clone()),
                        None => None,
                    };
                },
                None => {},
            }
            Event::Nothing
        } else if same_text(c, "BODY") {
            match (&mut self.details, &m.trailing) {
                (Some(d), Some(t)) => d.append_body(t, false),
                _ => {},
            }
            Event::Nothing
        } else if same_text(c, "NOTIFY_END") {
            let mut out: Option<NotificationDetails> = None;
            std::mem::swap(&mut out, &mut self.details);
            match out {
                Some(d) => Event::Display(d),
                None => Event::Nothing,
            }
        } else if same_text(c, "LOGIN") && m.sign == Some(true) && !self.logged_in {
            self.logged_in = true;
            Event::LoggedIn
        } else {
            Event::Nothing
        }
    }
}

/// The first lines the forwarding client sends: it logs in as
/// `user@host` and asks for broadcasts.
pub fn greeting(user: &str, host: &str) -> (r: String)
    ensures
        r@ == "login "@ + user@ + "@"@ + host@ + "\r\nconsume\r\n"@,
{
    let mut r = String::from_str("login ");
    r.append(user);
    r.append("@");
    r.append(host);
    r.append("\r\nconsume\r\n");
    r
}

/// What the display shows of a notification: its author (`notificationd`
/// when unknown), its title and its body, empty when missing.
pub fn display_fields(d: &NotificationDetails) -> (r: (String, String, String))
    ensures
        r.0@ == (match d@.user {
            Some(u) => u,
            None => "notificationd"@,
        }),
        r.1@ == (match d@.title {
            Some(t) => t,
            None => Seq::empty(),
        }),
        r.2@ == (match d@.body {
            Some(b) => b,
            None => Seq::empty(),
        }),
{
    let user = match &d.user {
        Some(u) => u.clone(),
        None => String::from_str("notificationd"),
    };
    let title = match &d.title {
        Some(t) => t.clone(),
        None => String::new(),
    };
    let body = match &d.body {
        Some(b) => b.clone(),
        None => String::new(),
    };
    (user, title, body)
}

} // verus!
