//! The notification record and the per-session builder operations on it.

use vstd::prelude::*;
use crate::protocol::{strings_view, opt_view};

verus! {

/// A notification: built field by field by a session, stamped with its
/// author and id when sent, and read back from the history store.
#[derive(Debug)]
pub struct NotificationDetails {
    pub id: Option<usize>,
    pub title: Option<String>,
    pub body: Option<String>,
    pub tags: Vec<String>,
    pub user: Option<String>,
    pub timestamp: Option<String>,
}

pub struct DetailsView {
    pub id: Option<usize>,
    pub title: Option<Seq<char>>,
    pub body: Option<Seq<char>>,
    pub tags: Seq<Seq<char>>,
    pub user: Option<Seq<char>>,
    pub timestamp: Option<Seq<char>>,
}

impl View for NotificationDetails {
    type V = DetailsView;

    open spec fn view(&self) -> DetailsView {
        DetailsView {
            id: self.id,
            title: opt_view(self.title),
            body: opt_view(self.body),
            tags: strings_view(self.tags@),
            user: opt_view(self.user),
            timestamp: opt_view(self.timestamp),
        }
    }
}

/// A record with every field empty.
pub open spec fn empty_details() -> DetailsView {
    DetailsView {
        id: None,
        title: None,
        body: None,
        tags: Seq::empty(),
        user: None,
        timestamp: None,
    }
}

/// The body after one more line: the line and a newline are appended, or
/// start a new body when there is none yet or `reset` is asked for.
pub open spec fn body_after(body: Option<Seq<char>>, line: Seq<char>, reset: bool) -> Seq<char> {
    match body {
        Some(b) if !reset => b + line.push('\n'),
        _ => line.push('\n'),
    }
}

/// A copy of the strings of `v`.
pub fn copy_strings(v: &Vec<String>) -> (r: Vec<String>)
    ensures
        r@ == v@,
{
    let mut r: Vec<String> = Vec::new();
    let mut i: usize = 0;
    while i < v.len()
        invariant
            i <= v@.len(),
            r@ == v@.take(i as int),
        decreases v@.len() - i,
    {
        r.push(v[i].clone());
        i = i + 1;
        assert(r@ =~= v@.take(i as int));
    }
    assert(v@.take(i as int) =~= v@);
    r
}

/// A copy of an optional string.
pub fn copy_opt(o: &Option<String>) -> (r: Option<String>)
    ensures
        r == *o,
{
    match o {
        Some(s) => Some(s.clone()),
        None => None,
    }
}

/// `s` with a newline appended.
fn with_newline(s: &String) -> (r: String)
    ensures
        r@ == s@.push('\n'),
{
    let mut r = s.clone();
    r.push('\n');
    r
}

impl NotificationDetails {
    /// An empty record.
    pub fn new() -> (r: Self)
        ensures
            r@ == empty_details(),
    {
        let r = NotificationDetails { id: None, user: None, title: None, body: None, tags: Vec::new(), timestamp: None };
        assert(r@.tags =~= Seq::<Seq<char>>::empty());
        r
    }

    /// A copy of this record.
    pub fn duplicate(&self) -> (r: Self)
        ensures
            r@ == self@,
    {
        NotificationDetails {
            id: self.id,
            title: copy_opt(&self.title),
            body: copy_opt(&self.body),
            tags: copy_strings(&self.tags),
            user: copy_opt(&self.user),
            timestamp: copy_opt(&self.timestamp),
        }
    }

    /// Replaces the title.
    pub fn set_title(&mut self, text: String)
        ensures
            final(self)@ == (DetailsView { title: Some(text@), ..old(self)@ }),
    {
        self.title = Some(text);
    }

    /// Adds a line to the body, or starts the body over with it when `reset`
    /// is set.
    pub fn append_body(&mut self, line: &String, reset: bool)
        ensures
            final(self)@ == (DetailsView { body: Some(body_after(old(self)@.body, line@, reset)), ..old(self)@ }),
    {
        let next = match &self.body {
            Some(b) if !reset => {
                let mut b2 = b.clone();
                b2.append(line.as_str());
                b2.push('\n');
                b2
            },
            _ => with_newline(line),
        };
        self.body = Some(next);
    }

    /// Drops the body.
    pub fn clear_body(&mut self)
        ensures
            final(self)@ == (DetailsView { body: None, ..old(self)@ }),
    {
        self.body = None;
    }

    /// Clears every field.
    pub fn reset(&mut self)
        ensures
            final(self)@ == empty_details(),
    {
        *self = NotificationDetails::new();
    }

    /// This record signed by `user` under `id`.
    pub fn stamped(&self, user: &String, id: usize) -> (r: Self)
        ensures
            r@ == (DetailsView { user: Some(user@), id: Some(id), ..self@ }),
    {
        let mut r = self.duplicate();
        r.user = Some(user.clone());
        r.id = Some(id);
        r
    }
}

} // verus!
