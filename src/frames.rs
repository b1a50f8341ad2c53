//! Rendering notifications as text: the broadcast frame that SEND fans
//! out, the reply groups of HISTORY, and the tag list of the history store.

use vstd::prelude::*;
use crate::text::{chars_of, string_of, decimal, decimal_string};
use crate::protocol::{reply, reply_text, strings_view, strs_view, all_in, CharClass};
use crate::notifications::{NotificationDetails, DetailsView};

verus! {

pub open spec fn crlf() -> Seq<char> {
    seq!['\r', '\n']
}

/// The first newline at or after `i`, or the end.
pub open spec fn newline_at(b: Seq<char>, i: int) -> int
    decreases b.len() - i,
{
    if 0 <= i < b.len() && b[i] != '\n' {
        newline_at(b, i + 1)
    } else {
        i
    }
}

proof fn lemma_newline_at(b: Seq<char>, i: int)
    requires
        0 <= i <= b.len(),
    ensures
        i <= newline_at(b, i) <= b.len(),
        forall|m: int| i <= m < newline_at(b, i) ==> b[m] != '\n',
        newline_at(b, i) < b.len() ==> b[newline_at(b, i)] == '\n',
    decreases b.len() - i,
{
    if i < b.len() && b[i] != '\n' {
        lemma_newline_at(b, i + 1);
    }
}

/// One line of a body that starts at `i` and ends at `e`: a carriage
/// return before the newline is not part of it.
pub open spec fn line_text(b: Seq<char>, i: int, e: int) -> Seq<char> {
    if e < b.len() && i < e && b[e - 1] == '\r' {
        b.subrange(i, e - 1)
    } else {
        b.subrange(i, e)
    }
}

/// The lines of a body from `i` on. Lines end at `\n` or `\r\n`; a final
/// line break adds no empty line.
pub open spec fn lines_from(b: Seq<char>, i: int) -> Seq<Seq<char>>
    decreases b.len() - i,
    via lines_from_decreases
{
    if i < 0 || i >= b.len() {
        Seq::empty()
    } else {
        let e = newline_at(b, i);
        if e < b.len() {
            seq![line_text(b, i, e)] + lines_from(b, e + 1)
        } else {
            seq![line_text(b, i, e)]
        }
    }
}

#[via_fn]
proof fn lines_from_decreases(b: Seq<char>, i: int) {
    if 0 <= i < b.len() {
        lemma_newline_at(b, i);
    }
}

pub open spec fn body_lines(b: Seq<char>) -> Seq<Seq<char>> {
    lines_from(b, 0)
}

/// The lines of `body`.
pub fn split_lines(body: &String) -> (r: Vec<String>)
    ensures
        strings_view(r@) == body_lines(body@),
{
    let v = chars_of(body.as_str());
    let mut r: Vec<String> = Vec::new();
    let mut i: usize = 0;
    while i < v.len()
        invariant
            i <= v@.len(),
            v@ == body@,
            lines_from(v@, 0) == strings_view(r@) + lines_from(v@, i as int),
        decreases v@.len() - i,
    {
        proof {
            lemma_newline_at(v@, i as int);
        }
        let mut e: usize = i;
        while e < v.len() && v[e] != '\n'
            invariant
                i <= e <= v@.len(),
                newline_at(v@, i as int) == newline_at(v@, e as int),
            decreases v@.len() - e,
        {
            e = e + 1;
        }
        let piece = if e < v.len() && i < e && v[e - 1] == '\r' {
            string_of(&v, i, e - 1)
        } else {
            string_of(&v, i, e)
        };
        let ghost before = r@;
        r.push(piece);
        proof {
            assert(strings_view(r@) =~= strings_view(before) + seq![line_text(v@, i as int, e as int)]);
            if e < v.len() {
                assert(strings_view(r@) + lines_from(v@, e + 1) =~= strings_view(before) + lines_from(v@, i as int));
            } else {
                assert(strings_view(r@) + lines_from(v@, e as int) =~= strings_view(before) + lines_from(v@, i as int));
            }
        }
        if e == v.len() {
            i = e;
        } else {
            i = e + 1;
        }
    }
    assert(strings_view(r@) + lines_from(v@, i as int) =~= strings_view(r@));
    r
}

/// Strings joined with single spaces.
pub open spec fn joined(t: Seq<Seq<char>>) -> Seq<char>
    decreases t.len(),
{
    if t.len() == 0 {
        Seq::empty()
    } else if t.len() == 1 {
        t[0]
    } else {
        joined(t.drop_last()) + seq![' '] + t.last()
    }
}

/// `tags` joined with single spaces.
pub fn join_tags(tags: &Vec<String>) -> (r: String)
    ensures
        r@ == joined(strings_view(tags@)),
{
    let mut r = String::new();
    let mut i: usize = 0;
    while i < tags.len()
        invariant
            i <= tags@.len(),
            r@ == joined(strings_view(tags@.take(i as int))),
        decreases tags@.len() - i,
    {
        if i > 0 {
            r.push(' ');
        }
        r.append(tags[i].as_str());
        proof {
            let t = strings_view(tags@.take(i + 1));
            assert(t.drop_last() =~= strings_view(tags@.take(i as int)));
            if i == 0 {
                assert(strings_view(tags@.take(0)) =~= Seq::<Seq<char>>::empty());
            }
        }
        i = i + 1;
    }
    assert(tags@.take(i as int) =~= tags@);
    r
}

/// The non-empty words of `s` between single spaces, in order.
pub open spec fn words_from(s: Seq<char>, i: int) -> Seq<Seq<char>>
    decreases s.len() - i,
    via words_from_decreases
{
    if i < 0 || i >= s.len() {
        Seq::empty()
    } else {
        let e = space_at(s, i);
        if e == i {
            words_from(s, i + 1)
        } else {
            seq![s.subrange(i, e)] + words_from(s, e)
        }
    }
}

#[via_fn]
proof fn words_from_decreases(s: Seq<char>, i: int) {
    if 0 <= i < s.len() {
        lemma_space_at(s, i);
    }
}

/// The first space at or after `i`, or the end.
pub open spec fn space_at(s: Seq<char>, i: int) -> int
    decreases s.len() - i,
{
    if 0 <= i < s.len() && s[i] != ' ' {
        space_at(s, i + 1)
    } else {
        i
    }
}

proof fn lemma_space_at(s: Seq<char>, i: int)
    requires
        0 <= i <= s.len(),
    ensures
        i <= space_at(s, i) <= s.len(),
    decreases s.len() - i,
{
    if i < s.len() && s[i] != ' ' {
        lemma_space_at(s, i + 1);
    }
}

/// The tags of a stored record: the non-empty words of its space-joined
/// tag column.
pub fn split_tags(s: &str) -> (r: Vec<String>)
    ensures
        strings_view(r@) == words_from(s@, 0),
{
    let v = chars_of(s);
    let mut r: Vec<String> = Vec::new();
    let mut i: usize = 0;
    while i < v.len()
        invariant
            i <= v@.len(),
            v@ == s@,
            words_from(v@, 0) == strings_view(r@) + words_from(v@, i as int),
        decreases v@.len() - i,
    {
        proof {
            lemma_space_at(v@, i as int);
        }
        let mut e: usize = i;
        while e < v.len() && v[e] != ' '
            invariant
                i <= e <= v@.len(),
                space_at(v@, i as int) == space_at(v@, e as int),
            decreases v@.len() - e,
        {
            e = e + 1;
        }
        if e == i {
            i = i + 1;
        } else {
            let ghost before = r@;
            r.push(string_of(&v, i, e));
            proof {
                assert(strings_view(r@) =~= strings_view(before) + seq![v@.subrange(i as int, e as int)]);
                assert(strings_view(r@) + words_from(v@, e as int) =~= strings_view(before) + words_from(v@, i as int));
            }
            i = e;
        }
    }
    assert(strings_view(r@) + words_from(v@, i as int) =~= strings_view(r@));
    r
}

/// Each line behind `prefix`, each ending in a line break.
pub open spec fn prefixed_lines(prefix: Seq<char>, lines: Seq<Seq<char>>) -> Seq<char>
    decreases lines.len(),
{
    if lines.len() == 0 {
        Seq::empty()
    } else {
        prefixed_lines(prefix, lines.drop_last()) + prefix + lines.last() + crlf()
    }
}

pub open spec fn frame_title(d: DetailsView) -> Seq<char> {
    match d.title {
        Some(t) => "TITLE: "@ + t + crlf(),
        None => Seq::empty(),
    }
}

pub open spec fn frame_tags(d: DetailsView) -> Seq<char> {
    if d.tags.len() > 0 {
        "TAGS: "@ + joined(d.tags) + crlf()
    } else {
        Seq::empty()
    }
}

pub open spec fn frame_body(d: DetailsView) -> Seq<char> {
    match d.body {
        Some(b) => prefixed_lines("BODY: "@, body_lines(b)),
        None => Seq::empty(),
    }
}

/// The frame that SEND fans out: a start line with the author and id, the
/// title, the tags and each body line, then an end line with the id.
pub open spec fn notify_frame(user: Seq<char>, id: nat, d: DetailsView) -> Seq<char> {
    "NOTIFY_START "@ + user + seq![' '] + decimal(id) + crlf() + frame_title(d) + frame_tags(d)
        + frame_body(d) + "NOTIFY_END "@ + decimal(id) + crlf()
}

/// Appends each line behind `prefix`, each ending in a line break.
fn push_prefixed_lines(out: &mut String, prefix: &str, lines: &Vec<String>)
    ensures
        final(out)@ == old(out)@ + prefixed_lines(prefix@, strings_view(lines@)),
{
    let mut i: usize = 0;
    while i < lines.len()
        invariant
            i <= lines@.len(),
            out@ == old(out)@ + prefixed_lines(prefix@, strings_view(lines@.take(i as int))),
        decreases lines@.len() - i,
    {
        out.append(prefix);
        out.append(lines[i].as_str());
        out.push('\r');
        out.push('\n');
        proof {
            let t = strings_view(lines@.take(i + 1));
            assert(t.drop_last() =~= strings_view(lines@.take(i as int)));
            assert(out@ =~= old(out)@ + prefixed_lines(prefix@, t));
        }
        i = i + 1;
    }
    assert(lines@.take(i as int) =~= lines@);
}

/// The broadcast frame of `details`, signed by `user` under `id`.
pub fn notify_frame_text(details: &NotificationDetails, user: &String, id: usize) -> (r: String)
    ensures
        r@ == notify_frame(user@, id as nat, details@),
{
    let digits = decimal_string(id as u64);
    let mut r = String::from_str("NOTIFY_START ");
    r.append(user.as_str());
    r.push(' ');
    r.append(digits.as_str());
    r.push('\r');
    r.push('\n');
    let ghost a = r@;
    assert(a =~= "NOTIFY_START "@ + user@ + seq![' '] + decimal(id as nat) + crlf());
    match &details.title {
        Some(t) => {
            r.append("TITLE: ");
            r.append(t.as_str());
            r.push('\r');
            r.push('\n');
        },
        None => {},
    }
    let ghost b = r@;
    assert(b =~= a + frame_title(details@));
    if details.tags.len() > 0 {
        let joined_tags = join_tags(&details.tags);
        r.append("TAGS: ");
        r.append(joined_tags.as_str());
        r.push('\r');
        r.push('\n');
    }
    let ghost c = r@;
    assert(c =~= b + frame_tags(details@));
    match &details.body {
        Some(body) => {
            let lines = split_lines(body);
            push_prefixed_lines(&mut r, "BODY: ", &lines);
        },
        None => {},
    }
    let ghost e = r@;
    assert(e =~= c + frame_body(details@));
    r.append("NOTIFY_END ");
    r.append(digits.as_str());
    r.push('\r');
    r.push('\n');
    assert(r@ =~= e + "NOTIFY_END "@ + decimal(id as nat) + crlf());
    r
}

/// The arguments of a history record's first line: its id and its author,
/// where they are known.
pub open spec fn history_head_args(d: DetailsView) -> Seq<Seq<char>> {
    (match d.id {
        Some(n) => seq![decimal(n as nat)],
        None => Seq::empty(),
    }) + (match d.user {
        Some(u) => seq![u],
        None => Seq::empty(),
    })
}

/// One `HISTORY BODY` reply per line.
pub open spec fn history_body(req: Option<u32>, lines: Seq<Seq<char>>) -> Seq<char>
    decreases lines.len(),
{
    if lines.len() == 0 {
        Seq::empty()
    } else {
        history_body(req, lines.drop_last()) + reply_text(req, true, "HISTORY"@, seq!["BODY"@], Some(lines.last()))
    }
}

/// The replies that describe one stored record: a line with its id, author
/// and time, then its title, its tags and each line of its body.
pub open spec fn history_group(req: Option<u32>, d: DetailsView) -> Seq<char> {
    reply_text(req, true, "HISTORY"@, history_head_args(d), d.timestamp) + (match d.title {
        Some(t) => reply_text(req, true, "HISTORY"@, seq!["TITLE"@], Some(t)),
        None => Seq::empty(),
    }) + (if d.tags.len() > 0 {
        reply_text(req, true, "HISTORY"@, seq!["TAGS"@], Some(joined(d.tags)))
    } else {
        Seq::empty()
    }) + (match d.body {
        Some(b) => history_body(req, body_lines(b)),
        None => Seq::empty(),
    })
}

/// The replies that describe one stored record.
pub fn history_group_text(req: Option<u32>, d: &NotificationDetails) -> (r: String)
    ensures
        r@ == history_group(req, d@),
{
    let id_text = match d.id {
        Some(n) => decimal_string(n as u64),
        None => String::new(),
    };
    let mut head: Vec<&str> = Vec::new();
    if d.id.is_some() {
        head.push(id_text.as_str());
    }
    match &d.user {
        Some(u) => head.push(u.as_str()),
        None => {},
    }
    assert(strs_view(head@) =~= history_head_args(d@));
    let stamp: Option<&str> = match &d.timestamp {
        Some(t) => Some(t.as_str()),
        None => None,
    };
    let mut r = reply(req, true, "HISTORY", head, stamp);
    match &d.title {
        Some(t) => {
            let args = vec!["TITLE"];
            assert(strs_view(args@) =~= seq!["TITLE"@]);
            let line = reply(req, true, "HISTORY", args, Some(t.as_str()));
            r.append(line.as_str());
        },
        None => {},
    }
    if d.tags.len() > 0 {
        let joined_tags = join_tags(&d.tags);
        let args = vec!["TAGS"];
        assert(strs_view(args@) =~= seq!["TAGS"@]);
        let line = reply(req, true, "HISTORY", args, Some(joined_tags.as_str()));
        r.append(line.as_str());
    }
    let ghost c = r@;
    match &d.body {
        Some(body) => {
            let lines = split_lines(body);
            let mut i: usize = 0;
            while i < lines.len()
                invariant
                    i <= lines@.len(),
                    r@ == c + history_body(req, strings_view(lines@.take(i as int))),
                decreases lines@.len() - i,
            {
                let args = vec!["BODY"];
                assert(strs_view(args@) =~= seq!["BODY"@]);
                let line = reply(req, true, "HISTORY", args, Some(lines[i].as_str()));
                r.append(line.as_str());
                proof {
                    let t = strings_view(lines@.take(i + 1));
                    assert(t.drop_last() =~= strings_view(lines@.take(i as int)));
                    assert(r@ =~= c + history_body(req, t));
                }
                i = i + 1;
            }
            assert(lines@.take(i as int) =~= lines@);
        },
        None => {},
    }
    assert(r@ =~= history_group(req, d@));
    r
}

proof fn lemma_newline_at_exact(b: Seq<char>, i: int, j: int)
    requires
        0 <= i <= j <= b.len(),
        forall|m: int| i <= m < j ==> b[m] != '\n',
        j == b.len() || b[j] == '\n',
    ensures
        newline_at(b, i) == j,
    decreases j - i,
{
    if i < j {
        lemma_newline_at_exact(b, i + 1, j);
    }
}

/// Two lines without line breaks, each ended by a newline, read back as
/// those two lines.
pub proof fn lemma_two_lines(a: Seq<char>, b: Seq<char>)
    requires
        all_in(a, CharClass::Text),
        all_in(b, CharClass::Text),
    ensures
        body_lines(a.push('\n') + b.push('\n')) == seq![a, b],
{
    let s = a.push('\n') + b.push('\n');
    let n = a.len() as int;
    let e = n + 1 + b.len();
    assert forall|m: int| 0 <= m < n implies s[m] != '\n' by {
        assert(s[m] == a[m]);
    }
    assert(s[n] == '\n');
    lemma_newline_at_exact(s, 0, n);
    if n > 0 {
        assert(s[n - 1] == a[n - 1]);
    }
    assert(s.subrange(0, n) =~= a);
    assert forall|m: int| n + 1 <= m < e implies s[m] != '\n' by {
        assert(s[m] == b[m - n - 1]);
    }
    assert(s[e] == '\n');
    lemma_newline_at_exact(s, n + 1, e);
    if b.len() > 0 {
        assert(s[e - 1] == b[b.len() - 1]);
    }
    assert(s.subrange(n + 1, e) =~= b);
    assert(lines_from(s, e + 1) =~= Seq::<Seq<char>>::empty());
    assert(lines_from(s, n + 1) =~= seq![b]);
    assert(lines_from(s, 0) =~= seq![a, b]);
}

} // verus!
