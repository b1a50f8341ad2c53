//! The wire codec: one line of text to a `Message`, and replies back to text.
//!
//! A line reads, in order: an optional request id (digits followed by
//! blanks), an optional `+` or `-` sign marking a reply, a command word,
//! blank-separated arguments, and an optional trailing text introduced by
//! `:` that runs to the end of the line.

use vstd::prelude::*;
use crate::text::{chars_of, string_of, decimal, decimal_string, digits_value, is_digit, lemma_decimal, lemma_digits_value_grows};

verus! {

/// The classes of characters that the grammar is built from.
#[derive(Clone, Copy, PartialEq, Eq, Structural)]
pub enum CharClass {
    /// Space or tab.
    Blank,
    /// An ASCII decimal digit.
    Digit,
    /// An ASCII letter, digit or underscore: the characters of a command.
    Word,
    /// Anything but a blank, a colon or a line break: the characters of an argument.
    Arg,
    /// Anything but a line break: the characters of trailing text.
    Text,
}

pub open spec fn in_class(c: char, k: CharClass) -> bool {
    match k {
        CharClass::Blank => c == ' ' || c == '\t',
        CharClass::Digit => is_digit(c),
        CharClass::Word => ('a' <= c && c <= 'z') || ('A' <= c && c <= 'Z') || is_digit(c) || c == '_',
        CharClass::Arg => c != ' ' && c != '\t' && c != ':' && c != '\r' && c != '\n',
        CharClass::Text => c != '\r' && c != '\n',
    }
}

/// The end of the longest run of characters of class `k` that starts at `i`.
pub open spec fn run_end(s: Seq<char>, i: int, k: CharClass) -> int
    decreases s.len() - i,
{
    if 0 <= i < s.len() && in_class(s[i], k) {
        run_end(s, i + 1, k)
    } else {
        i
    }
}

/// What a line says, as mathematical values.
pub struct MessageView {
    pub id: Option<u32>,
    pub sign: Option<bool>,
    pub command: Seq<char>,
    pub arguments: Seq<Seq<char>>,
    pub trailing: Option<Seq<char>>,
}

/// The request id of a line and where the rest begins: digits that fit in
/// a `u32`, followed by at least one blank.
pub open spec fn spec_id(s: Seq<char>) -> (Option<u32>, int) {
    let d = run_end(s, 0, CharClass::Digit);
    let e = run_end(s, d, CharClass::Blank);
    if 0 < d && d < e && digits_value(s.subrange(0, d)) <= u32::MAX {
        (Some(digits_value(s.subrange(0, d)) as u32), e)
    } else {
        (None, 0)
    }
}

/// The reply sign at `i`, if any: `true` for `+`, `false` for `-`.
pub open spec fn spec_sign(s: Seq<char>, i: int) -> (Option<bool>, int) {
    if 0 <= i < s.len() && (s[i] == '+' || s[i] == '-') {
        (Some(s[i] == '+'), i + 1)
    } else {
        (None, i)
    }
}

/// The arguments from `i` on: each one is blanks, then a non-empty run of
/// argument characters.
pub open spec fn spec_args(s: Seq<char>, i: int) -> (Seq<Seq<char>>, int)
    decreases s.len() - i,
{
    let j = run_end(s, i, CharClass::Blank);
    let k = run_end(s, j, CharClass::Arg);
    if i < j && j < k && k <= s.len() {
        let rest = spec_args(s, k);
        (seq![s.subrange(j, k)] + rest.0, rest.1)
    } else {
        (Seq::empty(), i)
    }
}

/// The trailing text from `i` on: optional blanks, a colon, optional
/// blanks that are dropped, then the text up to the line break.
pub open spec fn spec_trailing(s: Seq<char>, i: int) -> (Option<Seq<char>>, int) {
    let j = run_end(s, i, CharClass::Blank);
    if 0 <= j < s.len() && s[j] == ':' {
        let t = run_end(s, j + 1, CharClass::Blank);
        let e = run_end(s, t, CharClass::Text);
        (Some(s.subrange(t, e)), e)
    } else {
        (None, i)
    }
}

/// The message that a line holds and the position where its fields end.
pub open spec fn spec_fields(s: Seq<char>) -> (MessageView, int) {
    let (id, pos0) = spec_id(s);
    let (sign, pos1) = spec_sign(s, pos0);
    let pos2 = run_end(s, pos1, CharClass::Word);
    let (arguments, pos3) = spec_args(s, pos2);
    let (trailing, pos4) = spec_trailing(s, pos3);
    (MessageView { id, sign, command: s.subrange(pos1, pos2), arguments, trailing }, pos4)
}

/// The end of a line break (`\r\n` or `\n`) that starts at `i`, if one does.
pub open spec fn spec_line_break(s: Seq<char>, i: int) -> Option<int> {
    if 0 <= i && i + 1 < s.len() && s[i] == '\r' && s[i + 1] == '\n' {
        Some(i + 2)
    } else if 0 <= i < s.len() && s[i] == '\n' {
        Some(i + 1)
    } else {
        None
    }
}

/// One parsed line.
#[derive(Debug)]
pub struct Message {
    pub id: Option<u32>,
    pub sign: Option<bool>,
    pub command: String,
    pub arguments: Vec<String>,
    pub trailing: Option<String>,
}

pub open spec fn strings_view(v: Seq<String>) -> Seq<Seq<char>> {
    v.map_values(|a: String| a@)
}

pub open spec fn opt_view(o: Option<String>) -> Option<Seq<char>> {
    match o {
        Some(t) => Some(t@),
        None => None,
    }
}

impl View for Message {
    type V = MessageView;

    open spec fn view(&self) -> MessageView {
        MessageView {
            id: self.id,
            sign: self.sign,
            command: self.command@,
            arguments: strings_view(self.arguments@),
            trailing: opt_view(self.trailing),
        }
    }
}

/// A line that does not end where the grammar asks it to.
#[derive(Debug, Clone, Copy, PartialEq, Eq, Structural)]
pub struct ParseError {
    /// Where the line break was expected.
    pub position: usize,
}

impl ParseError {
    /// A short description for an error reply.
    pub fn describe(&self) -> (r: String)
        ensures
            r@ == seq!['e', 'x', 'p', 'e', 'c', 't', 'e', 'd', ' ', 'l', 'i', 'n', 'e', ' ', 'e', 'n', 'd', ' ', 'a', 't', ' ']
                + decimal(self.position as nat),
    {
        let mut r = String::from_str("expected line end at ");
        proof {
            reveal_strlit("expected line end at ");
        }
        let n = decimal_string(self.position as u64);
        r.append(n.as_str());
        r
    }
}

fn in_class_exec(c: char, k: CharClass) -> (r: bool)
    ensures
        r == in_class(c, k),
{
    match k {
        CharClass::Blank => c == ' ' || c == '\t',
        CharClass::Digit => '0' <= c && c <= '9',
        CharClass::Word => ('a' <= c && c <= 'z') || ('A' <= c && c <= 'Z') || ('0' <= c && c <= '9') || c == '_',
        CharClass::Arg => c != ' ' && c != '\t' && c != ':' && c != '\r' && c != '\n',
        CharClass::Text => c != '\r' && c != '\n',
    }
}

/// Every run ends between its start and the end of the line.
pub proof fn lemma_run_end_bounds(s: Seq<char>, i: int, k: CharClass)
    requires
        0 <= i <= s.len(),
    ensures
        i <= run_end(s, i, k) <= s.len(),
        forall|m: int| i <= m < run_end(s, i, k) ==> in_class(#[trigger] s[m], k),
        run_end(s, i, k) < s.len() ==> !in_class(s[run_end(s, i, k)], k),
    decreases s.len() - i,
{
    if i < s.len() && in_class(s[i], k) {
        lemma_run_end_bounds(s, i + 1, k);
    }
}

fn scan(v: &Vec<char>, i: usize, k: CharClass) -> (r: usize)
    requires
        i <= v@.len(),
    ensures
        r == run_end(v@, i as int, k),
        i <= r <= v@.len(),
{
    proof {
        lemma_run_end_bounds(v@, i as int, k);
    }
    let mut j: usize = i;
    while j < v.len() && in_class_exec(v[j], k)
        invariant
            i <= j <= v@.len(),
            run_end(v@, i as int, k) == run_end(v@, j as int, k),
        decreases v@.len() - j,
    {
        j = j + 1;
    }
    j
}

/// The value of the digits `v[lo..hi]`, if it fits in a `u32`.
fn digits_u32(v: &Vec<char>, lo: usize, hi: usize) -> (r: Option<u32>)
    requires
        lo <= hi <= v@.len(),
        forall|m: int| lo <= m < hi ==> is_digit(#[trigger] v@[m]),
    ensures
        r == (if digits_value(v@.subrange(lo as int, hi as int)) <= u32::MAX {
            Some(digits_value(v@.subrange(lo as int, hi as int)) as u32)
        } else {
            None::<u32>
        }),
{
    let ghost whole = v@.subrange(lo as int, hi as int);
    let mut acc: u64 = 0;
    let mut i: usize = lo;
    assert(v@.subrange(lo as int, lo as int) =~= Seq::<char>::empty());
    while i < hi
        invariant
            lo <= i <= hi <= v@.len(),
            forall|m: int| lo <= m < hi ==> is_digit(#[trigger] v@[m]),
            whole == v@.subrange(lo as int, hi as int),
            acc == digits_value(v@.subrange(lo as int, i as int)),
            acc <= u32::MAX,
        decreases hi - i,
    {
        let c = v[i];
        assert(is_digit(v@[i as int]));
        let d: u64 = ((c as u8) - 48) as u64;
        proof {
            let next = v@.subrange(lo as int, i + 1);
            assert(next.drop_last() =~= v@.subrange(lo as int, i as int));
            assert(next.last() == c);
            lemma_digits_value_grows(whole, i + 1 - lo);
            assert(whole.take(i + 1 - lo) =~= next);
        }
        let n: u64 = acc * 10 + d;
        if n > u32::MAX as u64 {
            return None;
        }
        acc = n;
        i = i + 1;
    }
    assert(v@.subrange(lo as int, i as int) =~= whole);
    Some(acc as u32)
}

/// What `line` makes of `s`: the message and the text after it, or the
/// position where a line break was expected.
pub open spec fn spec_line(s: Seq<char>, terminated: bool) -> Result<(MessageView, Seq<char>), int> {
    let (m, e) = spec_fields(s);
    if !terminated {
        Ok((m, s.subrange(e, s.len() as int)))
    } else {
        match spec_line_break(s, e) {
            Some(k) => Ok((m, s.subrange(k, s.len() as int))),
            None => Err(e),
        }
    }
}

fn parse_args(v: &Vec<char>, i: usize) -> (r: (Vec<String>, usize))
    requires
        i <= v@.len(),
    ensures
        strings_view(r.0@) == spec_args(v@, i as int).0,
        r.1 == spec_args(v@, i as int).1,
        i <= r.1 <= v@.len(),
{
    let mut args: Vec<String> = Vec::new();
    let mut p: usize = i;
    loop
        invariant
            i <= p <= v@.len(),
            spec_args(v@, i as int).0 == strings_view(args@) + spec_args(v@, p as int).0,
            spec_args(v@, i as int).1 == spec_args(v@, p as int).1,
        decreases v@.len() - p,
    {
        let j = scan(v, p, CharClass::Blank);
        let k = scan(v, j, CharClass::Arg);
        if p < j && j < k {
            let a = string_of(v, j, k);
            let ghost before = args@;
            args.push(a);
            proof {
                assert(strings_view(args@) =~= strings_view(before) + seq![v@.subrange(j as int, k as int)]);
                assert(strings_view(args@) + spec_args(v@, k as int).0 =~= strings_view(before) + spec_args(v@, p as int).0);
            }
            p = k;
        } else {
            assert(strings_view(args@) + spec_args(v@, p as int).0 =~= strings_view(args@));
            return (args, p);
        }
    }
}

fn parse_trailing(v: &Vec<char>, i: usize) -> (r: (Option<String>, usize))
    requires
        i <= v@.len(),
    ensures
        opt_view(r.0) == spec_trailing(v@, i as int).0,
        r.1 == spec_trailing(v@, i as int).1,
        i <= r.1 <= v@.len(),
{
    let j = scan(v, i, CharClass::Blank);
    if j < v.len() && v[j] == ':' {
        let t = scan(v, j + 1, CharClass::Blank);
        let e = scan(v, t, CharClass::Text);
        (Some(string_of(v, t, e)), e)
    } else {
        (None, i)
    }
}

/// Parses one line. The text after the message's fields comes back
/// beside it; with `terminated`, the fields must be followed by `\r\n` or
/// `\n`, which is consumed.
pub fn line(input: &str, terminated: bool) -> (r: Result<(String, Message), ParseError>)
    ensures
        match r {
            Ok((rest, msg)) => spec_line(input@, terminated) == Ok::<(MessageView, Seq<char>), int>((msg@, rest@)),
            Err(e) => spec_line(input@, terminated) == Err::<(MessageView, Seq<char>), int>(e.position as int),
        },
{
    let v = chars_of(input);
    let n = v.len();
    proof {
        lemma_run_end_bounds(v@, 0, CharClass::Digit);
    }
    let d = scan(&v, 0, CharClass::Digit);
    let e = scan(&v, d, CharClass::Blank);
    let mut id: Option<u32> = None;
    let mut p: usize = 0;
    if 0 < d && d < e {
        match digits_u32(&v, 0, d) {
            Some(x) => {
                id = Some(x);
                p = e;
            },
            None => {},
        }
    }
    let mut sign: Option<bool> = None;
    if p < n && (v[p] == '+' || v[p] == '-') {
        sign = Some(v[p] == '+');
        p = p + 1;
    }
    let w = scan(&v, p, CharClass::Word);
    let command = string_of(&v, p, w);
    let (arguments, q) = parse_args(&v, w);
    let (trailing, t) = parse_trailing(&v, q);
    let msg = Message { id, sign, command, arguments, trailing };
    assert(msg@ == spec_fields(v@).0);
    if terminated {
        if n - t >= 2 && v[t] == '\r' && v[t + 1] == '\n' {
            Ok((string_of(&v, t + 2, n), msg))
        } else if t < n && v[t] == '\n' {
            Ok((string_of(&v, t + 1, n), msg))
        } else {
            Err(ParseError { position: t })
        }
    } else {
        Ok((string_of(&v, t, n), msg))
    }
}

/// The arguments of a reply, each preceded by one space.
pub open spec fn spaced(args: Seq<Seq<char>>) -> Seq<char>
    decreases args.len(),
{
    if args.len() == 0 {
        Seq::empty()
    } else {
        spaced(args.drop_last()) + seq![' '] + args.last()
    }
}

/// The text of a reply: `[<id> ]<+|-><command>[ <arg>...][ : <trailing>]\r\n`.
pub open spec fn reply_text(
    id: Option<u32>,
    success: bool,
    command: Seq<char>,
    arguments: Seq<Seq<char>>,
    trailing: Option<Seq<char>>,
) -> Seq<char> {
    (match id {
        Some(n) => decimal(n as nat).push(' '),
        None => Seq::empty(),
    }) + seq![if success { '+' } else { '-' }] + command + spaced(arguments) + (match trailing {
        Some(t) => seq![' ', ':', ' '] + t,
        None => Seq::empty(),
    }) + seq!['\r', '\n']
}

pub open spec fn strs_view(v: Seq<&str>) -> Seq<Seq<char>> {
    v.map_values(|a: &str| a@)
}

pub open spec fn opt_str_view(o: Option<&str>) -> Option<Seq<char>> {
    match o {
        Some(t) => Some(t@),
        None => None,
    }
}

/// Renders a reply line.
pub fn reply(
    id: Option<u32>,
    success: bool,
    command: &str,
    arguments: Vec<&str>,
    trailing: Option<&str>,
) -> (r: String)
    ensures
        r@ == reply_text(id, success, command@, strs_view(arguments@), opt_str_view(trailing)),
{
    let mut r = String::new();
    match id {
        Some(n) => {
            let digits = decimal_string(n as u64);
            r.append(digits.as_str());
            r.push(' ');
        },
        None => {},
    }
    r.push(if success { '+' } else { '-' });
    r.append(command);
    let ghost head = r@;
    let mut i: usize = 0;
    while i < arguments.len()
        invariant
            i <= arguments@.len(),
            r@ == head + spaced(strs_view(arguments@.take(i as int))),
        decreases arguments@.len() - i,
    {
        r.push(' ');
        r.append(arguments[i]);
        proof {
            let taken = strs_view(arguments@.take(i + 1));
            assert(taken.drop_last() =~= strs_view(arguments@.take(i as int)));
            assert(taken.last() == arguments@[i as int]@);
        }
        i = i + 1;
    }
    assert(arguments@.take(i as int) =~= arguments@);
    match trailing {
        Some(t) => {
            r.push(' ');
            r.push(':');
            r.push(' ');
            r.append(t);
        },
        None => {},
    }
    r.push('\r');
    r.push('\n');
    assert(r@ =~= reply_text(id, success, command@, strs_view(arguments@), opt_str_view(trailing)));
    r
}

pub open spec fn all_in(s: Seq<char>, k: CharClass) -> bool {
    forall|m: int| 0 <= m < s.len() ==> in_class(#[trigger] s[m], k)
}

/// Fields that a line can carry: a command of word characters, non-empty
/// arguments of argument characters, and a trailing text without line
/// breaks that does not start with a blank.
pub open spec fn well_formed(m: MessageView) -> bool {
    &&& all_in(m.command, CharClass::Word)
    &&& forall|i: int|
        0 <= i < m.arguments.len() ==> (#[trigger] m.arguments[i]).len() > 0 && all_in(
            m.arguments[i],
            CharClass::Arg,
        )
    &&& match m.trailing {
        Some(t) => all_in(t, CharClass::Text) && (t.len() > 0 ==> !in_class(t[0], CharClass::Blank)),
        None => true,
    }
}

/// A run of class `k` from `i` to `j`, followed by a character outside `k`
/// or by the end, is the longest run from `i`.
proof fn lemma_run_end_exact(s: Seq<char>, i: int, j: int, k: CharClass)
    requires
        0 <= i <= j <= s.len(),
        forall|m: int| i <= m < j ==> in_class(#[trigger] s[m], k),
        j == s.len() || !in_class(s[j], k),
    ensures
        run_end(s, i, k) == j,
    decreases j - i,
{
    if i < j {
        lemma_run_end_exact(s, i + 1, j, k);
    }
}

proof fn lemma_args_well_formed(s: Seq<char>, i: int)
    requires
        0 <= i <= s.len(),
    ensures
        forall|a: int|
            0 <= a < spec_args(s, i).0.len() ==> (#[trigger] spec_args(s, i).0[a]).len() > 0
                && all_in(spec_args(s, i).0[a], CharClass::Arg),
        i <= spec_args(s, i).1 <= s.len(),
    decreases s.len() - i,
{
    lemma_run_end_bounds(s, i, CharClass::Blank);
    let j = run_end(s, i, CharClass::Blank);
    lemma_run_end_bounds(s, j, CharClass::Arg);
    let k = run_end(s, j, CharClass::Arg);
    if i < j && j < k && k <= s.len() {
        lemma_args_well_formed(s, k);
        let first = s.subrange(j, k);
        let rest = spec_args(s, k).0;
        assert forall|a: int| 0 <= a < spec_args(s, i).0.len() implies (#[trigger] spec_args(
            s,
            i,
        ).0[a]).len() > 0 && all_in(spec_args(s, i).0[a], CharClass::Arg) by {
            if a > 0 {
                assert(spec_args(s, i).0[a] == rest[a - 1]);
            } else {
                assert(spec_args(s, i).0[a] == first);
                assert forall|m: int| 0 <= m < first.len() implies in_class(#[trigger] first[m], CharClass::Arg) by {
                    assert(first[m] == s[j + m]);
                }
            }
        }
    }
}

/// Every line that parses carries well-formed fields.
pub proof fn lemma_parsed_well_formed(s: Seq<char>)
    ensures
        well_formed(spec_fields(s).0),
        0 <= spec_fields(s).1 <= s.len(),
{
    let (id, pos0) = spec_id(s);
    lemma_run_end_bounds(s, 0, CharClass::Digit);
    lemma_run_end_bounds(s, run_end(s, 0, CharClass::Digit), CharClass::Blank);
    let (sign, pos1) = spec_sign(s, pos0);
    lemma_run_end_bounds(s, pos1, CharClass::Word);
    let pos2 = run_end(s, pos1, CharClass::Word);
    let command = s.subrange(pos1, pos2);
    assert forall|m: int| 0 <= m < command.len() implies in_class(#[trigger] command[m], CharClass::Word) by {
        assert(command[m] == s[pos1 + m]);
    }
    lemma_args_well_formed(s, pos2);
    let pos3 = spec_args(s, pos2).1;
    lemma_run_end_bounds(s, pos3, CharClass::Blank);
    let j = run_end(s, pos3, CharClass::Blank);
    if 0 <= j < s.len() && s[j] == ':' {
        lemma_run_end_bounds(s, j + 1, CharClass::Blank);
        let t0 = run_end(s, j + 1, CharClass::Blank);
        lemma_run_end_bounds(s, t0, CharClass::Text);
        let e = run_end(s, t0, CharClass::Text);
        let t = s.subrange(t0, e);
        assert forall|m: int| 0 <= m < t.len() implies in_class(#[trigger] t[m], CharClass::Text) by {
            assert(t[m] == s[t0 + m]);
        }
        if t.len() > 0 {
            assert(t[0] == s[t0]);
        }
    }
}

proof fn lemma_spaced_front(args: Seq<Seq<char>>)
    requires
        args.len() > 0,
    ensures
        spaced(args) == seq![' '] + args[0] + spaced(args.drop_first()),
    decreases args.len(),
{
    if args.len() == 1 {
        assert(args.drop_last() =~= Seq::<Seq<char>>::empty());
        assert(args.drop_first() =~= Seq::<Seq<char>>::empty());
        assert(spaced(args.drop_first()) =~= Seq::<char>::empty());
        assert(spaced(args.drop_last()) =~= Seq::<char>::empty());
        assert(spaced(args) =~= seq![' '] + args[0] + spaced(args.drop_first()));
    } else {
        lemma_spaced_front(args.drop_last());
        assert(args.drop_last().drop_first() =~= args.drop_first().drop_last());
        assert(args.drop_first().last() == args.last());
        assert(spaced(args) =~= seq![' '] + args[0] + spaced(args.drop_first()));
    }
}

/// The arguments of a reply, written at `i` and followed by a stop, parse
/// back as themselves.
proof fn lemma_args_back(s: Seq<char>, i: int, args: Seq<Seq<char>>)
    requires
        0 <= i,
        i + spaced(args).len() <= s.len(),
        s.subrange(i, i + spaced(args).len()) == spaced(args),
        forall|a: int| 0 <= a < args.len() ==> (#[trigger] args[a]).len() > 0 && all_in(args[a], CharClass::Arg),
        spec_args(s, i + spaced(args).len()) == (Seq::<Seq<char>>::empty(), i + spaced(args).len()),
        i + spaced(args).len() == s.len() || !in_class(s[i + spaced(args).len()], CharClass::Arg),
    ensures
        spec_args(s, i) == (args, i + spaced(args).len()),
    decreases args.len(),
{
    if args.len() == 0 {
        assert(spaced(args) =~= Seq::<char>::empty());
        assert(args =~= Seq::<Seq<char>>::empty());
    } else {
        lemma_spaced_front(args);
        let a0 = args[0];
        let tail = args.drop_first();
        let j = i + 1;
        let k = j + a0.len();
        let sp = spaced(args);
        assert(sp[0] == ' ');
        assert(s[i] == sp[0]);
        assert forall|m: int| j <= m < k implies in_class(#[trigger] s[m], CharClass::Arg) by {
            assert(s[m] == sp[m - i]);
            assert(sp[m - i] == a0[m - j]);
        }
        assert(s[j] == sp[1]);
        assert(sp[1] == a0[0]);
        lemma_run_end_exact(s, i, j, CharClass::Blank);
        if tail.len() > 0 {
            lemma_spaced_front(tail);
            assert(s[k] == sp[k - i]);
            assert(sp[k - i] == spaced(tail)[0]);
        }
        lemma_run_end_exact(s, j, k, CharClass::Arg);
        assert(s.subrange(j, k) =~= a0) by {
            assert forall|m: int| 0 <= m < a0.len() implies s.subrange(j, k)[m] == a0[m] by {
                assert(s[j + m] == sp[j + m - i]);
            }
        }
        assert forall|a: int| 0 <= a < tail.len() implies (#[trigger] tail[a]).len() > 0 && all_in(tail[a], CharClass::Arg) by {
            assert(tail[a] == args[a + 1]);
        }
        assert(s.subrange(k, k + spaced(tail).len()) =~= spaced(tail)) by {
            assert forall|m: int| 0 <= m < spaced(tail).len() implies s.subrange(k, k + spaced(tail).len())[m]
                == spaced(tail)[m] by {
                assert(s[k + m] == sp[k + m - i]);
            }
        }
        lemma_args_back(s, k, tail);
        assert(seq![a0] + tail =~= args);
    }
}

pub open spec fn reply_head(id: Option<u32>, success: bool) -> Seq<char> {
    (match id {
        Some(n) => decimal(n as nat).push(' '),
        None => Seq::empty(),
    }) + seq![if success { '+' } else { '-' }]
}

pub open spec fn reply_tail(trailing: Option<Seq<char>>) -> Seq<char> {
    match trailing {
        Some(t) => seq![' ', ':', ' '] + t,
        None => Seq::empty(),
    }
}

proof fn lemma_head_back(s: Seq<char>, id: Option<u32>, success: bool)
    requires
        reply_head(id, success).len() <= s.len(),
        s.subrange(0, reply_head(id, success).len() as int) == reply_head(id, success),
    ensures
        spec_id(s) == (id, reply_head(id, success).len() - 1),
        spec_sign(s, reply_head(id, success).len() - 1) == (Some(success), reply_head(id, success).len() as int),
{
    let pre = reply_head(id, success);
    let pos1 = pre.len() as int;
    let signc = if success { '+' } else { '-' };
    assert(s[pos1 - 1] == pre[pos1 - 1]);
    match id {
        Some(n) => {
            lemma_decimal(n as nat);
            let ds = decimal(n as nat);
            let d = ds.len() as int;
            assert forall|q: int| 0 <= q < d implies in_class(#[trigger] s[q], CharClass::Digit) by {
                assert(s[q] == pre[q]);
            }
            assert(s[d] == pre[d]);
            lemma_run_end_exact(s, 0, d, CharClass::Digit);
            assert(s[d + 1] == pre[d + 1]);
            lemma_run_end_exact(s, d, d + 1, CharClass::Blank);
            assert(s.subrange(0, d) =~= ds);
        },
        None => {
            assert(s[0] == pre[0]);
            lemma_run_end_exact(s, 0, 0, CharClass::Digit);
        },
    }
}

proof fn lemma_tail_back(s: Seq<char>, pos3: int, trailing: Option<Seq<char>>)
    requires
        0 <= pos3,
        pos3 + reply_tail(trailing).len() + 2 == s.len(),
        s.subrange(pos3, pos3 + reply_tail(trailing).len()) == reply_tail(trailing),
        s[pos3 + reply_tail(trailing).len()] == '\r',
        match trailing {
            Some(t) => all_in(t, CharClass::Text) && (t.len() > 0 ==> !in_class(t[0], CharClass::Blank)),
            None => true,
        },
    ensures
        spec_trailing(s, pos3) == (trailing, pos3 + reply_tail(trailing).len()),
        spec_args(s, pos3) == (Seq::<Seq<char>>::empty(), pos3),
        !in_class(s[pos3], CharClass::Arg),
{
    let tp = reply_tail(trailing);
    let pos4 = pos3 + tp.len();
    match trailing {
        Some(t) => {
            assert(s[pos3] == tp[0]);
            assert(s[pos3 + 1] == tp[1]);
            assert(s[pos3 + 2] == tp[2]);
            lemma_run_end_exact(s, pos3, pos3 + 1, CharClass::Blank);
            lemma_run_end_exact(s, pos3 + 1, pos3 + 1, CharClass::Arg);
            let t0 = pos3 + 3;
            if t.len() > 0 {
                assert(s[t0] == tp[3]);
            }
            lemma_run_end_exact(s, pos3 + 2, t0, CharClass::Blank);
            assert forall|q: int| t0 <= q < pos4 implies in_class(#[trigger] s[q], CharClass::Text) by {
                assert(s[q] == tp[q - pos3]);
            }
            lemma_run_end_exact(s, t0, pos4, CharClass::Text);
            assert(s.subrange(t0, pos4) =~= t) by {
                assert forall|q: int| 0 <= q < t.len() implies s.subrange(t0, pos4)[q] == t[q] by {
                    assert(s[t0 + q] == tp[q + 3]);
                }
            }
        },
        None => {
            lemma_run_end_exact(s, pos3, pos3, CharClass::Blank);
        },
    }
}

/// The fields of a reply to well-formed fields parse back as they were,
/// with the reply's sign, and the line break is consumed.
pub proof fn lemma_reply_parses_back(m: MessageView, success: bool)
    requires
        well_formed(m),
    ensures
        spec_line(reply_text(m.id, success, m.command, m.arguments, m.trailing), true) == Ok::<
            (MessageView, Seq<char>),
            int,
        >((MessageView { sign: Some(success), ..m }, Seq::empty())),
{
    let pre = reply_head(m.id, success);
    let sp = spaced(m.arguments);
    let tp = reply_tail(m.trailing);
    let s = reply_text(m.id, success, m.command, m.arguments, m.trailing);
    assert(s =~= pre + m.command + sp + tp + seq!['\r', '\n']);
    let pos1 = pre.len() as int;
    let pos2 = pos1 + m.command.len();
    let pos3 = pos2 + sp.len();
    let pos4 = pos3 + tp.len();
    assert(s.subrange(0, pos1) =~= pre);
    assert(s.subrange(pos1, pos2) =~= m.command);
    assert(s.subrange(pos2, pos3) =~= sp);
    assert(s.subrange(pos3, pos4) =~= tp);
    assert(s[pos4] == '\r');
    assert(s[pos4 + 1] == '\n');
    lemma_head_back(s, m.id, success);
    lemma_tail_back(s, pos3, m.trailing);
    // after the command comes a space or the line break
    if m.arguments.len() > 0 {
        lemma_spaced_front(m.arguments);
        assert(s[pos2] == sp[0]);
    } else {
        if m.trailing is Some {
            assert(s[pos2] == tp[0]);
        }
    }
    assert forall|q: int| pos1 <= q < pos2 implies in_class(#[trigger] s[q], CharClass::Word) by {
        assert(s[q] == m.command[q - pos1]);
    }
    lemma_run_end_exact(s, pos1, pos2, CharClass::Word);
    lemma_args_back(s, pos2, m.arguments);
    assert(spec_line_break(s, pos4) == Some(pos4 + 2));
    assert(s.subrange(pos4 + 2, s.len() as int) =~= Seq::<char>::empty());
}

/// Round trip of the codec: a reply rendered from any parsed line parses
/// back to the same id, command, arguments and trailing text, carries the
/// reply's sign, and keeps the line's own sign when the two agree.
pub proof fn lemma_reply_round_trip(raw: Seq<char>, terminated: bool, success: bool)
    requires
        spec_line(raw, terminated) is Ok,
    ensures
        ({
            let m = spec_line(raw, terminated)->Ok_0.0;
            let back = spec_line(reply_text(m.id, success, m.command, m.arguments, m.trailing), true);
            &&& back is Ok
            &&& back->Ok_0.0.id == m.id
            &&& back->Ok_0.0.sign == Some(success)
            &&& back->Ok_0.0.command == m.command
            &&& back->Ok_0.0.arguments == m.arguments
            &&& back->Ok_0.0.trailing == m.trailing
            &&& m.sign == Some(success) ==> back->Ok_0.0 == m
        }),
{
    lemma_parsed_well_formed(raw);
    let m = spec_fields(raw).0;
    lemma_reply_parses_back(m, success);
}

} // verus!
