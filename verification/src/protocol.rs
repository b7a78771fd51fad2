//! IRC lines: parsing a line into a `Message` and serializing a `Message` into a line.

use vstd::prelude::*;

use crate::text;
use crate::text::{
    all_whitespace, chars_of, contains_char, find_char, push_text, skip_whitespace,
    string_from_range, upper_string_from_range,
};

verus! {

/// One IRC message: an optional prefix, a command and its parameters.
#[derive(Debug, Clone, PartialEq, Eq)]
pub struct Message {
    pub prefix: Option<String>,
    pub command: String,
    pub params: Vec<String>,
}

/// The value of a `Message`, its strings taken as sequences of characters.
#[verifier::ext_equal]
pub struct MessageView {
    pub prefix: Option<Seq<char>>,
    pub command: Seq<char>,
    pub params: Seq<Seq<char>>,
}

/// Why a line is not a message.
#[derive(Debug)]
pub enum ParseError {
    /// The line is blank, or holds a prefix and nothing after it.
    EmptyLine,
}

impl View for Message {
    type V = MessageView;

    open spec fn view(&self) -> MessageView {
        MessageView {
            prefix: text::opt_view(self.prefix),
            command: self.command@,
            params: text::strings_view(self.params@),
        }
    }
}

// ---------------------------------------------------------------------------
// What a line means
// ---------------------------------------------------------------------------
/// The parameters that follow position `i` of the line `l`, where `i` is past any
/// whitespace: a parameter that begins with `:` takes the rest of the line; any other
/// runs up to the next space, after which whitespace is skipped.
pub open spec fn params_from(l: Seq<char>, i: int) -> Seq<Seq<char>>
    decreases l.len() - i,
{
    if i < 0 || i >= l.len() {
        Seq::empty()
    } else if l[i] == ':' {
        seq![l.subrange(i + 1, l.len() as int)]
    } else {
        let sp = text::char_from(l, i, ' ');
        if sp < l.len() {
            proof {
                text::lemma_char_from_bounds(l, i, ' ');
                text::lemma_skip_ws_bounds(l, sp + 1);
            }
            seq![l.subrange(i, sp)] + params_from(l, text::skip_ws(l, sp + 1))
        } else {
            seq![l.subrange(i, l.len() as int)]
        }
    }
}

/// The message whose command starts at position `r` of the line `l`: the command runs
/// up to the next space, upper-cased; the parameters follow.
pub open spec fn command_at(l: Seq<char>, r: int, prefix: Option<Seq<char>>) -> MessageView {
    let sp = text::char_from(l, r, ' ');
    if sp < l.len() {
        MessageView {
            prefix,
            command: text::upper(l.subrange(r, sp)),
            params: params_from(l, text::skip_ws(l, sp + 1)),
        }
    } else {
        MessageView { prefix, command: text::upper(l.subrange(r, l.len() as int)), params: Seq::empty() }
    }
}

/// The message that a line (without its line ending) holds, if any. A blank line holds
/// none; a line that begins with `:` holds a prefix up to the first space, and none if it
/// has no space; the command follows, after any whitespace.
pub open spec fn parse_line(l: Seq<char>) -> Option<MessageView> {
    if text::all_ws(l) {
        None
    } else if l[0] == ':' {
        let sp = text::char_from(l, 1, ' ');
        if sp >= l.len() {
            None
        } else {
            Some(command_at(l, text::skip_ws(l, sp + 1), Some(l.subrange(1, sp))))
        }
    } else {
        Some(command_at(l, 0, None))
    }
}

/// The message that an input line holds, once its leading and trailing carriage returns
/// and line feeds are removed.
pub open spec fn spec_parse(input: Seq<char>) -> Option<MessageView> {
    parse_line(text::trim_crlf(input))
}

// ---------------------------------------------------------------------------
// How a message is written
// ---------------------------------------------------------------------------
/// Whether a last parameter must be written after a `:`: it holds a space, begins with
/// `:`, or is empty.
pub open spec fn needs_colon(p: Seq<char>) -> bool {
    text::has_char(p, ' ') || (p.len() > 0 && p[0] == ':') || p.len() == 0
}

/// The text of parameter `i`: a space, a `:` where the last parameter needs one, and
/// the parameter.
pub open spec fn param_text(ps: Seq<Seq<char>>, i: int) -> Seq<char> {
    if i == ps.len() - 1 && needs_colon(ps[i]) {
        seq![' ', ':'] + ps[i]
    } else {
        seq![' '] + ps[i]
    }
}

/// The text of the first `n` parameters.
pub open spec fn params_text(ps: Seq<Seq<char>>, n: int) -> Seq<char>
    decreases n,
{
    if n <= 0 {
        Seq::empty()
    } else {
        params_text(ps, n - 1) + param_text(ps, n - 1)
    }
}

pub open spec fn prefix_text(prefix: Option<Seq<char>>) -> Seq<char> {
    match prefix {
        Some(p) => seq![':'] + p + seq![' '],
        None => Seq::empty(),
    }
}

/// The line that a message is written as, without its line ending.
pub open spec fn message_body(m: MessageView) -> Seq<char> {
    prefix_text(m.prefix) + m.command + params_text(m.params, m.params.len() as int)
}

/// The line that a message is written as, ending with a carriage return and a line feed.
pub open spec fn spec_serialize(m: MessageView) -> Seq<char> {
    message_body(m) + seq!['\r', '\n']
}

/// The characters of `v[from..to]`, copied.
fn copy_range(v: &Vec<char>, from: usize, to: usize) -> (res: Vec<char>)
    requires
        from <= to <= v.len(),
    ensures
        res@ == v@.subrange(from as int, to as int),
{
    let mut res: Vec<char> = Vec::new();
    let mut i = from;
    while i < to
        invariant
            from <= i <= to <= v.len(),
            res@ == v@.subrange(from as int, i as int),
        decreases to - i,
    {
        res.push(v[i]);
        i = i + 1;
    }
    res
}

/// The characters of `input` without its leading and trailing carriage returns and line
/// feeds.
fn trimmed_line(input: &str) -> (res: Vec<char>)
    ensures
        res@ == text::trim_crlf(input@),
{
    let v = chars_of(input);
    let mut a: usize = 0;
    while a < v.len() && (v[a] == '\r' || v[a] == '\n')
        invariant
            a <= v.len(),
            text::skip_crlf(v@, 0) == text::skip_crlf(v@, a as int),
        decreases v.len() - a,
    {
        a = a + 1;
    }
    if a >= v.len() {
        return Vec::new();
    }
    let mut b: usize = v.len();
    while b > 0 && (v[b - 1] == '\r' || v[b - 1] == '\n')
        invariant
            b <= v.len(),
            text::back_crlf(v@, v@.len() as int) == text::back_crlf(v@, b as int),
        decreases b,
    {
        b = b - 1;
    }
    proof {
        text::lemma_back_crlf_bounds(v@, v@.len() as int);
        assert(!text::is_crlf(v@[a as int]));
    }
    copy_range(&v, a, b)
}

/// The parameters that follow position `i` of the line.
fn parse_params(l: &Vec<char>, i: usize) -> (res: Vec<String>)
    requires
        i <= l.len(),
    ensures
        text::strings_view(res@) == params_from(l@, i as int),
{
    let mut out: Vec<String> = Vec::new();
    let mut k = i;
    loop
        invariant
            i <= k <= l.len(),
            text::strings_view(out@) + params_from(l@, k as int) == params_from(l@, i as int),
        decreases l.len() - k,
    {
        let ghost before = out@;
        if k >= l.len() {
            assert(text::strings_view(out@) + params_from(l@, k as int) =~= text::strings_view(out@));
            return out;
        }
        if l[k] == ':' {
            let p = string_from_range(l, k + 1, l.len());
            out.push(p);
            assert(text::strings_view(out@) =~= text::strings_view(before) + params_from(l@, k as int));
            return out;
        }
        let sp = find_char(l, k, ' ');
        proof {
            text::lemma_char_from_bounds(l@, k as int, ' ');
        }
        if sp < l.len() {
            let p = string_from_range(l, k, sp);
            out.push(p);
            let next = skip_whitespace(l, sp + 1);
            proof {
                text::lemma_skip_ws_bounds(l@, sp + 1);
                assert(text::strings_view(out@) =~= text::strings_view(before) + seq![l@.subrange(k as int, sp as int)]);
                assert(params_from(l@, k as int) == seq![l@.subrange(k as int, sp as int)]
                    + params_from(l@, next as int));
                assert(text::strings_view(out@) + params_from(l@, next as int) =~= text::strings_view(before)
                    + params_from(l@, k as int));
            }
            k = next;
        } else {
            let p = string_from_range(l, k, l.len());
            out.push(p);
            assert(text::strings_view(out@) =~= text::strings_view(before) + params_from(l@, k as int));
            return out;
        }
    }
}

impl Message {
    /// Parses one IRC line. Carriage returns and line feeds at either end are ignored;
    /// the command is upper-cased.
    pub fn parse(input: &str) -> (res: Result<Message, ParseError>)
        ensures
            match res {
                Ok(m) => spec_parse(input@) == Some(m@),
                Err(_) => spec_parse(input@) is None,
            },
    {
        let line = trimmed_line(input);
        if all_whitespace(&line) {
            return Err(ParseError::EmptyLine);
        }
        let prefix: Option<String>;
        let r: usize;
        if line[0] == ':' {
            let sp = find_char(&line, 1, ' ');
            proof {
                text::lemma_char_from_bounds(line@, 1, ' ');
            }
            if sp >= line.len() {
                return Err(ParseError::EmptyLine);
            }
            prefix = Some(string_from_range(&line, 1, sp));
            r = skip_whitespace(&line, sp + 1);
            proof {
                text::lemma_skip_ws_bounds(line@, sp + 1);
            }
        } else {
            prefix = None;
            r = 0;
        }
        let sp = find_char(&line, r, ' ');
        proof {
            text::lemma_char_from_bounds(line@, r as int, ' ');
        }
        if sp < line.len() {
            let command = upper_string_from_range(&line, r, sp);
            let start = skip_whitespace(&line, sp + 1);
            proof {
                text::lemma_skip_ws_bounds(line@, sp + 1);
            }
            let params = parse_params(&line, start);
            Ok(Message { prefix, command, params })
        } else {
            let command = upper_string_from_range(&line, r, line.len());
            let params: Vec<String> = Vec::new();
            let m = Message { prefix, command, params };
            assert(m@.params =~= Seq::<Seq<char>>::empty());
            Ok(m)
        }
    }

    /// Writes the message as one IRC line ending with CR LF. The last parameter is
    /// written after a `:` when it holds a space, begins with `:`, or is empty.
    pub fn serialize(&self) -> (res: String)
        ensures
            res@ == spec_serialize(self@),
    {
        let mut message = String::new();
        match &self.prefix {
            Some(prefix) => {
                message.push(':');
                push_text(&mut message, prefix.as_str());
                message.push(' ');
            },
            None => {},
        }
        push_text(&mut message, self.command.as_str());
        let ghost head = message@;
        assert(head == prefix_text(self@.prefix) + self@.command);
        let n = self.params.len();
        let mut i: usize = 0;
        while i < n
            invariant
                i <= n == self.params.len(),
                self@.params.len() == n,
                message@ == head + params_text(self@.params, i as int),
            decreases n - i,
        {
            let param = &self.params[i];
            let pv = chars_of(param.as_str());
            message.push(' ');
            let is_last = i == n - 1;
            let requires_trailing = is_last && (contains_char(&pv, ' ') || (pv.len() > 0
                && pv[0] == ':') || pv.len() == 0);
            if requires_trailing {
                message.push(':');
            }
            push_text(&mut message, param.as_str());
            proof {
                assert(self@.params[i as int] == param@);
                assert(message@ =~= head + params_text(self@.params, i as int) + param_text(
                    self@.params,
                    i as int,
                ));
            }
            i = i + 1;
        }
        message.push('\r');
        message.push('\n');
        assert(message@ =~= spec_serialize(self@));
        message
    }
}

// ---------------------------------------------------------------------------
// Reading back what was written
// ---------------------------------------------------------------------------
/// A parameter before the last one that reads back as itself: not empty, no space, and
/// not beginning with `:` or whitespace.
pub open spec fn middle_param_ok(p: Seq<char>) -> bool {
    &&& p.len() > 0
    &&& !text::has_char(p, ' ')
    &&& p[0] != ':'
    &&& !text::is_ws(p[0])
}

/// A last parameter that reads back as itself: it does not end with a carriage return or
/// a line feed, and, where it is written without a `:`, does not begin with whitespace.
pub open spec fn last_param_ok(p: Seq<char>) -> bool {
    &&& (p.len() > 0 ==> !text::is_crlf(p.last()))
    &&& (!needs_colon(p) ==> !text::is_ws(p[0]))
}

pub open spec fn params_ok(ps: Seq<Seq<char>>) -> bool {
    &&& forall|i: int| 0 <= i < ps.len() - 1 ==> middle_param_ok(#[trigger] ps[i])
    &&& ps.len() > 0 ==> last_param_ok(ps.last())
}

/// A message that its line reads back as: a prefix without spaces; a command that is
/// upper-case, not empty, without spaces, that does not begin with whitespace (nor with
/// `:` when there is no prefix) and, when there are no parameters, does not end with a
/// carriage return or a line feed; and parameters as `params_ok` says.
pub open spec fn well_formed_message(m: MessageView) -> bool {
    &&& match m.prefix {
        Some(p) => !text::has_char(p, ' '),
        None => true,
    }
    &&& m.command.len() > 0
    &&& !text::has_char(m.command, ' ')
    &&& !text::is_ws(m.command[0])
    &&& (m.prefix is None ==> m.command[0] != ':')
    &&& text::upper(m.command) == m.command
    &&& (m.params.len() == 0 ==> !text::is_crlf(m.command.last()))
    &&& params_ok(m.params)
}

/// The text of the first `j` parameters begins the text of the first `k`, for `j <= k`.
pub proof fn lemma_params_text_prefix(ps: Seq<Seq<char>>, j: int, k: int)
    requires
        0 <= j <= k,
    ensures
        params_text(ps, j).len() <= params_text(ps, k).len(),
        params_text(ps, k).subrange(0, params_text(ps, j).len() as int) == params_text(ps, j),
    decreases k - j,
{
    if j < k {
        lemma_params_text_prefix(ps, j, k - 1);
        let a = params_text(ps, k - 1);
        let b = params_text(ps, k);
        assert(b == a + param_text(ps, k - 1));
        assert(b.subrange(0, params_text(ps, j).len() as int) =~= a.subrange(
            0,
            params_text(ps, j).len() as int,
        ));
    } else {
        assert(params_text(ps, k).subrange(0, params_text(ps, k).len() as int) =~= params_text(
            ps,
            k,
        ));
    }
}

/// Where `b` ends with the text of all the parameters, from position `x`, the parameters
/// read from the `j`-th one on are the parameters from `j` on.
proof fn lemma_params_read_back(b: Seq<char>, x: int, ps: Seq<Seq<char>>, j: int)
    requires
        params_ok(ps),
        0 <= j < ps.len(),
        0 <= x,
        b.len() == x + params_text(ps, ps.len() as int).len(),
        b.subrange(x, b.len() as int) == params_text(ps, ps.len() as int),
    ensures
        params_from(b, text::skip_ws(b, x + params_text(ps, j).len() + 1)) == ps.subrange(
            j,
            ps.len() as int,
        ),
    decreases ps.len() - j,
{
    let n = ps.len() as int;
    let t = params_text(ps, n);
    let lj = params_text(ps, j).len() as int;
    let l1 = params_text(ps, j + 1).len() as int;
    let q = param_text(ps, j);
    let p = ps[j];
    lemma_params_text_prefix(ps, j + 1, n);
    assert(params_text(ps, j + 1) == params_text(ps, j) + q);
    assert(l1 == lj + q.len());
    assert forall|i: int| 0 <= i < q.len() implies b[x + lj + i] == q[i] by {
        assert(b[x + lj + i] == b.subrange(x, b.len() as int)[lj + i]);
        assert(t.subrange(0, l1)[lj + i] == t[lj + i]);
        assert(params_text(ps, j + 1)[lj + i] == q[i]);
    }
    let start = x + lj + 1;
    if j < n - 1 {
        assert(middle_param_ok(ps[j]));
        assert(q == seq![' '] + p);
        assert forall|i: int| 0 <= i < p.len() implies b[start + i] == p[i] by {
            assert(b[x + lj + (i + 1)] == q[i + 1]);
        }
        // The parameter after this one begins with a space.
        lemma_params_text_prefix(ps, j + 2, n);
        let q1 = param_text(ps, j + 1);
        assert(params_text(ps, j + 2) == params_text(ps, j + 1) + q1);
        assert(q1[0] == ' ');
        assert(b[x + l1] == ' ') by {
            assert(b[x + l1] == b.subrange(x, b.len() as int)[l1]);
            assert(t.subrange(0, params_text(ps, j + 2).len() as int)[l1] == t[l1]);
            assert(params_text(ps, j + 2)[l1] == q1[0]);
        }
        assert(text::skip_ws(b, start) == start) by {
            assert(b[start] == p[0]);
        }
        assert forall|m: int| start <= m < x + l1 implies b[m] != ' ' by {
            assert(b[m] == p[m - start]);
            if b[m] == ' ' {
                assert(text::has_char(p, ' '));
            }
        }
        text::lemma_char_from_at(b, start, x + l1, ' ');
        assert(b.subrange(start, x + l1) =~= p);
        lemma_params_read_back(b, x, ps, j + 1);
        assert(b[start] == p[0]);
        assert(params_from(b, start) == seq![p] + params_from(b, text::skip_ws(b, x + l1 + 1)));
        assert(seq![p] + ps.subrange(j + 1, n) =~= ps.subrange(j, n));
    } else {
        assert(l1 == t.len());
        assert(last_param_ok(p));
        if needs_colon(p) {
            assert(q == seq![' ', ':'] + p);
            assert(b[start] == q[1]);
            assert(text::skip_ws(b, start) == start);
            assert forall|i: int| 0 <= i < p.len() implies b[start + 1 + i] == p[i] by {
                assert(b[x + lj + (i + 2)] == q[i + 2]);
            }
            assert(b.subrange(start + 1, b.len() as int) =~= p);
            assert(seq![p] =~= ps.subrange(j, n));
        } else {
            assert(q == seq![' '] + p);
            assert forall|i: int| 0 <= i < p.len() implies b[start + i] == p[i] by {
                assert(b[x + lj + (i + 1)] == q[i + 1]);
            }
            assert(b[start] == p[0]);
            assert(text::skip_ws(b, start) == start);
            assert forall|m: int| start <= m < b.len() implies b[m] != ' ' by {
                assert(b[m] == p[m - start]);
                if b[m] == ' ' {
                    assert(text::has_char(p, ' '));
                }
            }
            text::lemma_char_from_at(b, start, b.len() as int, ' ');
            assert(b.subrange(start, b.len() as int) =~= p);
            assert(seq![p] =~= ps.subrange(j, n));
        }
    }
}

/// Parsing the line that a well-formed message is written as gives back that message.
pub proof fn lemma_parse_serialize_roundtrip(m: MessageView)
    requires
        well_formed_message(m),
    ensures
        spec_parse(spec_serialize(m)) == Some(m),
{
    let x = prefix_text(m.prefix);
    let c0 = x.len() as int;
    let cmd = m.command;
    let ps = m.params;
    let n = ps.len() as int;
    let t = params_text(ps, n);
    let b = message_body(m);
    let s = spec_serialize(m);
    assert(b == x + cmd + t);
    let cl = c0 + cmd.len();
    assert(b.len() == cl + t.len());
    assert forall|i: int| 0 <= i < cmd.len() implies b[c0 + i] == cmd[i] by {
        assert((x + cmd)[c0 + i] == cmd[i]);
    }
    assert(b.subrange(cl, b.len() as int) =~= t);
    assert(b.subrange(c0, cl) =~= cmd);
    // The line ends with a character that is not a carriage return or a line feed.
    if n == 0 {
        assert(t.len() == 0);
        assert(b.last() == cmd.last()) by {
            assert(b[b.len() - 1] == b[c0 + (cmd.len() - 1)]);
        }
    } else {
        let q = param_text(ps, n - 1);
        assert(t == params_text(ps, n - 1) + q);
        assert(t.last() == q.last());
        assert(last_param_ok(ps.last()));
        if needs_colon(ps[n - 1]) {
            if ps[n - 1].len() > 0 {
                assert(q.last() == ps[n - 1].last());
            } else {
                assert(q.last() == ':');
            }
        } else {
            assert(q.last() == ps[n - 1].last());
        }
        assert(b.last() == t.last()) by {
            assert(b[b.len() - 1] == b.subrange(cl, b.len() as int)[t.len() - 1]);
        }
    }
    assert(!text::is_crlf(b.last()));
    // Trimming the line ending gives the body back.
    assert(s == b + seq!['\r', '\n']);
    assert(s[0] == b[0]);
    match m.prefix {
        Some(p) => {
            assert(b[0] == ':');
        },
        None => {
            assert(b[0] == cmd[0]);
        },
    }
    assert(!text::is_crlf(s[0]));
    assert(text::skip_crlf(s, 0) == 0);
    assert(text::is_crlf(s[s.len() - 1]));
    assert(text::is_crlf(s[s.len() - 2]));
    assert(s[b.len() - 1] == b.last());
    assert(text::back_crlf(s, b.len() as int) == b.len());
    assert(text::back_crlf(s, s.len() - 1) == b.len());
    assert(text::back_crlf(s, s.len() as int) == b.len());
    assert(s.subrange(0, b.len() as int) =~= b);
    assert(text::trim_crlf(s) == b);
    // The line is not blank.
    assert(!text::all_ws(b)) by {
        match m.prefix {
            Some(p) => {
                assert(!text::is_ws(b[0]));
            },
            None => {
                assert(!text::is_ws(b[0]));
            },
        }
    }
    // The command ends at the first space after it, or at the end of the line.
    if n > 0 {
        lemma_params_text_prefix(ps, 1, n);
        assert(params_text(ps, 1) == params_text(ps, 0) + param_text(ps, 0));
        assert(param_text(ps, 0)[0] == ' ');
        assert(t[0] == ' ') by {
            assert(t.subrange(0, params_text(ps, 1).len() as int)[0] == t[0]);
        }
        assert(b[cl] == t[0]);
    }
    assert forall|k: int| c0 <= k < cl implies b[k] != ' ' by {
        assert(b[k] == cmd[k - c0]);
        if b[k] == ' ' {
            assert(text::has_char(cmd, ' '));
        }
    }
    text::lemma_char_from_at(b, c0, cl, ' ');
    // The prefix, if any, is read back, and the command starts right after it.
    let r = match m.prefix {
        Some(p) => {
            let pl = p.len() as int;
            assert forall|i: int| 0 <= i < p.len() implies b[1 + i] == p[i] by {
                assert(x[1 + i] == p[i]);
                assert((x + cmd)[1 + i] == p[i]);
            }
            assert(b[1 + pl] == ' ') by {
                assert(x[1 + pl] == ' ');
                assert((x + cmd)[1 + pl] == ' ');
            }
            assert forall|k: int| 1 <= k < 1 + pl implies b[k] != ' ' by {
                assert(b[k] == p[k - 1]);
                if b[k] == ' ' {
                    assert(text::has_char(p, ' '));
                }
            }
            text::lemma_char_from_at(b, 1, 1 + pl, ' ');
            assert(b.subrange(1, 1 + pl) =~= p);
            assert(b[c0] == cmd[0]);
            assert(text::skip_ws(b, c0) == c0);
            c0
        },
        None => {
            assert(b[0] == cmd[0]);
            0
        },
    };
    assert(r == c0);
    assert(text::upper(cmd) == cmd);
    if n == 0 {
        assert(ps =~= Seq::<Seq<char>>::empty());
        assert(parse_line(b) == Some(m));
    } else {
        lemma_params_read_back(b, cl, ps, 0);
        assert(params_text(ps, 0).len() == 0);
        assert(ps.subrange(0, n) =~= ps);
        assert(parse_line(b) == Some(m));
    }
}

} // verus!
