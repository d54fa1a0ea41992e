//! Translation records and catalogs, the line parser that builds them, and
//! their rendering back to catalog text.
use crate::text::{
    chars_of, escape, first_quoted, has_prefix, pop_char, push_char, push_decimal, push_escaped,
    push_range, push_trimmed, push_unescaped, quoted_segment, starts_with, trim, unescape, decimal,
};
use vstd::prelude::*;

verus! {

/// One translation record: a key, its translation forms and a developer comment.
#[derive(Debug)]
pub struct Msg {
    pub comment: String,
    pub msgid: String,
    pub msgstr: Vec<String>,
    pub is_plural: bool,
}

/// Mathematical model of a `Msg`.
pub struct MsgView {
    pub comment: Seq<char>,
    pub msgid: Seq<char>,
    pub msgstr: Seq<Seq<char>>,
    pub is_plural: bool,
}

/// The views of a sequence of strings.
pub open spec fn string_views(v: Seq<String>) -> Seq<Seq<char>> {
    v.map_values(|s: String| s@)
}

impl View for Msg {
    type V = MsgView;

    open spec fn view(&self) -> MsgView {
        MsgView {
            comment: self.comment@,
            msgid: self.msgid@,
            msgstr: string_views(self.msgstr@),
            is_plural: self.is_plural,
        }
    }
}

/// The model of `Msg::new()`.
pub open spec fn empty_msg() -> MsgView {
    MsgView {
        comment: Seq::empty(),
        msgid: Seq::empty(),
        msgstr: Seq::empty(),
        is_plural: false,
    }
}

/// The catalog of one language: its tag and its records in file order.
#[derive(Debug)]
pub struct Po {
    pub lang: String,
    pub msgs: Vec<Msg>,
}

/// Mathematical model of a `Po`.
pub struct PoView {
    pub lang: Seq<char>,
    pub msgs: Seq<MsgView>,
}

/// The views of a sequence of records.
pub open spec fn msg_views(v: Seq<Msg>) -> Seq<MsgView> {
    v.map_values(|m: Msg| m@)
}

impl View for Po {
    type V = PoView;

    open spec fn view(&self) -> PoView {
        PoView { lang: self.lang@, msgs: msg_views(self.msgs@) }
    }
}

impl Msg {
    /// An empty, non-plural record.
    pub fn new() -> (r: Msg)
        ensures
            r@ == empty_msg(),
    {
        let r = Msg { comment: String::new(), msgid: String::new(), msgstr: Vec::new(), is_plural: false };
        assert(r@.msgstr =~= Seq::<Seq<char>>::empty());
        r
    }
}

impl Po {
    /// An empty catalog for the language `lang`.
    pub fn new(lang: &str) -> (r: Po)
        ensures
            r@.lang == lang@,
            r@.msgs == Seq::<MsgView>::empty(),
    {
        let r = Po { lang: String::from_str(lang), msgs: Vec::new() };
        assert(r@.msgs =~= Seq::<MsgView>::empty());
        r
    }
}

/// Where the parser stands between two lines: whether a translation string is
/// being read, the record in progress, the translation in progress, and the
/// records finished so far.
pub struct ParseState {
    pub reading: bool,
    pub msg: MsgView,
    pub cur: Seq<char>,
    pub done: Seq<MsgView>,
}

/// The state before the first line.
pub open spec fn initial_state() -> ParseState {
    ParseState { reading: false, msg: empty_msg(), cur: Seq::empty(), done: Seq::empty() }
}

/// The blank line that ends a record: the translation in progress joins the
/// record, one trailing newline leaves the comment, and the record is finished.
pub open spec fn finish_record(st: ParseState) -> ParseState {
    let comment = if st.msg.comment.len() > 0 {
        st.msg.comment.drop_last()
    } else {
        st.msg.comment
    };
    let m = MsgView { comment, msgstr: st.msg.msgstr.push(st.cur), ..st.msg };
    ParseState { reading: false, msg: empty_msg(), cur: Seq::empty(), done: st.done.push(m) }
}

/// The header rules, applied in whatever state: comment, key, plural marker,
/// translation start. `None` where a key or translation line holds no quote.
pub open spec fn read_header(st: ParseState, line: Seq<char>) -> Option<ParseState> {
    if starts_with(line, "#."@) {
        let comment = st.msg.comment + trim(line.skip(2)) + seq!['\n'];
        Some(ParseState { msg: MsgView { comment, ..st.msg }, ..st })
    } else if starts_with(line, "msgid "@) {
        match first_quoted(line) {
            Some(q) => Some(ParseState { msg: MsgView { msgid: q, ..st.msg }, ..st }),
            None => None,
        }
    } else if starts_with(line, "msgid_plural"@) {
        Some(ParseState { msg: MsgView { is_plural: true, ..st.msg }, ..st })
    } else if starts_with(line, "msgstr"@) {
        match first_quoted(line) {
            Some(q) => Some(ParseState { reading: true, cur: unescape(q), ..st }),
            None => None,
        }
    } else {
        Some(st)
    }
}

/// One line of the state machine.
pub open spec fn step(st: ParseState, line: Seq<char>) -> Option<ParseState> {
    if !st.reading {
        read_header(st, line)
    } else if starts_with(line, "\""@) {
        match first_quoted(line) {
            Some(q) => read_header(ParseState { cur: st.cur + unescape(q), ..st }, line),
            None => None,
        }
    } else if starts_with(line, "msgstr"@) {
        let msg = MsgView { msgstr: st.msg.msgstr.push(st.cur), ..st.msg };
        read_header(ParseState { msg, cur: Seq::empty(), ..st }, line)
    } else if line.len() == 0 {
        Some(finish_record(st))
    } else {
        read_header(st, line)
    }
}

/// The state after the given lines, or `None` once one of them is malformed.
pub open spec fn parse_lines(lines: Seq<Seq<char>>) -> Option<ParseState>
    decreases lines.len(),
{
    if lines.len() == 0 {
        Some(initial_state())
    } else {
        match parse_lines(lines.drop_last()) {
            Some(st) => step(st, lines.last()),
            None => None,
        }
    }
}

/// The catalog that the lines of a file for `lang` describe. Records not
/// closed by a blank line are not part of it.
pub open spec fn parse_catalog(lang: Seq<char>, lines: Seq<Seq<char>>) -> Option<PoView> {
    match parse_lines(lines) {
        Some(st) => Some(PoView { lang, msgs: st.done }),
        None => None,
    }
}

proof fn lemma_parse_failure_persists(lines: Seq<Seq<char>>, i: int)
    requires
        0 <= i <= lines.len(),
        parse_lines(lines.take(i)) is None,
    ensures
        parse_lines(lines) is None,
    decreases lines.len(),
{
    if lines.len() > i {
        assert(lines.drop_last().take(i) =~= lines.take(i));
        lemma_parse_failure_persists(lines.drop_last(), i);
    } else {
        assert(lines.take(i) =~= lines);
    }
}

struct Parser {
    reading: bool,
    msg: Msg,
    cur: String,
    done: Vec<Msg>,
}

impl View for Parser {
    type V = ParseState;

    closed spec fn view(&self) -> ParseState {
        ParseState { reading: self.reading, msg: self.msg@, cur: self.cur@, done: msg_views(self.done@) }
    }
}

impl Parser {
    fn read_header(&mut self, line: &Vec<char>) -> (ok: bool)
        ensures
            ok == read_header(old(self)@, line@) is Some,
            ok ==> Some(final(self)@) == read_header(old(self)@, line@),
    {
        if has_prefix(line, "#.") {
            proof {
                reveal_strlit("#.");
            }
            push_trimmed(&mut self.msg.comment, line, 2);
            push_char(&mut self.msg.comment, '\n');
            assert(self.msg.comment@ =~= old(self)@.msg.comment + trim(line@.skip(2)) + seq!['\n']);
            true
        } else if has_prefix(line, "msgid ") {
            match quoted_segment(line) {
                Some(q) => {
                    let mut id = String::new();
                    push_unquoted(&mut id, &q);
                    self.msg.msgid = id;
                    true
                },
                None => false,
            }
        } else if has_prefix(line, "msgid_plural") {
            self.msg.is_plural = true;
            true
        } else if has_prefix(line, "msgstr") {
            match quoted_segment(line) {
                Some(q) => {
                    let mut s = String::new();
                    push_unescaped(&mut s, &q);
                    self.reading = true;
                    self.cur = s;
                    true
                },
                None => false,
            }
        } else {
            true
        }
    }

    fn step(&mut self, line: &Vec<char>) -> (ok: bool)
        ensures
            ok == step(old(self)@, line@) is Some,
            ok ==> Some(final(self)@) == step(old(self)@, line@),
    {
        if !self.reading {
            self.read_header(line)
        } else if has_prefix(line, "\"") {
            match quoted_segment(line) {
                Some(q) => {
                    push_unescaped(&mut self.cur, &q);
                    self.read_header(line)
                },
                None => false,
            }
        } else if has_prefix(line, "msgstr") {
            let ghost m0 = self.msg@;
            let c = self.cur.clone();
            self.msg.msgstr.push(c);
            self.cur = String::new();
            assert(self.msg@.msgstr =~= m0.msgstr.push(old(self)@.cur));
            self.read_header(line)
        } else if line.len() == 0 {
            let ghost st = self@;
            let c = self.cur.clone();
            self.msg.msgstr.push(c);
            pop_char(&mut self.msg.comment);
            let mut m = Msg::new();
            core::mem::swap(&mut m, &mut self.msg);
            self.done.push(m);
            self.cur = String::new();
            self.reading = false;
            assert(self.done@.last()@.msgstr =~= st.msg.msgstr.push(st.cur));
            assert(msg_views(self.done@) =~= finish_record(st).done);
            true
        } else {
            self.read_header(line)
        }
    }
}

fn push_unquoted(out: &mut String, q: &Vec<char>)
    ensures
        final(out)@ == old(out)@ + q@,
{
    push_range(out, q, 0, q.len());
    assert(q@.subrange(0, q@.len() as int) =~= q@);
}

/// The views of the lines of a file.
pub open spec fn line_views(lines: Seq<String>) -> Seq<Seq<char>> {
    lines.map_values(|l: String| l@)
}

impl Po {
    /// Parses the lines of the catalog file of language `lang` (line
    /// terminators removed). `None` when a key or translation line holds no
    /// quote.
    pub fn parse(lang: &str, lines: &Vec<String>) -> (r: Option<Po>)
        ensures
            r is Some <==> parse_catalog(lang@, line_views(lines@)) is Some,
            r is Some ==> parse_catalog(lang@, line_views(lines@)) == Some(r->Some_0@),
    {
        let ghost lv = line_views(lines@);
        let mut p = Parser { reading: false, msg: Msg::new(), cur: String::new(), done: Vec::new() };
        assert(p@.done =~= Seq::<MsgView>::empty());
        assert(lv.take(0) =~= Seq::<Seq<char>>::empty());
        let n = lines.len();
        let mut i: usize = 0;
        while i < n
            invariant
                n == lines@.len(),
                lv == line_views(lines@),
                i <= n,
                parse_lines(lv.take(i as int)) == Some(p@),
            decreases n - i,
        {
            let line = chars_of(lines[i].as_str());
            assert(lv.take(i + 1).drop_last() =~= lv.take(i as int));
            assert(lv.take(i + 1).last() == lines@[i as int]@);
            if !p.step(&line) {
                proof {
                    lemma_parse_failure_persists(lv, i + 1);
                }
                return None;
            }
            i = i + 1;
        }
        assert(lv.take(n as int) =~= lv);
        let r = Po { lang: String::from_str(lang), msgs: p.done };
        Some(r)
    }
}

/// The comment lines of a record from position `s` on: each line of the
/// comment gets the `#. ` marker and ends with a newline; `at_start` says
/// whether a line begins here. As with `str::lines`, a line ends at `\n` or at
/// `\r\n`, and the `\r` of such a pair is dropped.
pub open spec fn comment_lines(s: Seq<char>, at_start: bool) -> Seq<char>
    decreases s.len(),
{
    if s.len() == 0 {
        if at_start {
            Seq::empty()
        } else {
            seq!['\n']
        }
    } else {
        let marker = if at_start {
            "#. "@
        } else {
            Seq::empty()
        };
        if s.len() >= 2 && s[0] == '\r' && s[1] == '\n' {
            marker + seq!['\n'] + comment_lines(s.skip(2), true)
        } else {
            marker + seq![s[0]] + comment_lines(s.drop_first(), s[0] == '\n')
        }
    }
}

/// The comment block that opens a rendered record: one blank line for an
/// empty comment.
pub open spec fn comment_block(c: Seq<char>) -> Seq<char> {
    if c.len() == 0 {
        seq!['\n']
    } else {
        comment_lines(c, true)
    }
}

/// The `msgstr[i] "..."` lines of a plural record's forms.
pub open spec fn plural_form_lines(forms: Seq<Seq<char>>) -> Seq<char>
    decreases forms.len(),
{
    if forms.len() == 0 {
        Seq::empty()
    } else {
        plural_form_lines(forms.drop_last()) + "msgstr["@ + decimal((forms.len() - 1) as nat)
            + "] \""@ + escape(forms.last()) + "\"\n"@
    }
}

/// A record in catalog syntax, closed by a blank line. A record with one
/// translation form is written as a singular one; with any other number of
/// forms, as a plural one.
pub open spec fn msg_text(m: MsgView) -> Seq<char> {
    let body = if m.msgstr.len() == 1 {
        "msgstr \""@ + escape(m.msgstr[0]) + "\"\n"@
    } else {
        "msgid_plural \"\"\n"@ + plural_form_lines(m.msgstr)
    };
    comment_block(m.comment) + "msgid \""@ + m.msgid + "\"\n"@ + body + "\n"@
}

/// The records in catalog syntax, one after the other.
pub open spec fn msgs_text(ms: Seq<MsgView>) -> Seq<char>
    decreases ms.len(),
{
    if ms.len() == 0 {
        Seq::empty()
    } else {
        msgs_text(ms.drop_last()) + msg_text(ms.last())
    }
}

fn push_comment_block(out: &mut String, c: &String)
    ensures
        final(out)@ == old(out)@ + comment_block(c@),
{
    let v = chars_of(c.as_str());
    let n = v.len();
    if n == 0 {
        push_char(out, '\n');
        return;
    }
    let mut at_start = true;
    let mut i: usize = 0;
    assert(v@.skip(0) =~= v@);
    while i < n
        invariant
            n == v@.len(),
            v@ == c@,
            n > 0,
            i <= n,
            old(out)@ + comment_lines(c@, true) == out@ + comment_lines(v@.skip(i as int), at_start),
        decreases n - i,
    {
        let ghost o0 = out@;
        let ghost a0 = at_start;
        let ghost t = v@.skip(i as int);
        assert(t.drop_first() =~= v@.skip(i + 1));
        if at_start {
            out.append("#. ");
        }
        if i + 1 < n && v[i] == '\r' && v[i + 1] == '\n' {
            assert(t.skip(2) =~= v@.skip(i + 2));
            push_char(out, '\n');
            at_start = true;
            assert(o0 + comment_lines(t, a0) =~= out@ + comment_lines(v@.skip(i + 2), at_start));
            i = i + 2;
        } else {
            push_char(out, v[i]);
            at_start = v[i] == '\n';
            assert(o0 + comment_lines(t, a0) =~= out@ + comment_lines(v@.skip(i + 1), at_start));
            i = i + 1;
        }
    }
    if !at_start {
        push_char(out, '\n');
    }
    assert(comment_lines(v@.skip(n as int), at_start) =~= if at_start { Seq::<char>::empty() } else { seq!['\n'] });
    assert(out@ =~= old(out)@ + comment_block(c@));
}

impl Msg {
    /// The record in catalog syntax (see `msg_text`).
    pub fn print(&self) -> (r: String)
        ensures
            r@ == msg_text(self@),
    {
        let mut out = String::new();
        push_comment_block(&mut out, &self.comment);
        out.append("msgid \"");
        out.append(self.msgid.as_str());
        out.append("\"\n");
        if self.msgstr.len() == 1 {
            out.append("msgstr \"");
            push_escaped(&mut out, self.msgstr[0].as_str());
            out.append("\"\n");
        } else {
            out.append("msgid_plural \"\"\n");
            let ghost base = out@;
            let n = self.msgstr.len();
            let mut i: usize = 0;
            assert(string_views(self.msgstr@).take(0) =~= Seq::<Seq<char>>::empty());
            while i < n
                invariant
                    n == self.msgstr@.len(),
                    i <= n,
                    out@ == base + plural_form_lines(string_views(self.msgstr@).take(i as int)),
                decreases n - i,
            {
                let ghost fs = string_views(self.msgstr@).take(i + 1);
                assert(fs.drop_last() =~= string_views(self.msgstr@).take(i as int));
                out.append("msgstr[");
                push_decimal(&mut out, i);
                out.append("] \"");
                push_escaped(&mut out, self.msgstr[i].as_str());
                out.append("\"\n");
                i = i + 1;
                assert(out@ =~= base + plural_form_lines(fs));
            }
            assert(string_views(self.msgstr@).take(n as int) =~= string_views(self.msgstr@));
        }
        out.append("\n");
        assert(out@ =~= msg_text(self@));
        out
    }
}

impl Po {
    /// All records of the catalog in catalog syntax.
    pub fn print(&self) -> (r: String)
        ensures
            r@ == msgs_text(self@.msgs),
    {
        let mut out = String::new();
        let n = self.msgs.len();
        let mut i: usize = 0;
        assert(self@.msgs.take(0) =~= Seq::<MsgView>::empty());
        while i < n
            invariant
                n == self.msgs@.len(),
                i <= n,
                out@ == msgs_text(self@.msgs.take(i as int)),
            decreases n - i,
        {
            assert(self@.msgs.take(i + 1).drop_last() =~= self@.msgs.take(i as int));
            let t = self.msgs[i].print();
            out.append(t.as_str());
            i = i + 1;
        }
        assert(self@.msgs.take(n as int) =~= self@.msgs);
        out
    }
}

} // verus!
