//! Properties that relate the parser, the renderer and the generator.
use crate::elm::{
    camel_with, ident, lower_of, segment_heads, upper_of, uppers,
    branch_text, branches_text, find_msg, fn_text, lemma_module_failure_persists, module_text,
};
use crate::keys::{has_record, is_unified_key_list, key_lt, key_set, lemma_key_lt_order};
use crate::po::{
    empty_msg, finish_record, initial_state, msg_text, parse_catalog, parse_lines, read_header, step,
    MsgView, ParseState, PoView,
};
use crate::text::{escape, first_quoted, is_ws, starts_with, trim, trim_end, trim_start, unescape, upto_quote};
use vstd::prelude::*;

verus! {

/// The line `msgid "k"`.
pub open spec fn msgid_line(k: Seq<char>) -> Seq<char> {
    "msgid \""@ + k + "\""@
}

/// The line `msgstr "t"`.
pub open spec fn msgstr_line(t: Seq<char>) -> Seq<char> {
    "msgstr \""@ + t + "\""@
}

/// Whether `s` holds no `"`.
pub open spec fn quote_free(s: Seq<char>) -> bool {
    forall|i: int| 0 <= i < s.len() ==> s[i] != '"'
}

proof fn lemma_upto_quote(k: Seq<char>, rest: Seq<char>)
    requires
        quote_free(k),
    ensures
        upto_quote(k + seq!['"'] + rest) == k,
    decreases k.len(),
{
    if k.len() == 0 {
        assert((k + seq!['"'] + rest)[0] == '"');
    } else {
        assert((k + seq!['"'] + rest).drop_first() =~= k.drop_first() + seq!['"'] + rest);
        lemma_upto_quote(k.drop_first(), rest);
        assert(k =~= seq![k[0]] + k.drop_first());
    }
}

/// The first quoted segment of `p"k"rest` is `k`.
proof fn lemma_first_quoted(p: Seq<char>, k: Seq<char>, rest: Seq<char>)
    requires
        quote_free(p),
        quote_free(k),
    ensures
        first_quoted(p + seq!['"'] + k + rest) == Some(upto_quote(k + rest)),
    decreases p.len(),
{
    let s = p + seq!['"'] + k + rest;
    if p.len() == 0 {
        assert(s[0] == '"');
        assert(s.drop_first() =~= k + rest);
    } else {
        assert(s.drop_first() =~= p.drop_first() + seq!['"'] + k + rest);
        lemma_first_quoted(p.drop_first(), k, rest);
    }
}

proof fn lemma_quoted_line(p: Seq<char>, k: Seq<char>)
    requires
        quote_free(p),
        quote_free(k),
    ensures
        first_quoted(p + seq!['"'] + k + seq!['"']) == Some(k),
{
    lemma_first_quoted(p, k, seq!['"']);
    lemma_upto_quote(k, Seq::empty());
    assert(k + seq!['"'] =~= k + seq!['"'] + Seq::<char>::empty());
}

proof fn lemma_escape_unescape(t: Seq<char>)
    requires
        forall|i: int| 0 <= i < t.len() ==> t[i] != '\n',
    ensures
        escape(unescape(t)) == t,
    decreases t.len(),
{
    if t.len() == 0 {
    } else if t.len() >= 2 && t[0] == '\\' && t[1] == 'n' {
        lemma_escape_unescape(t.skip(2));
        let u = seq!['\n'] + unescape(t.skip(2));
        assert(u.drop_first() =~= unescape(t.skip(2)));
        assert(t =~= seq!['\\', 'n'] + t.skip(2));
    } else {
        lemma_escape_unescape(t.drop_first());
        let u = seq![t[0]] + unescape(t.drop_first());
        assert(u.drop_first() =~= unescape(t.drop_first()));
        assert(t =~= seq![t[0]] + t.drop_first());
    }
}

/// Facts on the header tokens that the lines of these properties begin with.
proof fn lemma_line_shapes(k: Seq<char>, t: Seq<char>)
    requires
        quote_free(k),
        quote_free(t),
    ensures
        msgid_line(k) == "msgid "@ + seq!['"'] + k + seq!['"'],
        msgstr_line(t) == "msgstr "@ + seq!['"'] + t + seq!['"'],
        starts_with(msgid_line(k), "msgid "@),
        !starts_with(msgid_line(k), "#."@),
        !starts_with(msgstr_line(t), "#."@),
        !starts_with(msgstr_line(t), "msgid "@),
        !starts_with(msgstr_line(t), "msgid_plural"@),
        starts_with(msgstr_line(t), "msgstr"@),
        first_quoted(msgid_line(k)) == Some(k),
        first_quoted(msgstr_line(t)) == Some(t),
{
    reveal_strlit("msgid \"");
    reveal_strlit("msgstr \"");
    reveal_strlit("\"");
    reveal_strlit("msgid ");
    reveal_strlit("msgstr ");
    reveal_strlit("#.");
    reveal_strlit("msgid_plural");
    reveal_strlit("msgstr");
    assert(msgid_line(k) =~= "msgid "@ + seq!['"'] + k + seq!['"']);
    assert(msgstr_line(t) =~= "msgstr "@ + seq!['"'] + t + seq!['"']);
    assert(msgid_line(k).subrange(0, 6) =~= "msgid "@);
    assert(msgstr_line(t).subrange(0, 6) =~= "msgstr"@);
    assert(msgid_line(k).subrange(0, 2) != "#."@ ) by {
        assert(msgid_line(k).subrange(0, 2)[0] != "#."@[0]);
    }
    assert(msgstr_line(t).subrange(0, 2) != "#."@ ) by {
        assert(msgstr_line(t).subrange(0, 2)[0] != "#."@[0]);
    }
    assert(msgstr_line(t).subrange(0, 6) != "msgid "@ ) by {
        assert(msgstr_line(t).subrange(0, 6)[3] != "msgid "@[3]);
    }
    if msgstr_line(t).len() >= 12 {
        assert(msgstr_line(t).subrange(0, 12) != "msgid_plural"@ ) by {
            assert(msgstr_line(t).subrange(0, 12)[3] != "msgid_plural"@[3]);
        }
    }
    assert forall|i: int| 0 <= i < "msgid "@.len() implies "msgid "@[i] != '"' by {}
    assert forall|i: int| 0 <= i < "msgstr "@.len() implies "msgstr "@[i] != '"' by {}
    lemma_quoted_line("msgid "@, k);
    lemma_quoted_line("msgstr "@, t);
}

/// The record that a key line, a translation line and a blank line describe.
pub open spec fn singular_record(comment: Seq<char>, k: Seq<char>, t: Seq<char>) -> MsgView {
    MsgView { comment, msgid: k, msgstr: seq![unescape(t)], is_plural: false }
}

/// Round trip of one singular record: the lines `msgid "k"`, `msgstr "t"` and
/// a blank line parse into one record with key `k` and translation `t`, its
/// escapes decoded; rendering that record gives back the same two lines,
/// escapes included, after the blank line of its empty comment.
pub proof fn lemma_single_record_round_trip(lang: Seq<char>, k: Seq<char>, t: Seq<char>)
    requires
        quote_free(k),
        quote_free(t),
        forall|i: int| 0 <= i < t.len() ==> t[i] != '\n',
    ensures
        parse_catalog(lang, seq![msgid_line(k), msgstr_line(t), Seq::empty()]) == Some(
            PoView { lang, msgs: seq![singular_record(Seq::empty(), k, t)] },
        ),
        msg_text(singular_record(Seq::empty(), k, t)) == seq!['\n'] + msgid_line(k) + seq!['\n']
            + msgstr_line(t) + seq!['\n'] + seq!['\n'],
{
    lemma_line_shapes(k, t);
    let lines = seq![msgid_line(k), msgstr_line(t), Seq::<char>::empty()];
    assert(lines.drop_last().drop_last().drop_last() =~= Seq::<Seq<char>>::empty());
    assert(lines.drop_last().drop_last().last() == msgid_line(k));
    assert(lines.drop_last().last() == msgstr_line(t));
    let s1 = ParseState { msg: MsgView { msgid: k, ..empty_msg() }, ..initial_state() };
    assert(parse_lines(lines.drop_last().drop_last().drop_last()) == Some(initial_state()));
    assert(read_header(initial_state(), msgid_line(k)) == Some(s1));
    assert(parse_lines(lines.drop_last().drop_last()) == Some(s1));
    let s2 = ParseState { reading: true, cur: unescape(t), ..s1 };
    assert(parse_lines(lines.drop_last()) == Some(s2));
    reveal_strlit("\"");
    reveal_strlit("msgstr");
    assert(!starts_with(Seq::<char>::empty(), "\""@));
    assert(!starts_with(Seq::<char>::empty(), "msgstr"@));
    let r = singular_record(Seq::empty(), k, t);
    assert(finish_record(s2).done =~= seq![r]);
    lemma_escape_unescape(t);
    reveal_strlit("msgid \"");
    reveal_strlit("\"\n");
    reveal_strlit("msgstr \"");
    reveal_strlit("\n");
    assert(msg_text(r) =~= seq!['\n'] + msgid_line(k) + seq!['\n'] + msgstr_line(t) + seq!['\n']
        + seq!['\n']);
}

/// A translation-form line: `msgstr`, a quote-free tag such as `[2] `, and the
/// quoted form.
pub open spec fn form_line(tag: Seq<char>, f: Seq<char>) -> Seq<char> {
    "msgstr"@ + tag + seq!['"'] + f + seq!['"']
}

/// The form lines of a plural record, one per form.
pub open spec fn form_lines(tags: Seq<Seq<char>>, forms: Seq<Seq<char>>) -> Seq<Seq<char>> {
    Seq::new(forms.len(), |i: int| form_line(tags[i], forms[i]))
}

/// The lines of a plural record with key `k`, closed by a blank line.
pub open spec fn plural_record_lines(k: Seq<char>, tags: Seq<Seq<char>>, forms: Seq<Seq<char>>) -> Seq<Seq<char>> {
    seq![msgid_line(k), "msgid_plural \"\""@] + form_lines(tags, forms) + seq![Seq::<char>::empty()]
}

proof fn lemma_form_line(tag: Seq<char>, f: Seq<char>)
    requires
        quote_free(tag),
        quote_free(f),
    ensures
        starts_with(form_line(tag, f), "msgstr"@),
        !starts_with(form_line(tag, f), "\""@),
        !starts_with(form_line(tag, f), "#."@),
        !starts_with(form_line(tag, f), "msgid "@),
        !starts_with(form_line(tag, f), "msgid_plural"@),
        first_quoted(form_line(tag, f)) == Some(f),
{
    let l = form_line(tag, f);
    reveal_strlit("msgstr");
    reveal_strlit("\"");
    reveal_strlit("#.");
    reveal_strlit("msgid ");
    reveal_strlit("msgid_plural");
    assert(l.subrange(0, 6) =~= "msgstr"@);
    assert(l.subrange(0, 1) != "\""@) by {
        assert(l.subrange(0, 1)[0] != "\""@[0]);
    }
    assert(l.subrange(0, 2) != "#."@) by {
        assert(l.subrange(0, 2)[0] != "#."@[0]);
    }
    assert(l.subrange(0, 6) != "msgid "@) by {
        assert(l.subrange(0, 6)[3] != "msgid "@[3]);
    }
    if l.len() >= 12 {
        assert(l.subrange(0, 12) != "msgid_plural"@) by {
            assert(l.subrange(0, 12)[3] != "msgid_plural"@[3]);
        }
    }
    let p = "msgstr"@ + tag;
    assert forall|i: int| 0 <= i < p.len() implies p[i] != '"' by {
        if i >= 6 {
            assert(p[i] == tag[i - 6]);
        }
    }
    assert(l =~= p + seq!['"'] + f + seq!['"']);
    lemma_quoted_line(p, f);
}

/// Every tag and every form is free of quotes.
pub open spec fn lines_quote_free(tags: Seq<Seq<char>>, forms: Seq<Seq<char>>) -> bool {
    forall|i: int| 0 <= i < forms.len() ==> quote_free(#[trigger] tags[i]) && quote_free(forms[i])
}

pub open spec fn unescape_all(forms: Seq<Seq<char>>) -> Seq<Seq<char>> {
    forms.map_values(|f: Seq<char>| unescape(f))
}

/// The state after `lines`, starting from `st`.
pub open spec fn run_from(st: ParseState, lines: Seq<Seq<char>>) -> Option<ParseState>
    decreases lines.len(),
{
    if lines.len() == 0 {
        Some(st)
    } else {
        match run_from(st, lines.drop_last()) {
            Some(s) => step(s, lines.last()),
            None => None,
        }
    }
}

/// The parser stands between two records: no translation is being read and
/// the record in progress is empty.
pub open spec fn between_records(st: ParseState) -> bool {
    !st.reading && st.msg == empty_msg()
}

proof fn lemma_parse_concat(a: Seq<Seq<char>>, b: Seq<Seq<char>>)
    ensures
        parse_lines(a + b) == match parse_lines(a) {
            Some(s) => run_from(s, b),
            None => None,
        },
    decreases b.len(),
{
    if b.len() == 0 {
        assert(a + b =~= a);
    } else {
        assert((a + b).drop_last() =~= a + b.drop_last());
        assert((a + b).last() == b.last());
        lemma_parse_concat(a, b.drop_last());
    }
}

proof fn lemma_plural_prefix(st: ParseState, k: Seq<char>, tags: Seq<Seq<char>>, forms: Seq<Seq<char>>, m: int)
    requires
        between_records(st),
        quote_free(k),
        1 <= m <= forms.len(),
        tags.len() == forms.len(),
        lines_quote_free(tags, forms),
    ensures
        run_from(st, plural_record_lines(k, tags, forms).take(2 + m)) == Some(
            ParseState {
                reading: true,
                msg: MsgView {
                    comment: Seq::empty(),
                    msgid: k,
                    msgstr: unescape_all(forms.take(m - 1)),
                    is_plural: true,
                },
                cur: unescape(forms[m - 1]),
                done: st.done,
            },
        ),
    decreases m,
{
    let lines = plural_record_lines(k, tags, forms);
    let pre = lines.take(2 + m);
    assert(pre.drop_last() =~= lines.take(1 + m));
    assert(pre.last() == form_line(tags[m - 1], forms[m - 1]));
    lemma_form_line(tags[m - 1], forms[m - 1]);
    if m == 1 {
        lemma_line_shapes(k, Seq::empty());
        let h = lines.take(2);
        assert(h.drop_last() =~= lines.take(1));
        assert(lines.take(1).drop_last() =~= Seq::<Seq<char>>::empty());
        assert(run_from(st, lines.take(1).drop_last()) == Some(st));
        let s1 = ParseState { msg: MsgView { msgid: k, ..empty_msg() }, ..st };
        assert(read_header(st, msgid_line(k)) == Some(s1));
        assert(run_from(st, lines.take(1)) == Some(s1));
        let pl = "msgid_plural \"\""@;
        reveal_strlit("msgid_plural \"\"");
        reveal_strlit("msgid_plural");
        reveal_strlit("msgid ");
        reveal_strlit("#.");
        assert(pl.subrange(0, 12) =~= "msgid_plural"@);
        assert(pl.subrange(0, 2) != "#."@) by {
            assert(pl.subrange(0, 2)[0] != "#."@[0]);
        }
        assert(pl.subrange(0, 6) != "msgid "@) by {
            assert(pl.subrange(0, 6)[5] != "msgid "@[5]);
        }
        assert(h.last() == pl);
        let s2 = ParseState { msg: MsgView { is_plural: true, ..s1.msg }, ..s1 };
        assert(run_from(st, h) == Some(s2));
        assert(unescape_all(forms.take(0)) =~= Seq::<Seq<char>>::empty());
    } else {
        lemma_plural_prefix(st, k, tags, forms, m - 1);
        assert(unescape_all(forms.take(m - 1)) =~= unescape_all(forms.take(m - 2)).push(
            unescape(forms[m - 2]),
        ));
    }
}

/// Plural arity: a plural record with `n >= 1` translation-form lines, after
/// any lines that leave the parser between records, adds exactly one record
/// to the catalog, with exactly `n` forms in file order, escapes decoded; the
/// parser is between records again afterwards.
pub proof fn lemma_plural_arity(
    lang: Seq<char>,
    before: Seq<Seq<char>>,
    k: Seq<char>,
    tags: Seq<Seq<char>>,
    forms: Seq<Seq<char>>,
)
    requires
        parse_lines(before) is Some,
        between_records(parse_lines(before)->Some_0),
        quote_free(k),
        forms.len() >= 1,
        tags.len() == forms.len(),
        lines_quote_free(tags, forms),
    ensures
        parse_catalog(lang, before + plural_record_lines(k, tags, forms)) == Some(
            PoView {
                lang,
                msgs: parse_lines(before)->Some_0.done.push(
                    MsgView {
                        comment: Seq::empty(),
                        msgid: k,
                        msgstr: unescape_all(forms),
                        is_plural: true,
                    },
                ),
            },
        ),
        between_records(parse_lines(before + plural_record_lines(k, tags, forms))->Some_0),
        unescape_all(forms).len() == forms.len(),
{
    let st = parse_lines(before)->Some_0;
    let lines = plural_record_lines(k, tags, forms);
    let n = forms.len() as int;
    lemma_parse_concat(before, lines);
    lemma_plural_prefix(st, k, tags, forms, n);
    assert(lines.drop_last() =~= lines.take(2 + n));
    reveal_strlit("\"");
    reveal_strlit("msgstr");
    assert(!starts_with(Seq::<char>::empty(), "\""@));
    assert(!starts_with(Seq::<char>::empty(), "msgstr"@));
    assert(unescape_all(forms.take(n - 1)).push(unescape(forms[n - 1])) =~= unescape_all(forms));
    let s = run_from(st, lines.take(2 + n))->Some_0;
    assert(finish_record(s).done =~= st.done.push(
        MsgView { comment: Seq::empty(), msgid: k, msgstr: unescape_all(forms), is_plural: true },
    ));
}

/// Whether `a` has no whitespace at either end.
pub open spec fn trimmed(a: Seq<char>) -> bool {
    a.len() > 0 ==> !is_ws(a[0]) && !is_ws(a.last())
}

proof fn lemma_comment_line(a: Seq<char>)
    requires
        trimmed(a),
    ensures
        starts_with("#. "@ + a, "#."@),
        trim(("#. "@ + a).skip(2)) == a,
        !starts_with("#. "@ + a, "\""@),
        !starts_with("#. "@ + a, "msgstr"@),
        ("#. "@ + a).len() != 0,
{
    reveal_strlit("#. ");
    reveal_strlit("#.");
    reveal_strlit("\"");
    reveal_strlit("msgstr");
    let l = "#. "@ + a;
    assert(l.subrange(0, 2) =~= "#."@);
    assert(l.skip(2) =~= seq![' '] + a);
    assert((seq![' '] + a).drop_first() =~= a);
    assert(trim_start(seq![' '] + a) == trim_start(a));
    assert(trim_start(a) == a);
    assert(trim_end(a) == a);
    assert(l.subrange(0, 1) != "\""@) by {
        assert(l.subrange(0, 1)[0] != "\""@[0]);
    }
    if l.len() >= 6 {
        assert(l.subrange(0, 6) != "msgstr"@) by {
            assert(l.subrange(0, 6)[0] != "msgstr"@[0]);
        }
    }
}

/// The lines `#. c` for each `c` of `cs`.
pub open spec fn comment_source_lines(cs: Seq<Seq<char>>) -> Seq<Seq<char>> {
    Seq::new(cs.len(), |i: int| "#. "@ + cs[i])
}

/// The comment buffer after the lines of `cs`: each one followed by a newline.
pub open spec fn folded(cs: Seq<Seq<char>>) -> Seq<char>
    decreases cs.len(),
{
    if cs.len() == 0 {
        Seq::empty()
    } else {
        folded(cs.drop_last()) + cs.last() + seq!['\n']
    }
}

/// The entries of `cs` joined by newlines.
pub open spec fn joined(cs: Seq<Seq<char>>) -> Seq<char>
    decreases cs.len(),
{
    if cs.len() == 0 {
        Seq::empty()
    } else if cs.len() == 1 {
        cs[0]
    } else {
        joined(cs.drop_last()) + seq!['\n'] + cs.last()
    }
}

proof fn lemma_folded_joined(cs: Seq<Seq<char>>)
    requires
        cs.len() > 0,
    ensures
        folded(cs).len() > 0,
        folded(cs).drop_last() == joined(cs),
    decreases cs.len(),
{
    let d = cs.drop_last();
    if d.len() == 0 {
        assert(folded(d) == Seq::<char>::empty());
        assert(folded(cs).drop_last() =~= cs.last());
        assert(cs.last() == cs[0]);
    } else {
        lemma_folded_joined(d);
        assert(folded(d) =~= folded(d).drop_last() + seq!['\n']);
        assert(folded(cs).drop_last() =~= joined(d) + seq!['\n'] + cs.last());
    }
}

proof fn lemma_comment_run(st: ParseState, cs: Seq<Seq<char>>)
    requires
        !st.reading,
        forall|i: int| 0 <= i < cs.len() ==> trimmed(#[trigger] cs[i]),
    ensures
        run_from(st, comment_source_lines(cs)) == Some(
            ParseState { msg: MsgView { comment: st.msg.comment + folded(cs), ..st.msg }, ..st },
        ),
    decreases cs.len(),
{
    let ls = comment_source_lines(cs);
    if cs.len() == 0 {
        assert(ls.len() == 0);
        assert(st.msg.comment + folded(cs) =~= st.msg.comment);
    } else {
        let d = cs.drop_last();
        assert(ls.drop_last() =~= comment_source_lines(d));
        lemma_comment_run(st, d);
        lemma_comment_line(cs.last());
        assert(ls.last() == "#. "@ + cs.last());
        assert(st.msg.comment + folded(d) + trim(("#. "@ + cs.last()).skip(2)) + seq!['\n']
            =~= st.msg.comment + folded(cs));
    }
}

/// Comment folding: the comment lines `#. c_1` .. `#. c_m` (any `m`, each
/// `c_i` without whitespace at its ends) just before a singular record, after
/// any lines that leave the parser between records, give that record the
/// comment `c_1`, newline, .., `c_m`, with no trailing newline (empty for
/// `m == 0`); the parser is between records again afterwards.
pub proof fn lemma_comment_folding(
    lang: Seq<char>,
    before: Seq<Seq<char>>,
    cs: Seq<Seq<char>>,
    k: Seq<char>,
    t: Seq<char>,
)
    requires
        parse_lines(before) is Some,
        between_records(parse_lines(before)->Some_0),
        forall|i: int| 0 <= i < cs.len() ==> trimmed(#[trigger] cs[i]),
        quote_free(k),
        quote_free(t),
    ensures
        parse_catalog(
            lang,
            before + comment_source_lines(cs) + seq![msgid_line(k), msgstr_line(t), Seq::empty()],
        ) == Some(
            PoView {
                lang,
                msgs: parse_lines(before)->Some_0.done.push(singular_record(joined(cs), k, t)),
            },
        ),
        between_records(
            parse_lines(
                before + comment_source_lines(cs) + seq![msgid_line(k), msgstr_line(t), Seq::empty()],
            )->Some_0,
        ),
{
    let st = parse_lines(before)->Some_0;
    let cl = comment_source_lines(cs);
    let rec = seq![msgid_line(k), msgstr_line(t), Seq::<char>::empty()];
    lemma_parse_concat(before, cl);
    lemma_parse_concat(before + cl, rec);
    lemma_comment_run(st, cs);
    lemma_line_shapes(k, t);
    let c = folded(cs);
    let s0 = ParseState { msg: MsgView { comment: c, ..empty_msg() }, ..st };
    assert(Seq::<char>::empty() + c =~= c);
    assert(parse_lines(before + cl) == Some(s0));
    assert(rec.drop_last().drop_last().drop_last() =~= Seq::<Seq<char>>::empty());
    assert(rec.drop_last().drop_last().last() == msgid_line(k));
    assert(rec.drop_last().last() == msgstr_line(t));
    assert(run_from(s0, rec.drop_last().drop_last().drop_last()) == Some(s0));
    let s1 = ParseState { msg: MsgView { msgid: k, ..s0.msg }, ..s0 };
    assert(read_header(s0, msgid_line(k)) == Some(s1));
    assert(run_from(s0, rec.drop_last().drop_last()) == Some(s1));
    let s2 = ParseState { reading: true, cur: unescape(t), ..s1 };
    assert(run_from(s0, rec.drop_last()) == Some(s2));
    reveal_strlit("\"");
    reveal_strlit("msgstr");
    assert(!starts_with(Seq::<char>::empty(), "\""@));
    assert(!starts_with(Seq::<char>::empty(), "msgstr"@));
    let cm = if c.len() > 0 { c.drop_last() } else { c };
    if cs.len() > 0 {
        lemma_folded_joined(cs);
    } else {
        assert(c == Seq::<char>::empty());
    }
    assert(cm == joined(cs));
    assert(finish_record(s2).done =~= st.done.push(singular_record(joined(cs), k, t)));
}

proof fn lemma_find_msg_index(ms: Seq<MsgView>, k: Seq<char>) -> (j: int)
    requires
        find_msg(ms, k) is Some,
    ensures
        0 <= j < ms.len(),
        ms[j] == find_msg(ms, k)->Some_0,
        ms[j].msgid == k,
    decreases ms.len(),
{
    if ms[0].msgid == k {
        0
    } else {
        let j = lemma_find_msg_index(ms.drop_first(), k);
        j + 1
    }
}

proof fn lemma_branches_missing(pos: Seq<PoView>, c: int, k: Seq<char>, plural: bool)
    requires
        0 <= c < pos.len(),
        branch_text(pos[c], k, plural) is None,
    ensures
        branches_text(pos, k, plural) is None,
    decreases pos.len(),
{
    if c < pos.len() - 1 {
        lemma_branches_missing(pos.drop_last(), c, k, plural);
    }
}

/// Missing translations are fatal: when some catalog has no record for a key
/// of the unified set, no module is generated.
pub proof fn lemma_missing_key_fails(
    keys: Seq<(Seq<char>, bool)>,
    pos: Seq<PoView>,
    k: (Seq<char>, bool),
    c: int,
)
    requires
        is_unified_key_list(keys, pos),
        key_set(pos).contains(k),
        0 <= c < pos.len(),
        find_msg(pos[c].msgs, k.0) is None,
    ensures
        module_text(keys, pos) is None,
{
    assert(keys.to_set().contains(k));
    let p = choose|p: int| 0 <= p < keys.len() && keys[p] == k;
    lemma_branches_missing(pos, c, k.0, k.1);
    assert(fn_text(k, pos) is None);
    assert(keys.take(p + 1).drop_last() =~= keys.take(p));
    assert(keys.take(p + 1).last() == k);
    lemma_module_failure_persists(keys, p + 1, pos);
}

/// The branch of a singular key in language `lang` with translation `s`.
pub open spec fn singular_branch(lang: Seq<char>, s: Seq<char>) -> Seq<char> {
    "        Lang."@ + lang + " ->\n"@ + "            \""@ + s + "\"\n"@ + "\n"@
}

/// A singular key that catalogs `x` and `y` both hold has exactly one entry
/// in their unified key list, and its function has an `x` branch with `x`'s
/// translation and a `y` branch with `y`'s.
pub proof fn lemma_shared_key(
    keys: Seq<(Seq<char>, bool)>,
    x: PoView,
    y: PoView,
    k: Seq<char>,
)
    requires
        is_unified_key_list(keys, seq![x, y]),
        k.len() > 0,
        find_msg(x.msgs, k) is Some,
        find_msg(y.msgs, k) is Some,
        !find_msg(x.msgs, k)->Some_0.is_plural,
        find_msg(x.msgs, k)->Some_0.msgstr.len() > 0,
        find_msg(y.msgs, k)->Some_0.msgstr.len() > 0,
    ensures
        exists|p: int| 0 <= p < keys.len() && keys[p] == (k, false),
        forall|p: int, q: int|
            0 <= p < keys.len() && 0 <= q < keys.len() && keys[p] == (k, false) && keys[q] == (
            k,
            false,
        ) ==> p == q,
        branches_text(seq![x, y], k, false) == Some(
            singular_branch(x.lang, find_msg(x.msgs, k)->Some_0.msgstr[0]) + singular_branch(
                y.lang,
                find_msg(y.msgs, k)->Some_0.msgstr[0],
            ),
        ),
{
    let pos = seq![x, y];
    let j = lemma_find_msg_index(x.msgs, k);
    assert(has_record(pos, 0, j, (k, false)));
    assert(key_set(pos).contains((k, false)));
    assert(keys.to_set().contains((k, false)));
    assert forall|p: int, q: int|
        0 <= p < keys.len() && 0 <= q < keys.len() && keys[p] == (k, false) && keys[q] == (k, false)
        implies p == q by {
        lemma_key_lt_order((k, false), (k, false), (k, false));
        if p < q {
            assert(crate::keys::key_lt(keys[p], keys[q]));
        } else if q < p {
            assert(crate::keys::key_lt(keys[q], keys[p]));
        }
    }
    assert(pos.drop_last() =~= seq![x]);
    assert(seq![x].drop_last() =~= Seq::<PoView>::empty());
    let bx = branch_text(x, k, false)->Some_0;
    assert(branches_text(Seq::<PoView>::empty(), k, false) == Some(Seq::<char>::empty()));
    assert(seq![x].last() == x);
    assert(pos.last() == y);
    assert(branches_text(seq![x], k, false) == Some(Seq::<char>::empty() + bx));
    assert(Seq::<char>::empty() + bx =~= bx);
}

/// The segments of `s` between dots, as `str::split('.')` gives them: one
/// more than the number of dots, possibly empty.
pub open spec fn split_dots(s: Seq<char>) -> Seq<Seq<char>>
    decreases s.len(),
{
    if s.len() == 0 {
        seq![Seq::empty()]
    } else {
        let r = split_dots(s.drop_first());
        if s[0] == '.' {
            seq![Seq::<char>::empty()] + r
        } else {
            r.update(0, seq![s[0]] + r[0])
        }
    }
}

/// A segment with its first character upper-cased.
pub open spec fn capitalized(seg: Seq<char>) -> Seq<char> {
    upper_of(seg[0]) + seg.drop_first()
}

/// The capitalised segments, concatenated.
pub open spec fn concat_caps(segs: Seq<Seq<char>>) -> Seq<char>
    decreases segs.len(),
{
    if segs.len() == 0 {
        Seq::empty()
    } else {
        capitalized(segs[0]) + concat_caps(segs.drop_first())
    }
}

/// A string with its first character lower-cased.
pub open spec fn lower_first(b: Seq<char>) -> Seq<char> {
    lower_of(b[0]) + b.drop_first()
}

/// Whether every segment from index `from` on is non-empty.
pub open spec fn segments_filled(segs: Seq<Seq<char>>, from: int) -> bool {
    forall|i: int| from <= i < segs.len() ==> (#[trigger] segs[i]).len() > 0
}

proof fn lemma_split_len(s: Seq<char>)
    ensures
        split_dots(s).len() >= 1,
    decreases s.len(),
{
    if s.len() > 0 {
        lemma_split_len(s.drop_first());
    }
}

proof fn lemma_camel_split(s: Seq<char>, at_start: bool)
    ensures
        split_dots(s).len() >= 1,
        camel_with(s, at_start, uppers(segment_heads(s, at_start))) == if segments_filled(
            split_dots(s),
            if at_start {
                0
            } else {
                1
            },
        ) {
            Some(
                (if at_start {
                    capitalized(split_dots(s)[0])
                } else {
                    split_dots(s)[0]
                }) + concat_caps(split_dots(s).drop_first()),
            )
        } else {
            None
        },
    decreases s.len(),
{
    lemma_split_len(s);
    let segs = split_dots(s);
    if s.len() == 0 {
        if at_start {
            assert(!segments_filled(segs, 0)) by {
                assert(segs[0].len() == 0);
            }
        } else {
            assert(segs.drop_first().len() == 0);
            assert(Seq::<char>::empty() + Seq::<char>::empty() =~= Seq::<char>::empty());
        }
    } else {
        let rest = s.drop_first();
        let r = split_dots(rest);
        lemma_split_len(rest);
        if s[0] == '.' {
            if at_start {
                assert(!segments_filled(segs, 0)) by {
                    assert(segs[0].len() == 0);
                }
            } else {
                lemma_camel_split(rest, true);
                assert(segs.drop_first() =~= r);
                assert(segments_filled(segs, 1) == segments_filled(r, 0)) by {
                    if segments_filled(r, 0) {
                        assert forall|i: int| 1 <= i < segs.len() implies (#[trigger] segs[i]).len() > 0 by {
                            assert(segs[i] == r[i - 1]);
                        }
                    }
                    if segments_filled(segs, 1) {
                        assert forall|i: int| 0 <= i < r.len() implies (#[trigger] r[i]).len() > 0 by {
                            assert(segs[i + 1] == r[i]);
                        }
                    }
                }
                assert(concat_caps(r) == capitalized(r[0]) + concat_caps(r.drop_first()));
                assert(segs[0] + concat_caps(r) =~= concat_caps(r));
            }
        } else {
            lemma_camel_split(rest, false);
            assert(segs.drop_first() =~= r.drop_first());
            assert(segments_filled(segs, if at_start { 0 } else { 1 }) == segments_filled(r, 1)) by {
                assert(segs[0].len() > 0);
                if segments_filled(r, 1) {
                    assert forall|i: int| 0 <= i < segs.len() implies (#[trigger] segs[i]).len() > 0 by {
                        if i > 0 {
                            assert(segs[i] == r[i]);
                        }
                    }
                }
                if segments_filled(segs, 1) {
                    assert forall|i: int| 1 <= i < r.len() implies (#[trigger] r[i]).len() > 0 by {
                        assert(segs[i] == r[i]);
                    }
                }
            }
            let hr = segment_heads(rest, false);
            if at_start {
                assert(segment_heads(s, true) =~= seq![s[0]] + hr);
                assert(uppers(seq![s[0]] + hr).drop_first() =~= uppers(hr));
                assert(uppers(seq![s[0]] + hr)[0] == upper_of(s[0]));
                assert(segs[0].drop_first() =~= r[0]);
                assert(capitalized(segs[0]) + concat_caps(r.drop_first()) =~= upper_of(s[0]) + (r[0]
                    + concat_caps(r.drop_first())));
            } else {
                assert(segment_heads(s, false) =~= hr);
                assert(segs[0] + concat_caps(r.drop_first()) =~= seq![s[0]] + (r[0] + concat_caps(
                    r.drop_first(),
                )));
            }
        }
    }
}

/// Identifier rule: the name derived from a key is its `.`-separated
/// segments, each with the first character upper-cased, concatenated, with
/// the first character of the result lower-cased; there is none when a
/// segment is empty. `ident` depends on the key alone, so every run derives
/// the same name.
pub proof fn lemma_identifier_rule(key: Seq<char>)
    ensures
        ident(key) == if segments_filled(split_dots(key), 0) && concat_caps(split_dots(key)).len() > 0 {
            Some(lower_first(concat_caps(split_dots(key))))
        } else {
            None
        },
{
    lemma_camel_split(key, true);
    let segs = split_dots(key);
    if segments_filled(segs, 0) {
        assert(concat_caps(segs) == capitalized(segs[0]) + concat_caps(segs.drop_first()));
    }
}

proof fn lemma_module_parts(keys: Seq<(Seq<char>, bool)>, pos: Seq<PoView>)
    requires
        module_text(keys, pos) is Some,
    ensures
        forall|i: int| 0 <= i < keys.len() ==> (#[trigger] fn_text(keys[i], pos)) is Some,
    decreases keys.len(),
{
    if keys.len() > 0 {
        lemma_module_parts(keys.drop_last(), pos);
        assert forall|i: int| 0 <= i < keys.len() implies (#[trigger] fn_text(keys[i], pos)) is Some by {
            if i < keys.len() - 1 {
                assert(keys.drop_last()[i] == keys[i]);
            }
        }
    }
}

/// One function per unified key: when the module is generated, it holds as
/// many functions as the key set has pairs, one for each pair and none twice,
/// and the function of every pair was generated.
pub proof fn lemma_one_function_per_key(keys: Seq<(Seq<char>, bool)>, pos: Seq<PoView>)
    requires
        is_unified_key_list(keys, pos),
        module_text(keys, pos) is Some,
    ensures
        keys.no_duplicates(),
        keys.len() == key_set(pos).len(),
        forall|i: int| 0 <= i < keys.len() ==> (#[trigger] fn_text(keys[i], pos)) is Some,
{
    assert forall|i: int, j: int| 0 <= i < keys.len() && 0 <= j < keys.len() && i != j implies keys[i]
        != keys[j] by {
        lemma_key_lt_order(keys[i], keys[i], keys[i]);
        if i < j {
            assert(key_lt(keys[i], keys[j]));
        } else {
            assert(key_lt(keys[j], keys[i]));
        }
    }
    keys.unique_seq_to_set();
    lemma_module_parts(keys, pos);
}

} // verus!
