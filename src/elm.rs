//! Generation of the Elm module: one lookup function per unified key, which
//! dispatches on the language and, for plural keys, on a count.
use crate::keys::{key_views, po_views, unified_keys, unify_keys};
use crate::po::{Msg, MsgView, Po, PoView, msg_views, string_views};
use crate::text::{chars_of, decimal, push_char, push_decimal};
use vstd::prelude::*;

verus! {

/// What `char::to_uppercase` yields for a character.
pub uninterp spec fn upper_of(c: char) -> Seq<char>;

/// What `char::to_lowercase` yields for a character.
pub uninterp spec fn lower_of(c: char) -> Seq<char>;

/// Relies on `char::to_uppercase`: its characters depend on `c` alone.
#[verifier::external_body]
fn to_upper(c: char) -> (r: String)
    ensures
        r@ == upper_of(c),
{
    c.to_uppercase().collect()
}

/// Relies on `char::to_lowercase`: its characters depend on `c` alone.
#[verifier::external_body]
fn to_lower(c: char) -> (r: String)
    ensures
        r@ == lower_of(c),
{
    c.to_lowercase().collect()
}

/// The first character of each dotted segment of `s`; `at_start` says
/// whether a segment begins at position 0.
pub open spec fn segment_heads(s: Seq<char>, at_start: bool) -> Seq<char>
    decreases s.len(),
{
    if s.len() == 0 {
        Seq::empty()
    } else if s[0] == '.' {
        segment_heads(s.drop_first(), true)
    } else {
        (if at_start {
            seq![s[0]]
        } else {
            Seq::empty()
        }) + segment_heads(s.drop_first(), false)
    }
}

/// The camel-case body of a dotted key: the dots are dropped and the first
/// character of each segment is replaced by the next entry of `heads`.
/// `None` where a segment is empty or `heads` runs out.
pub open spec fn camel_with(s: Seq<char>, at_start: bool, heads: Seq<Seq<char>>) -> Option<Seq<char>>
    decreases s.len(),
{
    if s.len() == 0 {
        if at_start {
            None
        } else {
            Some(Seq::empty())
        }
    } else if s[0] == '.' {
        if at_start {
            None
        } else {
            camel_with(s.drop_first(), true, heads)
        }
    } else if at_start {
        if heads.len() == 0 {
            None
        } else {
            match camel_with(s.drop_first(), false, heads.drop_first()) {
                Some(rest) => Some(heads[0] + rest),
                None => None,
            }
        }
    } else {
        match camel_with(s.drop_first(), false, heads) {
            Some(rest) => Some(seq![s[0]] + rest),
            None => None,
        }
    }
}

/// The upper-case forms of the given characters.
pub open spec fn uppers(cs: Seq<char>) -> Seq<Seq<char>> {
    cs.map_values(|c: char| upper_of(c))
}

/// The function name derived from a dotted key: segments capitalised and
/// concatenated, then the first character lower-cased
/// (`section.sub_label` gives `sectionSub_label`). `None` for a key with an
/// empty segment.
pub open spec fn ident(key: Seq<char>) -> Option<Seq<char>> {
    match camel_with(key, true, uppers(segment_heads(key, true))) {
        Some(b) => if b.len() > 0 {
            Some(lower_of(b[0]) + b.drop_first())
        } else {
            None
        },
        None => None,
    }
}

/// The first character of each dotted segment of `key`.
pub fn heads_of(key: &str) -> (r: Vec<char>)
    ensures
        r@ == segment_heads(key@, true),
{
    let v = chars_of(key);
    let n = v.len();
    let mut r: Vec<char> = Vec::new();
    let mut at_start = true;
    let mut i: usize = 0;
    assert(v@.skip(0) =~= v@);
    while i < n
        invariant
            n == v@.len(),
            v@ == key@,
            i <= n,
            segment_heads(key@, true) == r@ + segment_heads(v@.skip(i as int), at_start),
        decreases n - i,
    {
        let ghost t = v@.skip(i as int);
        let ghost r0 = r@;
        let ghost a0 = at_start;
        assert(t.drop_first() =~= v@.skip(i + 1));
        if v[i] == '.' {
            at_start = true;
        } else {
            if at_start {
                r.push(v[i]);
            }
            at_start = false;
        }
        assert(r0 + segment_heads(t, a0) =~= r@ + segment_heads(v@.skip(i + 1), at_start));
        i = i + 1;
    }
    assert(r@ + segment_heads(v@.skip(n as int), at_start) =~= r@);
    r
}

/// The camel-case body of `key` with the given replacements of its segments'
/// first characters (see `camel_with`).
pub fn camel_from_heads(key: &str, heads: &Vec<String>) -> (r: Option<String>)
    ensures
        match r {
            Some(b) => camel_with(key@, true, string_views(heads@)) == Some(b@),
            None => camel_with(key@, true, string_views(heads@)) is None,
        },
{
    let ghost hv = string_views(heads@);
    let v = chars_of(key);
    let n = v.len();
    let mut body = String::new();
    let mut at_start = true;
    let mut h: usize = 0;
    let mut i: usize = 0;
    assert(v@.skip(0) =~= v@);
    assert(hv.skip(0) =~= hv);
    while i < n
        invariant
            n == v@.len(),
            v@ == key@,
            hv == string_views(heads@),
            i <= n,
            h <= heads@.len(),
            camel_with(key@, true, hv) == match camel_with(v@.skip(i as int), at_start, hv.skip(h as int)) {
                Some(rest) => Some(body@ + rest),
                None => None::<Seq<char>>,
            },
        decreases n - i,
    {
        let ghost t = v@.skip(i as int);
        let ghost hs = hv.skip(h as int);
        let ghost b0 = body@;
        assert(t.drop_first() =~= v@.skip(i + 1));
        if v[i] == '.' {
            if at_start {
                return None;
            }
            at_start = true;
        } else if at_start {
            if h == heads.len() {
                return None;
            }
            body.append(heads[h].as_str());
            assert(hs.drop_first() =~= hv.skip(h + 1));
            assert(hs[0] == heads@[h as int]@);
            h = h + 1;
            at_start = false;
            assert forall|rest: Seq<char>| b0 + (hs[0] + rest) == body@ + rest by {
                assert(b0 + (hs[0] + rest) =~= body@ + rest);
            }
        } else {
            push_char(&mut body, v[i]);
            assert forall|rest: Seq<char>| b0 + (seq![t[0]] + rest) == body@ + rest by {
                assert(b0 + (seq![t[0]] + rest) =~= body@ + rest);
            }
        }
        i = i + 1;
    }
    if at_start {
        return None;
    }
    assert(body@ + Seq::<char>::empty() =~= body@);
    Some(body)
}

/// The function name for a dotted key (see `ident`).
pub fn identifier(key: &str) -> (r: Option<String>)
    ensures
        match r {
            Some(s) => ident(key@) == Some(s@),
            None => ident(key@) is None,
        },
{
    let hs = heads_of(key);
    let mut ups: Vec<String> = Vec::new();
    let mut j: usize = 0;
    while j < hs.len()
        invariant
            j <= hs@.len(),
            ups@.len() == j,
            string_views(ups@) == uppers(hs@.take(j as int)),
        decreases hs@.len() - j,
    {
        let ghost prev = string_views(ups@);
        let u = to_upper(hs[j]);
        ups.push(u);
        assert(string_views(ups@) =~= prev.push(u@));
        j = j + 1;
        assert(string_views(ups@) =~= uppers(hs@.take(j as int)));
    }
    assert(hs@.take(hs@.len() as int) =~= hs@);
    let body = match camel_from_heads(key, &ups) {
        Some(b) => b,
        None => return None,
    };
    let len = body.as_str().unicode_len();
    if len == 0 {
        return None;
    }
    let mut name = to_lower(body.as_str().get_char(0));
    name.append(body.as_str().substring_char(1, len));
    assert(body@.subrange(1, len as int) =~= body@.drop_first());
    Some(name)
}

/// The first record of `ms` whose key is `key`.
pub open spec fn find_msg(ms: Seq<MsgView>, key: Seq<char>) -> Option<MsgView>
    decreases ms.len(),
{
    if ms.len() == 0 {
        None
    } else if ms[0].msgid == key {
        Some(ms[0])
    } else {
        find_msg(ms.drop_first(), key)
    }
}

/// The condition line that selects form `i` of `n`.
pub open spec fn condition(i: nat, n: nat) -> Seq<char> {
    if i + 1 == n {
        "else"@
    } else if i == 0 {
        "if n <= 1 then"@
    } else {
        "elif n == "@ + decimal(i + 1) + " then"@
    }
}

/// The first `forms.len()` branches of the count conditional over `n` forms.
pub open spec fn forms_text(forms: Seq<Seq<char>>, n: nat) -> Seq<char>
    decreases forms.len(),
{
    if forms.len() == 0 {
        Seq::empty()
    } else {
        let i = (forms.len() - 1) as nat;
        forms_text(forms.drop_last(), n) + "            "@ + condition(i, n) + "\n"@
            + "                \""@ + forms.last() + "\"\n\n"@
    }
}

/// The branch of language `po` in the function for `key`: the translation, or
/// for a plural key the conditional over the count. `None` when the catalog
/// has no record for the key, or a singular key's record has no translation.
pub open spec fn branch_text(po: PoView, key: Seq<char>, plural: bool) -> Option<Seq<char>> {
    match find_msg(po.msgs, key) {
        Some(m) => {
            let head = "        Lang."@ + po.lang + " ->\n"@;
            if !plural {
                if m.msgstr.len() == 0 {
                    None
                } else {
                    Some(head + "            \""@ + m.msgstr[0] + "\"\n"@ + "\n"@)
                }
            } else {
                Some(head + forms_text(m.msgstr, m.msgstr.len()) + "\n"@)
            }
        },
        None => None,
    }
}

/// The branches of all catalogs, in their order.
pub open spec fn branches_text(pos: Seq<PoView>, key: Seq<char>, plural: bool) -> Option<Seq<char>>
    decreases pos.len(),
{
    if pos.len() == 0 {
        Some(Seq::empty())
    } else {
        match (branches_text(pos.drop_last(), key, plural), branch_text(pos.last(), key, plural)) {
            (Some(a), Some(b)) => Some(a + b),
            _ => None,
        }
    }
}

/// Type annotation and head of the function `name`.
pub open spec fn signature(name: Seq<char>, plural: bool) -> Seq<char> {
    let count_type = if plural {
        "Int -> "@
    } else {
        Seq::empty()
    };
    let count_param = if plural {
        "n "@
    } else {
        Seq::empty()
    };
    name + " : Lang -> "@ + count_type + "String\n"@ + name + " lang "@ + count_param + "=\n"@
        + "    case lang of\n"@
}

/// The whole function for one key.
pub open spec fn fn_text(key: (Seq<char>, bool), pos: Seq<PoView>) -> Option<Seq<char>> {
    match (ident(key.0), branches_text(pos, key.0, key.1)) {
        (Some(name), Some(b)) => Some(signature(name, key.1) + b + "\n"@),
        _ => None,
    }
}

/// The fixed head of the module: its declaration and the import of `Lang`.
pub open spec fn module_header() -> Seq<char> {
    "module Strings exposing (..)\n\nimport Lang exposing (Lang)\n\n\n"@
}

/// The module: its header, then the functions of `keys` in order.
pub open spec fn module_text(keys: Seq<(Seq<char>, bool)>, pos: Seq<PoView>) -> Option<Seq<char>>
    decreases keys.len(),
{
    if keys.len() == 0 {
        Some(module_header())
    } else {
        match (module_text(keys.drop_last(), pos), fn_text(keys.last(), pos)) {
            (Some(a), Some(b)) => Some(a + b),
            _ => None,
        }
    }
}

/// The index of the first record of `ms` whose key is `key`.
fn find_index(ms: &Vec<Msg>, key: &String) -> (r: Option<usize>)
    ensures
        match r {
            Some(i) => i < ms@.len() && find_msg(msg_views(ms@), key@) == Some(ms@[i as int]@),
            None => find_msg(msg_views(ms@), key@) is None,
        },
{
    let ghost mv = msg_views(ms@);
    let mut i: usize = 0;
    assert(mv.skip(0) =~= mv);
    while i < ms.len()
        invariant
            mv == msg_views(ms@),
            i <= ms@.len(),
            find_msg(mv, key@) == find_msg(mv.skip(i as int), key@),
        decreases ms@.len() - i,
    {
        assert(mv.skip(i as int).drop_first() =~= mv.skip(i + 1));
        assert(mv.skip(i as int)[0] == ms@[i as int]@);
        if ms[i].msgid == *key {
            return Some(i);
        }
        i = i + 1;
    }
    None
}

fn push_condition(out: &mut String, i: usize, n: usize)
    requires
        i < n,
    ensures
        final(out)@ == old(out)@ + condition(i as nat, n as nat),
{
    if i + 1 == n {
        out.append("else");
    } else if i == 0 {
        out.append("if n <= 1 then");
    } else {
        out.append("elif n == ");
        push_decimal(out, i + 1);
        out.append(" then");
        assert(out@ =~= old(out)@ + condition(i as nat, n as nat));
    }
}

fn push_forms(out: &mut String, forms: &Vec<String>)
    ensures
        final(out)@ == old(out)@ + forms_text(string_views(forms@), forms@.len()),
{
    let ghost fv = string_views(forms@);
    let n = forms.len();
    let mut i: usize = 0;
    assert(fv.take(0) =~= Seq::<Seq<char>>::empty());
    while i < n
        invariant
            fv == string_views(forms@),
            n == forms@.len(),
            i <= n,
            out@ == old(out)@ + forms_text(fv.take(i as int), n as nat),
        decreases n - i,
    {
        assert(fv.take(i + 1).drop_last() =~= fv.take(i as int));
        out.append("            ");
        push_condition(out, i, n);
        out.append("\n");
        out.append("                \"");
        out.append(forms[i].as_str());
        out.append("\"\n\n");
        i = i + 1;
        assert(out@ =~= old(out)@ + forms_text(fv.take(i as int), n as nat));
    }
    assert(fv.take(n as int) =~= fv);
}

fn push_branch(out: &mut String, po: &Po, key: &String, plural: bool) -> (ok: bool)
    ensures
        ok == branch_text(po@, key@, plural) is Some,
        ok ==> final(out)@ == old(out)@ + branch_text(po@, key@, plural)->Some_0,
{
    let idx = find_index(&po.msgs, key);
    match idx {
        None => false,
        Some(i) => {
            let m = &po.msgs[i];
            if !plural && m.msgstr.len() == 0 {
                return false;
            }
            out.append("        Lang.");
            out.append(po.lang.as_str());
            out.append(" ->\n");
            if !plural {
                out.append("            \"");
                out.append(m.msgstr[0].as_str());
                out.append("\"\n");
                out.append("\n");
            } else {
                push_forms(out, &m.msgstr);
                out.append("\n");
            }
            assert(out@ =~= old(out)@ + branch_text(po@, key@, plural)->Some_0);
            true
        },
    }
}

fn push_branches(out: &mut String, pos: &Vec<Po>, key: &String, plural: bool) -> (ok: bool)
    ensures
        ok == branches_text(po_views(pos@), key@, plural) is Some,
        ok ==> final(out)@ == old(out)@ + branches_text(po_views(pos@), key@, plural)->Some_0,
{
    let ghost pv = po_views(pos@);
    let n = pos.len();
    let mut i: usize = 0;
    assert(pv.take(0) =~= Seq::<PoView>::empty());
    assert(old(out)@ + Seq::<char>::empty() =~= old(out)@);
    while i < n
        invariant
            pv == po_views(pos@),
            n == pos@.len(),
            i <= n,
            branches_text(pv.take(i as int), key@, plural) is Some,
            out@ == old(out)@ + branches_text(pv.take(i as int), key@, plural)->Some_0,
        decreases n - i,
    {
        assert(pv.take(i + 1).drop_last() =~= pv.take(i as int));
        assert(pv.take(i + 1).last() == pos@[i as int]@);
        if !push_branch(out, &pos[i], key, plural) {
            proof {
                lemma_branches_failure_persists(pv, i + 1, key@, plural);
            }
            return false;
        }
        i = i + 1;
        assert(out@ =~= old(out)@ + branches_text(pv.take(i as int), key@, plural)->Some_0);
    }
    assert(pv.take(n as int) =~= pv);
    true
}

proof fn lemma_branches_failure_persists(pos: Seq<PoView>, i: int, key: Seq<char>, plural: bool)
    requires
        0 <= i <= pos.len(),
        branches_text(pos.take(i), key, plural) is None,
    ensures
        branches_text(pos, key, plural) is None,
    decreases pos.len(),
{
    if pos.len() > i {
        assert(pos.drop_last().take(i) =~= pos.take(i));
        lemma_branches_failure_persists(pos.drop_last(), i, key, plural);
    } else {
        assert(pos.take(i) =~= pos);
    }
}

pub proof fn lemma_module_failure_persists(keys: Seq<(Seq<char>, bool)>, i: int, pos: Seq<PoView>)
    requires
        0 <= i <= keys.len(),
        module_text(keys.take(i), pos) is None,
    ensures
        module_text(keys, pos) is None,
    decreases keys.len(),
{
    if keys.len() > i {
        assert(keys.drop_last().take(i) =~= keys.take(i));
        lemma_module_failure_persists(keys.drop_last(), i, pos);
    } else {
        assert(keys.take(i) =~= keys);
    }
}

fn push_function(out: &mut String, key: &String, plural: bool, pos: &Vec<Po>) -> (ok: bool)
    ensures
        ok == fn_text((key@, plural), po_views(pos@)) is Some,
        ok ==> final(out)@ == old(out)@ + fn_text((key@, plural), po_views(pos@))->Some_0,
{
    let name = match identifier(key.as_str()) {
        Some(name) => name,
        None => return false,
    };
    let ghost o0 = out@;
    out.append(name.as_str());
    out.append(" : Lang -> ");
    if plural {
        out.append("Int -> ");
    }
    out.append("String\n");
    out.append(name.as_str());
    out.append(" lang ");
    if plural {
        out.append("n ");
    }
    out.append("=\n");
    out.append("    case lang of\n");
    assert(out@ =~= o0 + signature(name@, plural));
    if !push_branches(out, pos, key, plural) {
        return false;
    }
    out.append("\n");
    assert(out@ =~= old(out)@ + fn_text((key@, plural), po_views(pos@))->Some_0);
    true
}

/// The Elm module for the catalogs: a header, then one function per entry of
/// their unified key list, which is sorted and so makes the output the same on
/// every run. `None` when some catalog lacks a record for
/// a key, a singular key's record there has no translation, or a key has an
/// empty dotted segment.
pub fn to_elm(pos: &Vec<Po>) -> (r: Option<String>)
    ensures
        r is Some <==> module_text(unified_keys(po_views(pos@)), po_views(pos@)) is Some,
        r is Some ==> module_text(unified_keys(po_views(pos@)), po_views(pos@)) == Some(r->Some_0@),
{
    let keys = unify_keys(pos);
    let ghost kv = key_views(keys@);
    let ghost pv = po_views(pos@);
    let mut out = String::new();
    out.append("module Strings exposing (..)\n\nimport Lang exposing (Lang)\n\n\n");
    let n = keys.len();
    let mut i: usize = 0;
    assert(kv.take(0) =~= Seq::<(Seq<char>, bool)>::empty());
    while i < n
        invariant
            kv == key_views(keys@),
            pv == po_views(pos@),
            kv == unified_keys(pv),
            n == keys@.len(),
            i <= n,
            module_text(kv.take(i as int), pv) == Some(out@),
        decreases n - i,
    {
        assert(kv.take(i + 1).drop_last() =~= kv.take(i as int));
        assert(kv.take(i + 1).last() == (keys@[i as int].0@, keys@[i as int].1));
        if !push_function(&mut out, &keys[i].0, keys[i].1, pos) {
            proof {
                lemma_module_failure_persists(kv, i + 1, pv);
            }
            return None;
        }
        i = i + 1;
    }
    assert(kv.take(n as int) =~= kv);
    Some(out)
}

} // verus!
