//! The unified key set of several catalogs: each distinct (key, plurality)
//! pair, in a fixed order so that generated output is reproducible.
use crate::po::{Po, PoView};
use crate::text::chars_of;
use vstd::prelude::*;

verus! {

/// Lexicographic order on strings, by code point.
pub open spec fn seq_lt(a: Seq<char>, b: Seq<char>) -> bool
    decreases a.len(),
{
    if a.len() == 0 {
        b.len() > 0
    } else if b.len() == 0 {
        false
    } else if a[0] == b[0] {
        seq_lt(a.drop_first(), b.drop_first())
    } else {
        (a[0] as u32) < (b[0] as u32)
    }
}

/// Order on (key, plurality) pairs: by key, then non-plural before plural.
pub open spec fn key_lt(a: (Seq<char>, bool), b: (Seq<char>, bool)) -> bool {
    seq_lt(a.0, b.0) || (a.0 == b.0 && !a.1 && b.1)
}

/// Strictly increasing, hence free of duplicates.
pub open spec fn sorted_strict(s: Seq<(Seq<char>, bool)>) -> bool {
    forall|i: int, j: int| 0 <= i < j < s.len() ==> key_lt(#[trigger] s[i], #[trigger] s[j])
}

/// Whether record `j` of catalog `i` exists and carries `k`.
pub open spec fn has_record(pos: Seq<PoView>, i: int, j: int, k: (Seq<char>, bool)) -> bool {
    0 <= i < pos.len() && 0 <= j < pos[i].msgs.len() && pos[i].msgs[j].msgid == k.0
        && pos[i].msgs[j].is_plural == k.1
}

/// The distinct (key, plurality) pairs of all records of all catalogs, but
/// the empty key of the catalog header.
pub open spec fn key_set(pos: Seq<PoView>) -> Set<(Seq<char>, bool)> {
    Set::new(|k: (Seq<char>, bool)| k.0.len() > 0 && exists|i: int, j: int| has_record(pos, i, j, k))
}

/// A list of keys that enumerates `key_set(pos)` in increasing order.
pub open spec fn is_unified_key_list(keys: Seq<(Seq<char>, bool)>, pos: Seq<PoView>) -> bool {
    sorted_strict(keys) && keys.to_set() == key_set(pos)
}

/// The unified key list of the catalogs: the one list that enumerates
/// `key_set(pos)` in increasing order (see `lemma_unified_key_list_unique`).
pub open spec fn unified_keys(pos: Seq<PoView>) -> Seq<(Seq<char>, bool)> {
    choose|keys: Seq<(Seq<char>, bool)>| is_unified_key_list(keys, pos)
}

/// The views of a sequence of catalogs.
pub open spec fn po_views(v: Seq<Po>) -> Seq<PoView> {
    v.map_values(|p: Po| p@)
}

/// The views of a list of (key, plurality) pairs.
pub open spec fn key_views(v: Seq<(String, bool)>) -> Seq<(Seq<char>, bool)> {
    v.map_values(|p: (String, bool)| (p.0@, p.1))
}

pub proof fn lemma_seq_lt_irreflexive(a: Seq<char>)
    ensures
        !seq_lt(a, a),
    decreases a.len(),
{
    if a.len() > 0 {
        lemma_seq_lt_irreflexive(a.drop_first());
    }
}

pub proof fn lemma_seq_lt_transitive(a: Seq<char>, b: Seq<char>, c: Seq<char>)
    requires
        seq_lt(a, b),
        seq_lt(b, c),
    ensures
        seq_lt(a, c),
    decreases a.len(),
{
    if a.len() > 0 && b.len() > 0 && c.len() > 0 && a[0] == b[0] && b[0] == c[0] {
        lemma_seq_lt_transitive(a.drop_first(), b.drop_first(), c.drop_first());
    }
}

pub proof fn lemma_seq_lt_total(a: Seq<char>, b: Seq<char>)
    requires
        a != b,
    ensures
        seq_lt(a, b) || seq_lt(b, a),
    decreases a.len(),
{
    if a.len() > 0 && b.len() > 0 {
        if a[0] == b[0] {
            if a.drop_first() == b.drop_first() {
                assert(a =~= seq![a[0]] + a.drop_first());
                assert(b =~= seq![b[0]] + b.drop_first());
            }
            lemma_seq_lt_total(a.drop_first(), b.drop_first());
        } else {
            vstd::utf8::char_u32_cast(a[0], a[0] as u32);
            vstd::utf8::char_u32_cast(b[0], b[0] as u32);
        }
    } else if a.len() == 0 && b.len() == 0 {
        assert(a =~= b);
    }
}

pub proof fn lemma_key_lt_order(a: (Seq<char>, bool), b: (Seq<char>, bool), c: (Seq<char>, bool))
    ensures
        !key_lt(a, a),
        key_lt(a, b) && key_lt(b, c) ==> key_lt(a, c),
        a != b ==> key_lt(a, b) || key_lt(b, a),
{
    lemma_seq_lt_irreflexive(a.0);
    if key_lt(a, b) && key_lt(b, c) {
        if seq_lt(a.0, b.0) && seq_lt(b.0, c.0) {
            lemma_seq_lt_transitive(a.0, b.0, c.0);
        }
    }
    if a != b && a.0 != b.0 {
        lemma_seq_lt_total(a.0, b.0);
    }
}

proof fn lemma_drop_first_set(a: Seq<(Seq<char>, bool)>, x: (Seq<char>, bool))
    requires
        sorted_strict(a),
        a.len() > 0,
    ensures
        a.drop_first().contains(x) <==> (a.contains(x) && x != a[0]),
{
    if a.drop_first().contains(x) {
        let i = choose|i: int| 0 <= i < a.len() - 1 && a.drop_first()[i] == x;
        assert(a[i + 1] == x);
        assert(key_lt(a[0], a[i + 1]));
        lemma_key_lt_order(x, x, x);
    }
    if a.contains(x) && x != a[0] {
        let i = choose|i: int| 0 <= i < a.len() && a[i] == x;
        assert(a.drop_first()[i - 1] == x);
    }
}

proof fn lemma_sorted_same_elements(a: Seq<(Seq<char>, bool)>, b: Seq<(Seq<char>, bool)>)
    requires
        sorted_strict(a),
        sorted_strict(b),
        forall|x: (Seq<char>, bool)| a.contains(x) <==> b.contains(x),
    ensures
        a == b,
    decreases a.len(),
{
    if a.len() == 0 {
        if b.len() > 0 {
            assert(b.contains(b[0]));
        }
        assert(a =~= b);
    } else {
        assert(a.contains(a[0]));
        assert(b.len() > 0);
        assert(b.contains(b[0]));
        if a[0] != b[0] {
            let m = choose|m: int| 0 <= m < b.len() && b[m] == a[0];
            let k = choose|k: int| 0 <= k < a.len() && a[k] == b[0];
            assert(key_lt(b[0], b[m]));
            assert(key_lt(a[0], a[k]));
            lemma_key_lt_order(a[0], b[0], a[0]);
        }
        assert forall|x: (Seq<char>, bool)| a.drop_first().contains(x) <==> b.drop_first().contains(x) by {
            lemma_drop_first_set(a, x);
            lemma_drop_first_set(b, x);
        }
        lemma_sorted_same_elements(a.drop_first(), b.drop_first());
        assert(a =~= seq![a[0]] + a.drop_first());
        assert(b =~= seq![b[0]] + b.drop_first());
    }
}

/// The unified key list of a set of catalogs is unique: any two lists that
/// enumerate the key set in increasing order are the same list, so what is
/// generated from it does not vary between runs.
pub proof fn lemma_unified_key_list_unique(a: Seq<(Seq<char>, bool)>, b: Seq<(Seq<char>, bool)>, pos: Seq<PoView>)
    requires
        is_unified_key_list(a, pos),
        is_unified_key_list(b, pos),
    ensures
        a == b,
{
    assert forall|x: (Seq<char>, bool)| a.contains(x) <==> b.contains(x) by {
        assert(a.to_set().contains(x) == b.to_set().contains(x));
    }
    lemma_sorted_same_elements(a, b);
}

/// Exec form of `seq_lt`.
pub fn str_less(a: &str, b: &str) -> (r: bool)
    ensures
        r == seq_lt(a@, b@),
{
    let x = chars_of(a);
    let y = chars_of(b);
    let mut i: usize = 0;
    assert(x@.skip(0) =~= x@ && y@.skip(0) =~= y@);
    while i < x.len() && i < y.len() && x[i] == y[i]
        invariant
            x@ == a@,
            y@ == b@,
            i <= x@.len(),
            i <= y@.len(),
            seq_lt(a@, b@) == seq_lt(x@.skip(i as int), y@.skip(i as int)),
        decreases x@.len() - i,
    {
        assert(x@.skip(i as int).drop_first() =~= x@.skip(i + 1));
        assert(y@.skip(i as int).drop_first() =~= y@.skip(i + 1));
        i = i + 1;
    }
    if i == x.len() {
        i < y.len()
    } else if i == y.len() {
        false
    } else {
        (x[i] as u32) < (y[i] as u32)
    }
}

fn key_less(a: &(String, bool), b: &(String, bool)) -> (r: bool)
    ensures
        r == key_lt((a.0@, a.1), (b.0@, b.1)),
{
    if str_less(a.0.as_str(), b.0.as_str()) {
        true
    } else {
        a.0 == b.0 && !a.1 && b.1
    }
}

/// Adds `k` to the strictly sorted list `keys`, where it is not there yet.
fn insert_key(keys: &mut Vec<(String, bool)>, k: (String, bool))
    requires
        sorted_strict(key_views(old(keys)@)),
    ensures
        sorted_strict(key_views(final(keys)@)),
        key_views(final(keys)@).to_set() == key_views(old(keys)@).to_set().insert((k.0@, k.1)),
{
    let ghost kv = (k.0@, k.1);
    let ghost s = key_views(keys@);
    let n = keys.len();
    let mut j: usize = 0;
    while j < n
        invariant
            n == keys@.len(),
            s == key_views(keys@),
            kv == (k.0@, k.1),
            j <= n,
            forall|i: int| 0 <= i < j ==> key_lt(#[trigger] s[i], kv),
        ensures
            j <= n,
            forall|i: int| 0 <= i < j ==> key_lt(#[trigger] s[i], kv),
            j < n ==> !key_lt(s[j as int], kv),
        decreases n - j,
    {
        assert(s[j as int] == (keys@[j as int].0@, keys@[j as int].1));
        if !key_less(&keys[j], &k) {
            break;
        }
        assert(s[j as int] == (keys@[j as int].0@, keys@[j as int].1));
        j = j + 1;
    }
    if j < n && keys[j].0 == k.0 && keys[j].1 == k.1 {
        assert(s[j as int] == kv);
        assert forall|x: (Seq<char>, bool)| s.to_set().insert(kv).contains(x) implies s.to_set().contains(x) by {
            if x == kv {
                assert(s.contains(x));
            }
        }
        assert(s.to_set() =~= s.to_set().insert(kv));
        return;
    }
    keys.insert(j, k);
    let ghost t = key_views(keys@);
    assert(t =~= s.insert(j as int, kv));
    if j < n {
        assert(s[j as int] == (keys@[j as int + 1].0@, keys@[j as int + 1].1));
        assert(s[j as int] != kv);
        proof {
            lemma_key_lt_order(kv, s[j as int], s[j as int]);
        }
        assert(key_lt(kv, s[j as int]));
    }
    assert forall|a: int, b: int| 0 <= a < b < t.len() implies key_lt(#[trigger] t[a], #[trigger] t[b]) by {
        if b > j {
            assert(t[b] == s[b - 1]);
            if b - 1 > j {
                lemma_key_lt_order(kv, s[j as int], s[b - 1]);
            }
            assert(key_lt(kv, s[b - 1]));
            if a < j {
                lemma_key_lt_order(s[a], kv, s[b - 1]);
            }
        }
    }
    assert forall|x: (Seq<char>, bool)| t.contains(x) <==> (s.contains(x) || x == kv) by {
        if x == kv {
            assert(t[j as int] == x);
        }
        if t.contains(x) {
            let p = choose|p: int| 0 <= p < t.len() && t[p] == x;
            if p < j {
                assert(s[p] == x);
            } else if p > j {
                assert(s[p - 1] == x);
            }
        }
        if s.contains(x) {
            let p = choose|p: int| 0 <= p < s.len() && s[p] == x;
            if p < j {
                assert(t[p] == x);
            } else {
                assert(t[p + 1] == x);
            }
        }
    }
    assert(t.to_set() =~= s.to_set().insert(kv));
}

/// The unified key list of the catalogs: every distinct (key, plurality)
/// pair with a non-empty key, once each, in increasing order.
pub fn unify_keys(pos: &Vec<Po>) -> (r: Vec<(String, bool)>)
    ensures
        is_unified_key_list(key_views(r@), po_views(pos@)),
        key_views(r@) == unified_keys(po_views(pos@)),
{
    let ghost pv = po_views(pos@);
    let mut keys: Vec<(String, bool)> = Vec::new();
    let mut i: usize = 0;
    while i < pos.len()
        invariant
            pv == po_views(pos@),
            i <= pos@.len(),
            sorted_strict(key_views(keys@)),
            forall|k: (Seq<char>, bool)| key_views(keys@).to_set().contains(k) <==> (k.0.len() > 0
                && exists|a: int, b: int| a < i && #[trigger] has_record(pv, a, b, k)),
        decreases pos@.len() - i,
    {
        let po = &pos[i];
        let mut j: usize = 0;
        while j < po.msgs.len()
            invariant
                pv == po_views(pos@),
                i < pos@.len(),
                po == pos@[i as int],
                j <= po.msgs@.len(),
                sorted_strict(key_views(keys@)),
                forall|k: (Seq<char>, bool)| key_views(keys@).to_set().contains(k) <==> (k.0.len() > 0
                    && exists|a: int, b: int| (a < i || (a == i && b < j)) && #[trigger] has_record(pv, a, b, k)),
            decreases po.msgs@.len() - j,
        {
            let m = &po.msgs[j];
            let ghost mk = (m.msgid@, m.is_plural);
            assert(pv[i as int].msgs[j as int] == m@);
            if m.msgid.as_str().unicode_len() > 0 {
                insert_key(&mut keys, (m.msgid.clone(), m.is_plural));
            } else {
                assert(m.msgid@.len() == 0);
            }
            assert forall|k: (Seq<char>, bool)| key_views(keys@).to_set().contains(k) <==> (k.0.len() > 0
                && exists|a: int, b: int| (a < i || (a == i && b < j + 1)) && #[trigger] has_record(pv, a, b, k)) by {
                if k == mk && k.0.len() > 0 {
                    assert(has_record(pv, i as int, j as int, k));
                }
                if k.0.len() > 0 && exists|a: int, b: int| (a < i || (a == i && b < j + 1)) && #[trigger] has_record(pv, a, b, k) {
                    let (a, b) = choose|a: int, b: int| (a < i || (a == i && b < j + 1)) && #[trigger] has_record(pv, a, b, k);
                    if !(a < i || (a == i && b < j)) {
                        assert(k == mk);
                    }
                }
            }
            j = j + 1;
        }
        assert forall|k: (Seq<char>, bool)| key_views(keys@).to_set().contains(k) <==> (k.0.len() > 0
            && exists|a: int, b: int| a < i + 1 && #[trigger] has_record(pv, a, b, k)) by {
            if k.0.len() > 0 && exists|a: int, b: int| a < i + 1 && #[trigger] has_record(pv, a, b, k) {
                let (a, b) = choose|a: int, b: int| a < i + 1 && #[trigger] has_record(pv, a, b, k);
                assert(a < i || (a == i && b < po.msgs@.len()));
            }
        }
        i = i + 1;
    }
    assert forall|k: (Seq<char>, bool)| key_views(keys@).to_set().contains(k) <==> key_set(pv).contains(k) by {
        if k.0.len() > 0 && exists|a: int, b: int| #[trigger] has_record(pv, a, b, k) {
            let (a, b) = choose|a: int, b: int| #[trigger] has_record(pv, a, b, k);
            assert(a < i);
        }
    }
    assert(key_views(keys@).to_set() =~= key_set(pv));
    proof {
        lemma_unified_key_list_unique(key_views(keys@), unified_keys(pv), pv);
    }
    keys
}

} // verus!
