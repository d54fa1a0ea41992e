use po2elm::elm::{camel_from_heads, heads_of, identifier};
use po2elm::keys::unify_keys;
use po2elm::{to_elm, Msg, Po};

fn lines(text: &[&str]) -> Vec<String> {
    text.iter().map(|l| l.to_string()).collect()
}

fn catalog(lang: &str, text: &[&str]) -> Po {
    Po::parse(lang, &lines(text)).expect("well-formed catalog")
}

#[test]
fn single_record_round_trip() {
    let po = catalog("en", &["msgid \"a.b\"", "msgstr \"x\\ny\"", ""]);
    assert_eq!(po.lang, "en");
    assert_eq!(po.msgs.len(), 1);
    let m = &po.msgs[0];
    assert_eq!(m.msgid, "a.b");
    assert_eq!(m.msgstr, vec!["x\ny".to_string()]);
    assert!(!m.is_plural);
    assert_eq!(m.comment, "");
    assert_eq!(m.print(), "\nmsgid \"a.b\"\nmsgstr \"x\\ny\"\n\n");
}

#[test]
fn plural_arity_kept_in_order() {
    let po = catalog(
        "en",
        &[
            "msgid \"apples\"",
            "msgid_plural \"\"",
            "msgstr[0] \"one\"",
            "msgstr[1] \"two\"",
            "msgstr[2] \"many\"",
            "",
        ],
    );
    let m = &po.msgs[0];
    assert!(m.is_plural);
    assert_eq!(m.msgstr, vec!["one".to_string(), "two".to_string(), "many".to_string()]);
    assert_eq!(
        m.print(),
        "\nmsgid \"apples\"\nmsgid_plural \"\"\nmsgstr[0] \"one\"\nmsgstr[1] \"two\"\nmsgstr[2] \"many\"\n\n"
    );
}

#[test]
fn comment_lines_fold() {
    let po = catalog("en", &["#. A", "#.   B  ", "msgid \"k\"", "msgstr \"v\"", ""]);
    assert_eq!(po.msgs[0].comment, "A\nB");
    assert_eq!(po.msgs[0].print(), "#. A\n#. B\nmsgid \"k\"\nmsgstr \"v\"\n\n");
}

#[test]
fn continuation_lines_join() {
    let po = catalog("en", &["msgid \"k\"", "msgstr \"\"", "\"ab\"", "\"c\\nd\"", ""]);
    assert_eq!(po.msgs[0].msgstr, vec!["abc\nd".to_string()]);
}

#[test]
fn unterminated_record_is_dropped() {
    let po = catalog("en", &["msgid \"a\"", "msgstr \"1\"", "", "msgid \"b\"", "msgstr \"2\""]);
    assert_eq!(po.msgs.len(), 1);
    assert_eq!(po.msgs[0].msgid, "a");
}

#[test]
fn line_without_quote_is_rejected() {
    assert!(Po::parse("en", &lines(&["msgid k", "msgstr \"v\"", ""])).is_none());
    assert!(Po::parse("en", &lines(&["msgid \"k\"", "msgstr v", ""])).is_none());
}

#[test]
fn new_values_are_empty() {
    let m = Msg::new();
    assert_eq!(m.comment, "");
    assert_eq!(m.msgid, "");
    assert!(m.msgstr.is_empty());
    assert!(!m.is_plural);
    let p = Po::new("fr");
    assert_eq!(p.lang, "fr");
    assert!(p.msgs.is_empty());
    assert_eq!(p.print(), "");
}

#[test]
fn catalog_print_concatenates_records() {
    let po = catalog("en", &["msgid \"a\"", "msgstr \"1\"", "", "msgid \"b\"", "msgstr \"2\"", ""]);
    assert_eq!(po.print(), "\nmsgid \"a\"\nmsgstr \"1\"\n\n\nmsgid \"b\"\nmsgstr \"2\"\n\n");
}

#[test]
fn shared_key_unified_once() {
    let x = catalog("x", &["msgid \"k\"", "msgstr \"kx\"", ""]);
    let y = catalog("y", &["msgid \"k\"", "msgstr \"ky\"", ""]);
    let pos = vec![x, y];
    let keys = unify_keys(&pos);
    assert_eq!(keys, vec![("k".to_string(), false)]);
    let out = to_elm(&pos).unwrap();
    assert!(out.contains("        Lang.x ->\n            \"kx\"\n"));
    assert!(out.contains("        Lang.y ->\n            \"ky\"\n"));
}

#[test]
fn keys_sorted_and_header_skipped() {
    let a = catalog(
        "en",
        &["msgid \"\"", "msgstr \"meta\"", "", "msgid \"b\"", "msgstr \"1\"", "", "msgid \"a\"", "msgstr \"2\"", ""],
    );
    let keys = unify_keys(&vec![a]);
    assert_eq!(keys, vec![("a".to_string(), false), ("b".to_string(), false)]);
}

#[test]
fn missing_key_aborts_generation() {
    let x = catalog("x", &["msgid \"k\"", "msgstr \"kx\"", ""]);
    let y = catalog("y", &["msgid \"other\"", "msgstr \"o\"", ""]);
    assert!(to_elm(&vec![x, y]).is_none());
}

#[test]
fn identifier_from_dotted_key() {
    assert_eq!(identifier("section.sub_label"), Some("sectionSub_label".to_string()));
    assert_eq!(identifier("section.sub_label"), identifier("section.sub_label"));
    assert_eq!(identifier("Greeting.hello"), Some("greetingHello".to_string()));
    assert_eq!(identifier("a..b"), None);
    assert_eq!(identifier("a."), None);
}

#[test]
fn empty_segment_key_aborts_generation() {
    let x = catalog("x", &["msgid \"a..b\"", "msgstr \"v\"", ""]);
    assert!(to_elm(&vec![x]).is_none());
}

#[test]
fn end_to_end_greeting() {
    let en = catalog("en", &["msgid \"greeting.hello\"", "msgstr \"Hello\"", ""]);
    let fr = catalog("fr", &["msgid \"greeting.hello\"", "msgstr \"Bonjour\"", ""]);
    let out = to_elm(&vec![en, fr]).unwrap();
    let expected = "module Strings exposing (..)\n\nimport Lang exposing (Lang)\n\n\n\
greetingHello : Lang -> String\n\
greetingHello lang =\n\
\x20   case lang of\n\
\x20       Lang.en ->\n\
\x20           \"Hello\"\n\
\n\
\x20       Lang.fr ->\n\
\x20           \"Bonjour\"\n\
\n\
\n";
    assert_eq!(out, expected);
}

#[test]
fn end_to_end_plural() {
    let form_lines = |a: &str, b: &str, c: &str| {
        vec![
            "msgid \"items.count\"".to_string(),
            "msgid_plural \"\"".to_string(),
            format!("msgstr[0] \"{}\"", a),
            format!("msgstr[1] \"{}\"", b),
            format!("msgstr[2] \"{}\"", c),
            String::new(),
        ]
    };
    let en = Po::parse("en", &form_lines("one", "two", "many")).unwrap();
    let fr = Po::parse("fr", &form_lines("un", "deux", "plusieurs")).unwrap();
    let out = to_elm(&vec![en, fr]).unwrap();
    let expected = "module Strings exposing (..)\n\nimport Lang exposing (Lang)\n\n\n\
itemsCount : Lang -> Int -> String\n\
itemsCount lang n =\n\
\x20   case lang of\n\
\x20       Lang.en ->\n\
\x20           if n <= 1 then\n\
\x20               \"one\"\n\n\
\x20           elif n == 2 then\n\
\x20               \"two\"\n\n\
\x20           else\n\
\x20               \"many\"\n\n\
\n\
\x20       Lang.fr ->\n\
\x20           if n <= 1 then\n\
\x20               \"un\"\n\n\
\x20           elif n == 2 then\n\
\x20               \"deux\"\n\n\
\x20           else\n\
\x20               \"plusieurs\"\n\n\
\n\
\n";
    assert_eq!(out, expected);
}

#[test]
fn many_plural_forms_numbered_in_decimal() {
    let mut text = vec!["msgid \"k\"".to_string(), "msgid_plural \"\"".to_string()];
    for i in 0..12 {
        text.push(format!("msgstr[{}] \"f{}\"", i, i));
    }
    text.push(String::new());
    let po = Po::parse("en", &text).unwrap();
    assert_eq!(po.msgs[0].msgstr.len(), 12);
    let printed = po.msgs[0].print();
    assert!(printed.contains("msgstr[11] \"f11\"\n"));
    let out = to_elm(&vec![po]).unwrap();
    assert!(out.contains("            elif n == 11 then\n                \"f10\"\n\n"));
    assert!(out.contains("            else\n                \"f11\"\n\n"));
}

#[test]
fn upper_case_mapping_used_for_segments() {
    assert_eq!(identifier("a.straße"), Some("aStraße".to_string()));
    assert_eq!(identifier("ß.x"), Some("sSX".to_string()));
}

#[test]
fn segment_heads_in_order() {
    assert_eq!(heads_of("section.sub_label"), vec!['s', 's']);
    assert_eq!(heads_of("a.bc.def"), vec!['a', 'b', 'd']);
    assert_eq!(heads_of(""), Vec::<char>::new());
}

#[test]
fn camel_body_uses_given_heads() {
    let heads = vec!["X".to_string(), "YZ".to_string()];
    assert_eq!(camel_from_heads("ab.cd", &heads), Some("XbYZd".to_string()));
    assert_eq!(camel_from_heads("ab.cd.e", &heads), None);
    assert_eq!(camel_from_heads("ab..cd", &heads), None);
    assert_eq!(camel_from_heads("", &heads), None);
}

#[test]
fn comment_with_crlf_renders_as_lines() {
    let mut m = Msg::new();
    m.msgid = "k".to_string();
    m.msgstr = vec!["v".to_string()];
    m.comment = "A\r\nB".to_string();
    assert_eq!(m.print(), "#. A\n#. B\nmsgid \"k\"\nmsgstr \"v\"\n\n");
    m.comment = "A\r\n".to_string();
    assert_eq!(m.print(), "#. A\nmsgid \"k\"\nmsgstr \"v\"\n\n");
    m.comment = "A\rB".to_string();
    assert_eq!(m.print(), "#. A\rB\nmsgid \"k\"\nmsgstr \"v\"\n\n");
    m.comment = "A\n\nB".to_string();
    assert_eq!(m.print(), "#. A\n#. \n#. B\nmsgid \"k\"\nmsgstr \"v\"\n\n");
}

#[test]
fn plural_record_after_another_record() {
    let po = catalog(
        "en",
        &[
            "msgid \"a\"",
            "msgstr \"1\"",
            "",
            "msgid \"p\"",
            "msgid_plural \"\"",
            "msgstr[0] \"x\"",
            "msgstr[1] \"y\\nz\"",
            "",
        ],
    );
    assert_eq!(po.msgs.len(), 2);
    assert!(po.msgs[1].is_plural);
    assert_eq!(po.msgs[1].msgstr, vec!["x".to_string(), "y\nz".to_string()]);
}

#[test]
fn three_comment_lines_fold_after_a_record() {
    let po = catalog(
        "en",
        &["msgid \"a\"", "msgstr \"1\"", "", "#. one", "#. two", "#. three", "msgid \"b\"", "msgstr \"2\"", ""],
    );
    assert_eq!(po.msgs[0].comment, "");
    assert_eq!(po.msgs[1].comment, "one\ntwo\nthree");
}

#[test]
fn one_function_per_key_pair() {
    let x = catalog("x", &["msgid \"a.b\"", "msgstr \"1\"", "", "msgid \"c\"", "msgstr \"2\"", ""]);
    let y = catalog("y", &["msgid \"c\"", "msgstr \"3\"", "", "msgid \"a.b\"", "msgstr \"4\"", ""]);
    let out = to_elm(&vec![x, y]).unwrap();
    assert_eq!(out.matches(" : Lang -> ").count(), 2);
    assert_eq!(out.matches("aB : Lang -> String\n").count(), 1);
    assert_eq!(out.matches("c : Lang -> String\n").count(), 1);
}
