use pocket_kindle::json::{json_escape, json_unescape, parse_headers_json, split_json_pairs, unquote};

#[test]
fn escape_quotes_controls_and_backslashes() {
    assert_eq!(json_escape("a\"b\\c\nd\re\tf"), "a\\\"b\\\\c\\nd\\re\\tf");
    assert_eq!(json_escape("\u{1}\u{1f}"), "\\u0001\\u001f");
    assert_eq!(json_escape("é ok"), "é ok");
    assert_eq!(json_escape(""), "");
}

#[test]
fn unescape_is_lenient() {
    assert_eq!(json_unescape("x\\ny\\u00e9\\q"), "x\nyéq");
    assert_eq!(json_unescape("\\uD800z"), "z");
    assert_eq!(json_unescape("\\u+41"), "A");
    assert_eq!(json_unescape("\\u4"), "\u{4}");
    assert_eq!(json_unescape("\\uzzzz!"), "!");
    assert_eq!(json_unescape("\\uzz!"), "");
    assert_eq!(json_unescape("end\\"), "end");
}

#[test]
fn escape_round_trips() {
    for s in ["", "plain", "quote\"back\\slash", "ctl\u{0}\u{7}\u{1b}", "日本\n語\t"] {
        assert_eq!(json_unescape(&json_escape(s)), s);
    }
}

#[test]
fn unquote_trims_and_unescapes() {
    assert_eq!(unquote("  \"x\\ty\"  "), "x\ty");
    assert_eq!(unquote(" bare "), "bare");
    assert_eq!(unquote("\""), "\"");
    assert_eq!(unquote("\"\""), "");
}

#[test]
fn pairs_split_outside_strings() {
    assert_eq!(
        split_json_pairs("\"a\":\"1,2\",\"b\":\"x\\\",y\""),
        vec!["\"a\":\"1,2\"".to_string(), "\"b\":\"x\\\",y\"".to_string()]
    );
    assert_eq!(split_json_pairs("a,b, "), vec!["a".to_string(), "b".to_string()]);
    assert!(split_json_pairs("").is_empty());
}

#[test]
fn headers_from_flat_object() {
    let h = parse_headers_json(" {\"Cookie\":\"a=1\", \"X-K\" : \"v:w\", \"\":\"drop\", junk} ");
    assert_eq!(
        h,
        vec![
            ("Cookie".to_string(), "a=1".to_string()),
            ("X-K".to_string(), "v:w".to_string()),
        ]
    );
    assert!(parse_headers_json("[1,2]").is_empty());
    assert!(parse_headers_json("").is_empty());
    assert_eq!(parse_headers_json("{{k:v}}"), vec![("k".to_string(), "v".to_string())]);
}
