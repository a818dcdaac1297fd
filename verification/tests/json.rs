use cache_node::json::{canon, parse_json, pretty, Json, JsonNumber};

fn parsed(text: &str) -> Json {
    match parse_json(text.as_bytes()) {
        Ok(v) => v,
        Err(e) => panic!("{e}"),
    }
}

#[test]
fn canon_sorts_keys_and_keeps_text() {
    let v = parsed("{ \"b\": [1, -2, 3.5, true, null], \"a\": \"你好\\n\" }");
    assert_eq!(canon(&v), "{\"a\":\"你好\\n\",\"b\":[1,-2,3.5,true,null]}");
}

#[test]
fn canon_is_read_back() {
    let text = "{\"a\":[{\"n\":18446744073709551615},{\"n\":-9223372036854775808}],\"b\":\"\\u0001\\\"\"}";
    let v = parsed(text);
    assert_eq!(canon(&v), text);
    assert_eq!(canon(&parsed(&canon(&v))), text);
}

#[test]
fn keys_ascend_at_every_level() {
    let inner = Json::object().with("你", Json::Null).with("b", Json::Null).with("B", Json::Null);
    let v = Json::object()
        .with("z", Json::array(vec![inner, Json::number(0), Json::number(10)]))
        .with("aa", Json::object().with("", Json::Bool(true)))
        .with("a", Json::array(Vec::new()))
        .with("0", Json::object());
    assert_eq!(
        canon(&v),
        "{\"0\":{},\"a\":[],\"aa\":{\"\":true},\"z\":[{\"B\":null,\"b\":null,\"你\":null},0,10]}"
    );
}

#[test]
fn characters_stand_as_they_are() {
    assert_eq!(canon(&Json::text("a b/é😀\u{7f}\u{2028}")), "\"a b/é😀\u{7f}\u{2028}\"");
    assert_eq!(canon(&Json::text("\"\\\u{8}\t\n\u{c}\r")), "\"\\\"\\\\\\b\\t\\n\\f\\r\"");
    assert_eq!(
        canon(&Json::text("\u{0}\u{b}\u{e}\u{1f}")),
        "\"\\u0000\\u000b\\u000e\\u001f\""
    );
    assert_eq!(canon(&Json::object().with("\n\"", Json::Null)), "{\"\\n\\\"\":null}");
}

#[test]
fn text_tells_the_value() {
    let values = [
        "1", "-1", "10", "\"1\"", "[1]", "[1,0]", "[10]", "[[1],0]", "{}", "[]", "{\"1\":0}",
        "{\"1\":10}", "{\"1\":1,\"2\":0}", "\"\\n\"", "\"\\\\n\"", "null", "\"null\"", "true", "false",
    ];
    for (i, a) in values.iter().enumerate() {
        for (j, b) in values.iter().enumerate() {
            assert_eq!(canon(&parsed(a)) == canon(&parsed(b)), i == j);
        }
    }
}

#[test]
fn pretty_is_indented() {
    let v = Json::object().with("b", Json::number(1)).with("a", Json::text("x"));
    assert_eq!(pretty(&v), "{\n  \"a\": \"x\",\n  \"b\": 1\n}");
}

#[test]
fn bad_json_is_told() {
    match parse_json(b"{\"a\":") {
        Ok(_) => panic!("read"),
        Err(e) => assert!(e.contains("EOF while parsing"), "{e}"),
    }
    assert!(parse_json(b"\xff").is_err());
}

#[test]
fn later_pair_counts() {
    let v = Json::object().with("a", Json::number(1)).with("a", Json::number(2));
    assert_eq!(v.get_u64("a"), Some(2));
    assert_eq!(canon(&v), "{\"a\":2}");
    assert_eq!(parsed("{\"a\":1,\"a\":2}").get_u64("a"), Some(2));
}

#[test]
fn fields_are_read_by_type() {
    let v = parsed("{\"t\":\"x\",\"u\":7,\"i\":-7,\"f\":1.5,\"l\":[1],\"big\":18446744073709551615}");
    assert_eq!(v.get_text("t"), Some("x".to_string()));
    assert_eq!(v.get_text("u"), None);
    assert_eq!(v.get_word("u"), "");
    assert_eq!(v.get_u64("u"), Some(7));
    assert_eq!(v.get_i64("u"), Some(7));
    assert_eq!(v.get_u64("i"), None);
    assert_eq!(v.get_i64("i"), Some(-7));
    assert_eq!(v.get_u64("f"), None);
    assert_eq!(v.get_i64("f"), None);
    assert_eq!(v.get_i64("big"), None);
    assert_eq!(v.get_u64("big"), Some(u64::MAX));
    assert_eq!(v.get_list("l").map(|l| l.len()), Some(1));
    assert!(v.get("none").is_none());
    assert!(Json::Null.get("a").is_none());
}

#[test]
fn built_values_are_written() {
    let v = Json::object()
        .with("i", Json::integer(-5))
        .with("j", Json::integer(5))
        .with("l", Json::array(vec![Json::Null, Json::Bool(false)]))
        .with("t", Json::texts(&["a".to_string(), "b".to_string()]));
    assert_eq!(canon(&v), "{\"i\":-5,\"j\":5,\"l\":[null,false],\"t\":[\"a\",\"b\"]}");
    assert_eq!(canon(&v.copy()), canon(&v));
}

#[test]
fn carried_numbers_are_kept() {
    let v = parsed("[1e400]".replace("1e400", "1.25e2").as_str());
    match &v {
        Json::Array(items) => assert!(matches!(items[0], Json::Number(JsonNumber::Other(_)))),
        _ => panic!("no list"),
    }
    assert_eq!(canon(&v), "[125.0]");
}

fn nested(depth: usize) -> String {
    format!("{}{}", "[".repeat(depth), "]".repeat(depth))
}

#[test]
fn depth_is_limited_when_read() {
    assert!(parse_json(nested(127).as_bytes()).is_ok());
    assert!(parse_json(nested(128).as_bytes()).is_err());
}

#[test]
fn key_order_does_not_matter() {
    let a = Json::object().with("x", Json::number(1)).with("y", Json::Null);
    let b = Json::object().with("y", Json::Null).with("x", Json::number(1));
    assert_eq!(canon(&a), canon(&b));
    assert_eq!(canon(&a), "{\"x\":1,\"y\":null}");
}

#[test]
fn reserved_key_is_not_read_back() {
    let v = Json::object().with("$serde_json::private::RawValue", Json::text("1"));
    let text = canon(&v);
    assert_eq!(text, "{\"$serde_json::private::RawValue\":\"1\"}");
    assert_eq!(canon(&parsed(&text)), "1");
}

#[test]
fn pairs_are_put_behind_the_others() {
    let v = Json::Object(vec![
        ("a".to_string(), Json::number(1)),
        ("b".to_string(), Json::number(2)),
        ("a".to_string(), Json::number(3)),
        ("b".to_string(), Json::number(4)),
        ("a".to_string(), Json::number(5)),
    ]);
    assert_eq!(canon(&v), "{\"a\":5,\"b\":4}");
}
