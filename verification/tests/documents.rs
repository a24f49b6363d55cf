use json_parser::{json_scan, parse, parse_as_object, parse_with_max_depth};
use json_parser::{JsonObject, JsonValue, ParseError};

fn number_of(value: &JsonValue) -> f64 {
    value.as_number().expect("a number").as_str().parse::<f64>().expect("a float")
}

fn member<'a>(object: &'a JsonObject, key: &str) -> &'a JsonValue {
    object.get(key).expect("a member")
}

#[test]
fn empty_object_and_empty_array() {
    let object = parse("{}").unwrap();
    assert!(object.as_object().unwrap().is_empty());
    assert_eq!(object.as_object().unwrap().len(), 0);
    let array = parse("[]").unwrap();
    assert!(array.as_array().unwrap().is_empty());
}

#[test]
fn empty_containers_may_hold_whitespace() {
    assert!(parse("{ \n }").unwrap().as_object().unwrap().is_empty());
    assert!(parse("[\t]").unwrap().as_array().unwrap().is_empty());
}

#[test]
fn scalars() {
    assert!(parse("null").unwrap().is_null());
    assert_eq!(parse("true").unwrap().as_bool(), Some(true));
    assert_eq!(parse("false").unwrap().as_bool(), Some(false));
    assert_eq!(number_of(&parse("42").unwrap()), 42.0);
    assert_eq!(parse("\"hi\"").unwrap().as_str(), Some("hi"));
}

#[test]
fn nesting() {
    let root = parse("{\"a\": [1, 2, {\"b\": true}]}").unwrap();
    let object = root.as_object().unwrap();
    assert_eq!(object.len(), 1);
    let items = member(object, "a").as_array().unwrap();
    assert_eq!(items.len(), 3);
    assert_eq!(number_of(&items[0]), 1.0);
    assert_eq!(number_of(&items[1]), 2.0);
    let third = items[2].as_object().unwrap();
    assert_eq!(third.len(), 1);
    assert_eq!(member(third, "b").as_bool(), Some(true));
}

#[test]
fn separators_inside_strings_are_text() {
    let root = parse("{\"k\": \"a,b:c{d}\"}").unwrap();
    let object = root.as_object().unwrap();
    assert_eq!(object.len(), 1);
    assert_eq!(member(object, "k").as_str(), Some("a,b:c{d}"));
}

#[test]
fn escaped_quotes_do_not_end_a_string() {
    let root = parse("[\"a\\\",b\", \"c\\\\\", 3]").unwrap();
    let items = root.as_array().unwrap();
    assert_eq!(items.len(), 3);
    assert_eq!(items[0].as_str(), Some("a\",b"));
    assert_eq!(items[1].as_str(), Some("c\\"));
    assert_eq!(number_of(&items[2]), 3.0);
}

#[test]
fn duplicate_keys_last_wins() {
    let root = parse("{\"x\":1,\"x\":2}").unwrap();
    let object = root.as_object().unwrap();
    assert_eq!(object.len(), 1);
    assert_eq!(number_of(member(object, "x")), 2.0);
}

#[test]
fn duplicate_keys_keep_other_members() {
    let object = parse_as_object("{\"x\":1,\"y\":true,\"x\":null}").unwrap();
    assert_eq!(object.len(), 2);
    assert!(member(&object, "x").is_null());
    assert_eq!(member(&object, "y").as_bool(), Some(true));
    assert!(object.contains_key("y"));
    assert!(!object.contains_key("z"));
    assert!(object.get("z").is_none());
}

#[test]
fn whitespace_insensitivity() {
    assert_eq!(parse(" { \"a\" : 1 } "), parse("{\"a\":1}"));
    assert_eq!(
        parse("\n[ 1 ,\t{ \"k\" :\r\n[ ] } , \"a b\" ]\n"),
        parse("[1,{\"k\":[]},\"a b\"]")
    );
    assert_ne!(parse("[\"a b\"]"), parse("[\"ab\"]"));
    let spaced = parse(" { \"a\" : 1 } ").unwrap();
    let dense = parse("{\"a\":1}").unwrap();
    let spaced = spaced.as_object().unwrap();
    let dense = dense.as_object().unwrap();
    assert_eq!(spaced.len(), 1);
    assert_eq!(dense.len(), 1);
    assert_eq!(
        member(spaced, "a").as_number().unwrap().as_str(),
        member(dense, "a").as_number().unwrap().as_str()
    );
    assert_eq!(number_of(member(spaced, "a")), 1.0);
}

#[test]
fn whitespace_of_every_kind_is_trimmed() {
    assert_eq!(parse("\u{a0}\u{2003}\u{3000}\ttrue\r\n\u{85}").unwrap().as_bool(), Some(true));
    assert_eq!(parse("[\u{2028}1\u{2029},\u{1680}2\u{205f}]").unwrap().as_array().unwrap().len(), 2);
}

#[test]
fn error_cases() {
    assert_eq!(
        parse("{\"a\":}").unwrap_err(),
        ParseError::MalformedObject("\"a\":".to_string())
    );
    assert_eq!(parse("[1,2").unwrap_err(), ParseError::UnterminatedContainer);
    assert_eq!(parse_as_object("[1,2]").unwrap_err(), ParseError::RootNotObject);
}

#[test]
fn json_scan_gives_the_members() {
    let object = json_scan(" {\"a\": \"b\", \"n\": -1.5e3} ").unwrap();
    assert_eq!(object.len(), 2);
    assert_eq!(member(&object, "a").as_str(), Some("b"));
    assert_eq!(number_of(member(&object, "n")), -1500.0);
    assert_eq!(json_scan("7").unwrap_err(), ParseError::RootNotObject);
    assert_eq!(json_scan("\"{}\"").unwrap_err(), ParseError::RootNotObject);
    assert_eq!(json_scan("{").unwrap_err(), ParseError::UnterminatedContainer);
}

#[test]
fn malformed_values() {
    assert_eq!(parse("").unwrap_err(), ParseError::MalformedValue(String::new()));
    assert_eq!(parse("   ").unwrap_err(), ParseError::MalformedValue(String::new()));
    assert_eq!(parse("tru").unwrap_err(), ParseError::MalformedValue("tru".to_string()));
    assert_eq!(parse("nulls").unwrap_err(), ParseError::MalformedValue("nulls".to_string()));
    assert_eq!(parse("hello").unwrap_err(), ParseError::MalformedValue("hello".to_string()));
    assert_eq!(parse("[1,2]x").unwrap_err(), ParseError::MalformedValue("[1,2]x".to_string()));
    assert_eq!(parse("\"a\"b").unwrap_err(), ParseError::MalformedValue("\"a\"b".to_string()));
    assert_eq!(parse("[1}").unwrap_err(), ParseError::MalformedValue("[1}".to_string()));
    assert_eq!(parse("}").unwrap_err(), ParseError::MalformedValue("}".to_string()));
}

#[test]
fn unterminated_strings_and_containers() {
    assert_eq!(parse("\"abc").unwrap_err(), ParseError::UnterminatedString);
    assert_eq!(parse("\"abc\\\"").unwrap_err(), ParseError::UnterminatedString);
    assert_eq!(parse("[\"abc").unwrap_err(), ParseError::UnterminatedString);
    assert_eq!(parse("{\"a\":1").unwrap_err(), ParseError::UnterminatedContainer);
    assert_eq!(parse("[[1,2]").unwrap_err(), ParseError::MalformedArray(
        0,
        Box::new(ParseError::UnterminatedContainer)
    ));
    assert_eq!(parse("[1, \"x]").unwrap_err(), ParseError::MalformedArray(
        1,
        Box::new(ParseError::UnterminatedString)
    ));
}

#[test]
fn malformed_members() {
    assert_eq!(
        parse("{\"a\" 1}").unwrap_err(),
        ParseError::MalformedObject("\"a\" 1".to_string())
    );
    assert_eq!(parse("{:1}").unwrap_err(), ParseError::MalformedObject(":1".to_string()));
    assert_eq!(parse("{a:1}").unwrap_err(), ParseError::MalformedObject("a:1".to_string()));
    assert_eq!(
        parse("{\"a\":1,}").unwrap_err(),
        ParseError::MalformedObject(String::new())
    );
    assert_eq!(
        parse("{ \"a\":1 , \"b\" : }").unwrap_err(),
        ParseError::MalformedObject("\"b\" :".to_string())
    );
    assert_eq!(
        parse("{\"a\":tru}").unwrap_err(),
        ParseError::MalformedValue("tru".to_string())
    );
    assert_eq!(
        parse("{\"a\\q\":1}").unwrap_err(),
        ParseError::MalformedObject("\"a\\q\":1".to_string())
    );
}

#[test]
fn empty_key_is_a_key() {
    let object = parse_as_object("{\"\": 1}").unwrap();
    assert_eq!(object.len(), 1);
    assert_eq!(number_of(member(&object, "")), 1.0);
}

#[test]
fn array_failures_name_the_element() {
    assert_eq!(parse("[1, x, y]").unwrap_err(), ParseError::MalformedArray(
        1,
        Box::new(ParseError::MalformedValue("x".to_string()))
    ));
    assert_eq!(parse("[1,2,]").unwrap_err(), ParseError::MalformedArray(
        2,
        Box::new(ParseError::MalformedValue(String::new()))
    ));
    assert_eq!(parse("[[true, [nope]]]").unwrap_err(), ParseError::MalformedArray(
        0,
        Box::new(ParseError::MalformedArray(
            1,
            Box::new(ParseError::MalformedArray(
                0,
                Box::new(ParseError::MalformedValue("nope".to_string()))
            ))
        ))
    ));
    assert_eq!(parse("[{\"a\":}]").unwrap_err(), ParseError::MalformedArray(
        0,
        Box::new(ParseError::MalformedObject("\"a\":".to_string()))
    ));
}

#[test]
fn nesting_limit() {
    assert!(parse_with_max_depth("[[1]]", 2).is_ok());
    assert_eq!(
        parse_with_max_depth("[[[1]]]", 2).unwrap_err(),
        ParseError::MalformedArray(
            0,
            Box::new(ParseError::MalformedArray(0, Box::new(ParseError::NestingTooDeep)))
        )
    );
    assert_eq!(parse_with_max_depth("{}", 0).unwrap_err(), ParseError::NestingTooDeep);
    assert_eq!(parse_with_max_depth("[]", 0).unwrap_err(), ParseError::NestingTooDeep);
    assert!(parse_with_max_depth("17", 0).is_ok());
    assert_eq!(
        parse_with_max_depth("{\"a\":{\"b\":1}}", 1).unwrap_err(),
        ParseError::NestingTooDeep
    );
}

#[test]
fn default_nesting_limit() {
    let mut deep = String::new();
    for _ in 0..128 {
        deep.push('[');
    }
    for _ in 0..128 {
        deep.push(']');
    }
    assert!(parse(&deep).is_ok());
    let deeper = format!("[{}]", deep);
    assert!(parse(&deeper).is_err());
    assert_eq!(json_parser::DEFAULT_MAX_DEPTH, 128);
}

#[test]
fn same_text_same_result() {
    for text in ["{\"a\": [1, {\"b\": null}]}", "[1, oops]", "\"x", "{\"k\" 1}", "[[[]]]"] {
        assert_eq!(parse(text), parse(text));
        assert_eq!(format!("{:?}", parse(text)), format!("{:?}", parse(text)));
        let span: Vec<char> = text.chars().collect();
        for budget in 0..4 {
            assert_eq!(
                json_parser::dispatch::json_get_value(&span, budget),
                json_parser::dispatch::json_get_value(&span, budget)
            );
        }
    }
}

#[test]
fn equality_ignores_member_order() {
    assert_eq!(parse("{\"a\":1,\"b\":[true,null]}"), parse("{\"b\":[true,null],\"a\":1}"));
    assert_ne!(parse("{\"a\":1,\"b\":2}"), parse("{\"a\":1,\"b\":3}"));
    assert_ne!(parse("{\"a\":1,\"b\":2}"), parse("{\"a\":1,\"c\":2}"));
    assert_ne!(parse("{\"a\":1}"), parse("{\"a\":1,\"b\":2}"));
    assert_ne!(parse("{\"a\":1,\"b\":2}"), parse("{\"a\":1}"));
    assert_eq!(parse("{\"x\":1,\"x\":2}"), parse("{\"x\":2}"));
    assert_ne!(parse("{\"x\":1,\"x\":2}"), parse("{\"x\":1}"));
}

#[test]
fn equality_compares_kind_and_content() {
    assert_eq!(parse("[1,2]"), parse("[1, 2]"));
    assert_ne!(parse("[1,2]"), parse("[2,1]"));
    assert_ne!(parse("[1,2]"), parse("[1]"));
    assert_ne!(parse("[]"), parse("{}"));
    assert_ne!(parse("1"), parse("\"1\""));
    assert_ne!(parse("null"), parse("false"));
    assert_ne!(parse("true"), parse("false"));
    assert_eq!(parse("\"\\u0041\""), parse("\"A\""));
    assert_eq!(parse("1.5"), parse(" 1.5 "));
    assert_ne!(parse("1.0"), parse("1"));
    let a = parse("{\"k\":[1,{\"n\":null}]}").unwrap();
    let b = parse("{ \"k\" : [ 1 , { \"n\" : null } ] }").unwrap();
    assert!(a.same_as(&b));
    assert!(a.as_object().unwrap().same_as(b.as_object().unwrap()));
    assert!(a == b);
    assert!(!a.same_as(&JsonValue::Null));
}

#[test]
fn padding_around_a_document_changes_nothing() {
    for text in ["null", "[1, 2]", "{\"a\": \" b \"}", "oops", "[1,", "\"open"] {
        for (before, after) in [("", " "), ("\n\t", ""), (" \u{a0}", "\r\n\u{3000}")] {
            let padded = format!("{}{}{}", before, text, after);
            assert_eq!(parse(&padded), parse(text), "{:?}", padded);
        }
    }
}

#[test]
fn padding_around_a_member_changes_nothing() {
    assert_eq!(
        parse_as_object("{ \"a:b\" \t:\n [1] }").unwrap().get("a:b"),
        parse_as_object("{\"a:b\":[1]}").unwrap().get("a:b")
    );
    assert_eq!(parse("{ \"k\" : x }"), parse("{\"k\":x}"));
}

#[test]
fn a_larger_limit_keeps_results() {
    for text in ["[[1]]", "{\"a\":{\"b\":[]}}", "[[oops]]", "7", "[1,[2,\"x]"] {
        let at_three = parse_with_max_depth(text, 3);
        assert_eq!(parse_with_max_depth(text, 4), at_three);
        assert_eq!(parse_with_max_depth(text, 1000), at_three);
        assert_eq!(parse(text), at_three);
    }
    assert_ne!(parse_with_max_depth("[[1]]", 1), parse_with_max_depth("[[1]]", 2));
}

#[test]
fn string_members_hide_separators() {
    for (key, value) in [("\"a,b\"", "\"c:d\""), ("\"{\"", "\"]\""), ("\"\\\"\"", "\",\\\\\"")] {
        let object = parse_as_object(&format!("{{{}:{}}}", key, value)).unwrap();
        assert_eq!(object.len(), 1);
        let k = parse(key).unwrap();
        let v = parse(value).unwrap();
        assert_eq!(object.get(k.as_str().unwrap()), Some(&v));
        let array = parse(&format!("[{}]", value)).unwrap();
        assert_eq!(array.as_array().unwrap().len(), 1);
        assert_eq!(array.as_array().unwrap()[0], v);
    }
}

#[test]
fn arrays_keep_order() {
    let array = parse("[3, 1, 2, 1]").unwrap();
    let texts: Vec<&str> = array
        .as_array()
        .unwrap()
        .iter()
        .map(|v| v.as_number().unwrap().as_str())
        .collect();
    assert_eq!(texts, vec!["3", "1", "2", "1"]);
}

#[test]
fn joined_elements_are_the_elements() {
    let elements = ["1", " \"a,b\" ", "[2, [3, 4], {\"k\": [5, 6]}]", "{\"x\": \"}\", \"y\": 1}", "null"];
    let text = format!("[{}]", elements.join(","));
    let array = parse(&text).unwrap();
    let items = array.as_array().unwrap();
    assert_eq!(items.len(), elements.len());
    for (item, element) in items.iter().zip(elements.iter()) {
        assert_eq!(item, &parse(element).unwrap());
    }
}

#[test]
fn joined_members_are_the_members() {
    let members = [("\"a\"", "1"), (" \"b:c\" ", " [1, {\"d\": 2}] "), ("\"e,f\"", "\"g:h,i\"")];
    let joined: Vec<String> = members.iter().map(|(k, v)| format!("{}:{}", k, v)).collect();
    let text = format!("{{{}}}", joined.join(","));
    let object = parse_as_object(&text).unwrap();
    assert_eq!(object.len(), members.len());
    for (key, value) in members.iter() {
        let key = parse(key).unwrap();
        assert_eq!(object.get(key.as_str().unwrap()), Some(&parse(value).unwrap()));
    }
}
