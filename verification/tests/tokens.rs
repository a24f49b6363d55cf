use json_parser::number::is_number_text;
use json_parser::dispatch::{json_get_value, parse_array, parse_member, parse_object};
use json_parser::scan::{find_split, scan, split_top_level, Scanner};
use json_parser::strings::{decode_body, literal_body, read_string};
use json_parser::text::{chars_of, is_space_char, text_of, trim};
use json_parser::{parse, JsonNumber, JsonObject, JsonValue, ParseError};

fn chars(text: &str) -> Vec<char> {
    text.chars().collect()
}

fn number(text: &str) -> bool {
    is_number_text(&chars(text))
}

#[test]
fn chars_and_text_round_trip() {
    let text = "a\u{e9}\u{1F600}\"\\ z";
    let cs = chars_of(text);
    assert_eq!(cs, chars(text));
    assert_eq!(text_of(&cs), text);
    assert_eq!(chars_of(""), Vec::<char>::new());
}

#[test]
fn whitespace_is_what_trim_removes() {
    for code in 0u32..0x3100 {
        if let Some(c) = char::from_u32(code) {
            assert_eq!(is_space_char(c), c.is_whitespace(), "{:?}", c);
        }
    }
    assert!(!is_space_char('\u{feff}'));
    assert!(!is_space_char('\u{200b}'));
}

#[test]
fn trim_removes_both_ends_only() {
    assert_eq!(text_of(trim(&chars("  a b \n"))), "a b");
    assert_eq!(text_of(trim(&chars("a"))), "a");
    assert_eq!(text_of(trim(&chars(" \t "))), "");
    assert_eq!(text_of(trim(&chars(""))), "");
    for text in ["  x  y ", "\u{2003}q\u{a0}", "none", " \r\n"] {
        assert_eq!(text_of(trim(&chars(text))), text.trim());
    }
}

#[test]
fn number_notation() {
    for good in ["0", "-0", "7", "42", "-13", "1.5", "0.001", "1e5", "1E5", "1e+5", "2E-3",
        "-1.25e10", "1234567890123456789012345678901234567890", "0e0"] {
        assert!(number(good), "{}", good);
        assert!(good.parse::<f64>().is_ok());
    }
    for bad in ["", "-", "+1", "01", "00", "-01", "1.", ".5", "1.e3", "1e", "1e+", "1e5.0",
        "0x10", "1 2", "1,5", "NaN", "inf", "Infinity", "1f", "--1", "1..2", "e5", "\u{661}"] {
        assert!(!number(bad), "{}", bad);
    }
}

#[test]
fn number_keeps_its_notation() {
    let n = JsonNumber::from_chars(&chars("-1.50e2")).unwrap();
    assert_eq!(n.as_str(), "-1.50e2");
    assert_eq!(n.as_str().parse::<f64>().unwrap(), -150.0);
    assert!(JsonNumber::from_chars(&chars("1.")).is_none());
    let parsed = parse("  2.5E-1 ").unwrap();
    assert_eq!(parsed.as_number().unwrap().as_str(), "2.5E-1");
    assert_eq!(parsed.as_number().unwrap().as_str().parse::<f64>().unwrap(), 0.25);
}

#[test]
fn scanner_steps() {
    let start = Scanner::new();
    assert_eq!(start, Scanner { depth: 0, in_string: false, escape_pending: false });
    assert!(start.top_level());
    assert_eq!(start.step('['), Scanner { depth: 1, in_string: false, escape_pending: false });
    assert_eq!(start.step('{').step('['), Scanner {
        depth: 2,
        in_string: false,
        escape_pending: false
    });
    assert_eq!(start.step('{').step(']'), start);
    assert_eq!(start.step(']'), start);
    assert_eq!(start.step('}'), start);
    assert_eq!(start.step(','), start);
    let inside = start.step('"');
    assert_eq!(inside, Scanner { depth: 0, in_string: true, escape_pending: false });
    assert!(!inside.top_level());
    assert_eq!(inside.step('['), inside);
    assert_eq!(inside.step('}'), inside);
    assert_eq!(inside.step('"'), start);
    let escaped = inside.step('\\');
    assert_eq!(escaped, Scanner { depth: 0, in_string: true, escape_pending: true });
    assert_eq!(escaped.step('"'), inside);
    assert_eq!(escaped.step('\\'), inside);
    assert_eq!(start.step('\\'), start);
    assert!(!start.step('[').top_level());
}

#[test]
fn scan_reports_what_is_open() {
    assert_eq!(scan(&chars("[1, {\"a\": \"]\"}")), Scanner {
        depth: 1,
        in_string: false,
        escape_pending: false
    });
    assert_eq!(scan(&chars("{\"a")), Scanner { depth: 1, in_string: true, escape_pending: false });
    assert_eq!(scan(&chars("\"a\\")), Scanner { depth: 0, in_string: true, escape_pending: true });
    assert_eq!(scan(&chars("")), Scanner::new());
    assert_eq!(scan(&chars("[]]{}")), Scanner::new());
}

#[test]
fn find_split_skips_strings_and_brackets() {
    assert_eq!(find_split(&chars("a,b"), ','), Some(1));
    assert_eq!(find_split(&chars("[a,b],c"), ','), Some(5));
    assert_eq!(find_split(&chars("\"a,b\",c"), ','), Some(5));
    assert_eq!(find_split(&chars("\"a\\\",b\",c"), ','), Some(7));
    assert_eq!(find_split(&chars("{\"a\":1}"), ':'), None);
    assert_eq!(find_split(&chars("\"a:b\" : {\"c\":1}"), ':'), Some(6));
    assert_eq!(find_split(&chars(""), ','), None);
    assert_eq!(find_split(&chars("],x"), ','), Some(1));
    assert_eq!(find_split(&chars("\"a,b"), ','), None);
}

#[test]
fn split_top_level_gives_every_piece() {
    let text = chars("1, [2, 3], {\"a\": \"x,y\"}, \"p,q\",");
    let parts = split_top_level(&text, ',');
    let parts: Vec<String> = parts.iter().map(|p| p.iter().collect()).collect();
    assert_eq!(parts, vec!["1", " [2, 3]", " {\"a\": \"x,y\"}", " \"p,q\"", ""]);
    let empty = chars("");
    assert_eq!(split_top_level(&empty, ',').len(), 1);
    let lone = chars(",");
    assert_eq!(split_top_level(&lone, ',').len(), 2);
}

#[test]
fn string_literals() {
    assert_eq!(read_string(&chars("\"\"")), Some(String::new()));
    assert_eq!(read_string(&chars("\"abc\"")), Some("abc".to_string()));
    assert_eq!(read_string(&chars("\"a b\"")), Some("a b".to_string()));
    assert_eq!(read_string(&chars("\"")), None);
    assert_eq!(read_string(&chars("\"abc")), None);
    assert_eq!(read_string(&chars("abc\"")), None);
    assert_eq!(read_string(&chars("\"a\"b\"")), None);
    assert_eq!(read_string(&chars("\"a\\\"")), None);
    assert_eq!(read_string(&chars("\"a\\\\\"")), Some("a\\".to_string()));
    assert_eq!(literal_body(&chars("\"a\\nb\"")).map(|b| b.to_vec()), Some(chars("a\\nb")));
    assert_eq!(literal_body(&chars("\"a\" \"b\"")), None);
}

#[test]
fn escapes() {
    assert_eq!(
        decode_body(&chars("\\\"\\\\\\/\\b\\f\\n\\r\\t")),
        Some("\"\\/\u{8}\u{c}\n\r\t".to_string())
    );
    assert_eq!(decode_body(&chars("a\\u0041b")), Some("aAb".to_string()));
    assert_eq!(decode_body(&chars("\\u00e9\\u00E9")), Some("\u{e9}\u{e9}".to_string()));
    assert_eq!(decode_body(&chars("\\u20AC")), Some("\u{20ac}".to_string()));
    assert_eq!(decode_body(&chars("\\uffff")), Some("\u{ffff}".to_string()));
    assert_eq!(decode_body(&chars("\\u0000")), Some("\u{0}".to_string()));
    assert_eq!(decode_body(&chars("\\ud83d\\ude00")), Some("\u{1F600}".to_string()));
    assert_eq!(decode_body(&chars("\\uD800\\uDC00")), Some("\u{10000}".to_string()));
    assert_eq!(decode_body(&chars("\\uDBFF\\uDFFF")), Some("\u{10FFFF}".to_string()));
    assert_eq!(decode_body(&chars("x\\uD83D\\uDE00y")), Some("x\u{1F600}y".to_string()));
    assert_eq!(decode_body(&chars("\u{1F600}\u{e9}")), Some("\u{1F600}\u{e9}".to_string()));
}

#[test]
fn malformed_escapes() {
    for bad in ["\\", "\\q", "\\x41", "\\u", "\\u12", "\\u12G4", "\\ud83d", "\\ud83dx",
        "\\ud83d\\n", "\\ud83d\\u0041", "\\ude00", "\\ud83d\\ud83d", "a\\", "\\U0041", "\\'"] {
        assert_eq!(decode_body(&chars(bad)), None, "{}", bad);
    }
    assert_eq!(
        parse("\"\\q\"").unwrap_err(),
        ParseError::MalformedValue("\"\\q\"".to_string())
    );
    assert_eq!(
        parse("[\"\\ud83d\"]").unwrap_err(),
        ParseError::MalformedArray(
            0,
            Box::new(ParseError::MalformedValue("\"\\ud83d\"".to_string()))
        )
    );
}

#[test]
fn strings_are_decoded_in_documents() {
    let root = parse("{\"k\\n\": \"tab\\there \\u00e9 \\ud83d\\ude00\"}").unwrap();
    let object = root.as_object().unwrap();
    assert_eq!(object.get("k\n").unwrap().as_str(), Some("tab\there \u{e9} \u{1F600}"));
}

#[test]
fn dispatcher_trims_its_span() {
    assert!(json_get_value(&chars("null"), 0).unwrap().is_null());
    assert!(json_get_value(&chars(" null"), 0).unwrap().is_null());
    assert!(json_get_value(&chars("\tnull\r\n"), 0).unwrap().is_null());
    assert_eq!(json_get_value(&chars("  \"a b\" "), 0).unwrap().as_str(), Some("a b"));
    assert_eq!(
        json_get_value(&chars(" nul l "), 0).unwrap_err(),
        ParseError::MalformedValue("nul l".to_string())
    );
    assert_eq!(
        json_get_value(&chars("  "), 0).unwrap_err(),
        ParseError::MalformedValue(String::new())
    );
    assert_eq!(json_get_value(&chars(" [1,2 "), 1).unwrap_err(), ParseError::UnterminatedContainer);
}

#[test]
fn dispatcher_is_whitespace_insensitive() {
    let padded = json_get_value(&chars(" { \"a\" : 1 } "), 1);
    let dense = json_get_value(&chars("{\"a\":1}"), 1);
    assert_eq!(padded, dense);
    let value = padded.unwrap();
    let object = value.as_object().unwrap();
    assert_eq!(object.len(), 1);
    let number = object.get("a").unwrap().as_number().unwrap();
    assert_eq!(number.as_str().parse::<f64>().unwrap(), 1.0);
    for text in ["[1, [2]]", "\"x\"", "-3.5e2", "{\"k\": nope}", "[1,"] {
        let spaced = format!("\n {}\t\u{a0}", text);
        assert_eq!(json_get_value(&chars(&spaced), 4), json_get_value(&chars(text), 4));
        assert_eq!(json_get_value(&chars(&spaced), 4), parse(text));
    }
}

#[test]
fn dispatcher_forms() {
    assert_eq!(json_get_value(&chars("[]"), 0).unwrap_err(), ParseError::NestingTooDeep);
    assert!(json_get_value(&chars("[]"), 1).unwrap().as_array().unwrap().is_empty());
    assert_eq!(json_get_value(&chars("\"null\""), 0).unwrap().as_str(), Some("null"));
    assert_eq!(json_get_value(&chars("\"1\""), 0).unwrap().as_str(), Some("1"));
    assert_eq!(json_get_value(&chars("\"{}\""), 0).unwrap().as_str(), Some("{}"));
}

#[test]
fn decomposers_take_what_is_between_the_brackets() {
    let object = parse_object(&chars(" \"a\" : [1] , \"b\":{} "), 1).unwrap();
    let object = object.as_object().unwrap();
    assert_eq!(object.len(), 2);
    assert_eq!(object.get("a").unwrap().as_array().unwrap().len(), 1);
    assert!(object.get("b").unwrap().as_object().unwrap().is_empty());
    assert_eq!(
        parse_object(&chars("\"a\":[1]"), 0).unwrap_err(),
        ParseError::NestingTooDeep
    );
    let array = parse_array(&chars("1, \"two\", null"), 0).unwrap();
    let items = array.as_array().unwrap();
    assert_eq!(items.len(), 3);
    assert_eq!(items[1].as_str(), Some("two"));
    assert!(items[2].is_null());
    assert_eq!(
        parse_array(&chars("1, [2]"), 0).unwrap_err(),
        ParseError::MalformedArray(1, Box::new(ParseError::NestingTooDeep))
    );
    assert!(parse_array(&chars("  "), 0).unwrap().as_array().unwrap().is_empty());
    assert!(parse_object(&chars(""), 0).unwrap().as_object().unwrap().is_empty());
}

#[test]
fn members() {
    let (key, value) = parse_member(&chars(" \"a:b\" : \"c:d\" "), 0).unwrap();
    assert_eq!(key, "a:b");
    assert_eq!(value.as_str(), Some("c:d"));
    assert_eq!(
        parse_member(&chars(" \"a\" "), 0).unwrap_err(),
        ParseError::MalformedObject("\"a\"".to_string())
    );
    assert_eq!(
        parse_member(&chars("\"a\":1:2"), 0).unwrap_err(),
        ParseError::MalformedValue("1:2".to_string())
    );
}

#[test]
fn object_insert_and_get() {
    let mut object = JsonObject::new();
    assert!(object.is_empty());
    object.insert("a".to_string(), JsonValue::Bool(true));
    object.insert("b".to_string(), JsonValue::Null);
    assert_eq!(object.len(), 2);
    object.insert("a".to_string(), JsonValue::String("again".to_string()));
    assert_eq!(object.len(), 2);
    assert_eq!(object.get("a").unwrap().as_str(), Some("again"));
    assert!(object.get("b").unwrap().is_null());
    assert!(!object.is_empty());
    let entries = object.into_entries();
    assert_eq!(entries.len(), 2);
    let mut keys: Vec<&str> = entries.iter().map(|e| e.0.as_str()).collect();
    keys.sort();
    assert_eq!(keys, vec!["a", "b"]);
}

#[test]
fn accessors_narrow_to_one_variant() {
    let values = [
        parse("{}").unwrap(),
        parse("[]").unwrap(),
        parse("\"s\"").unwrap(),
        parse("1").unwrap(),
        parse("true").unwrap(),
        parse("null").unwrap(),
    ];
    for (i, v) in values.iter().enumerate() {
        assert_eq!(v.as_object().is_some(), i == 0);
        assert_eq!(v.as_array().is_some(), i == 1);
        assert_eq!(v.as_str().is_some(), i == 2);
        assert_eq!(v.as_number().is_some(), i == 3);
        assert_eq!(v.as_bool().is_some(), i == 4);
        assert_eq!(v.is_null(), i == 5);
    }
}
