use skvs::config::DatabaseConfig;
use skvs::double::Real;
use skvs::error::SkvsError;
use skvs::expr::{call_function, sql_like_match, truthy};
use skvs::index::value_to_key_string;
use skvs::json::{json_array, json_extract, json_object, json_set};
use skvs::schema::Value;
use skvs::sql::SqlEngine;
use skvs::state::KvsState;

fn number(f: f64) -> Value {
    Value::Real(Real { bits: f.to_bits() })
}

fn text(s: &str) -> Value {
    Value::Text(s.into())
}

fn value(sql: &str) -> Value {
    let mut state = KvsState::new(&[DatabaseConfig { id: 0, name: "default".into() }]);
    SqlEngine::execute(&mut state, 0, "CREATE TABLE one (x INTEGER)", &[], None).unwrap();
    SqlEngine::execute(&mut state, 0, "INSERT INTO one (x) VALUES (1)", &[], None).unwrap();
    let q = format!("SELECT {} AS v FROM one", sql);
    let r = SqlEngine::execute(&mut state, 0, &q, &[], None).unwrap();
    r.rows[0].get("v").cloned().unwrap()
}

#[test]
fn arithmetic_keeps_integers_where_it_can() {
    assert_eq!(value("2 * 3 - 10"), Value::Integer(-4));
    assert_eq!(value("7 / 2"), number(3.5));
    assert_eq!(value("4 / 2"), number(2.0));
    assert_eq!(value("7 % 4"), Value::Integer(3));
    assert_eq!(value("-7 % 4"), Value::Integer(-3));
    assert_eq!(value("7.5 % 2"), number(1.5));
    assert_eq!(value("1 / 0"), Value::Null);
    assert_eq!(value("1 % 0"), Value::Null);
    assert_eq!(value("0.1 + 0.2"), number(0.1 + 0.2));
    assert_eq!(value("1.5 * 3"), number(4.5));
    assert_eq!(value("1 + 'a'"), Value::Null);
    assert_eq!(value("9007199254740993 + 0"), Value::Integer(9007199254740992));
}

#[test]
fn texts_are_joined_as_they_are_shown() {
    assert_eq!(value("'a' || 1 || 2.5 || NULL || 'z'"), text("a12.5z"));
    assert_eq!(value("1e21 || ''"), text("1000000000000000000000"));
    assert_eq!(value("0.000001 || ''"), text("0.000001"));
}

#[test]
fn text_functions() {
    assert_eq!(value("upper('Straße')"), text("STRASSE"));
    assert_eq!(value("lower('ÄB')"), text("äb"));
    assert_eq!(value("length('äöü')"), Value::Integer(3));
    assert_eq!(call_function("trim", &vec![text("  a b ")]), text("a b"));
    assert_eq!(value("ltrim('  a ')"), text("a "));
    assert_eq!(value("rtrim(' a  ')"), text(" a"));
    assert_eq!(value("substr('hello', 2, 3)"), text("ell"));
    assert_eq!(value("substr('hello', -3)"), text("llo"));
    assert_eq!(value("substr('hello', 9)"), text(""));
    assert_eq!(value("replace('banana', 'an', 'x')"), text("bxxa"));
    assert_eq!(value("hex('AZ')"), text("415a"));
    assert_eq!(call_function("hex", &vec![Value::Blob(vec![0, 255])]), text("00ff"));
    assert_eq!(call_function("length", &vec![Value::Blob(vec![1, 2])]), Value::Integer(2));
    assert_eq!(call_function("no_such_function", &vec![]), Value::Null);
}

#[test]
fn number_functions() {
    assert_eq!(value("abs(-5)"), Value::Integer(5));
    assert_eq!(value("abs(-5.5)"), number(5.5));
    assert_eq!(value("round(2.5)"), number(3.0));
    assert_eq!(value("round(-2.5)"), number(-3.0));
    assert_eq!(value("round(3.14159, 2)"), number(3.14));
    assert_eq!(value("round(7)"), number(7.0));
    assert_eq!(value("round('x')"), Value::Null);
}

#[test]
fn null_functions_and_kinds() {
    assert_eq!(value("coalesce(NULL, NULL, 3, 4)"), Value::Integer(3));
    assert_eq!(value("coalesce(NULL)"), Value::Null);
    assert_eq!(value("ifnull(NULL, 'x')"), text("x"));
    assert_eq!(value("ifnull(1, 'x')"), Value::Integer(1));
    assert_eq!(value("nullif(1, 1)"), Value::Null);
    assert_eq!(value("nullif(1, 2)"), Value::Integer(1));
    assert_eq!(value("typeof(NULL)"), text("null"));
    assert_eq!(value("typeof(1)"), text("integer"));
    assert_eq!(value("typeof(1.5)"), text("real"));
    assert_eq!(value("typeof('a')"), text("text"));
    assert_eq!(call_function("typeof", &vec![Value::Blob(vec![])]), text("blob"));
}

#[test]
fn case_with_and_without_an_operand() {
    assert_eq!(value("CASE x WHEN 2 THEN 'two' WHEN 1 THEN 'one' END"), text("one"));
    assert_eq!(value("CASE WHEN x > 5 THEN 'big' END"), Value::Null);
}

#[test]
fn what_counts_as_true() {
    assert!(!truthy(&Value::Null));
    assert!(!truthy(&Value::Integer(0)));
    assert!(truthy(&Value::Integer(-1)));
    assert!(!truthy(&number(0.0)));
    assert!(truthy(&number(0.5)));
}

#[test]
fn like_patterns() {
    assert!(sql_like_match("", "", false));
    assert!(sql_like_match("", "%", false));
    assert!(!sql_like_match("", "_", false));
    assert!(sql_like_match("abc", "%b%", false));
    assert!(sql_like_match("ABC", "abc", true));
    assert!(!sql_like_match("ABC", "abc", false));
    assert!(sql_like_match("a%c", "a_c", false));
    assert!(!sql_like_match("abcd", "a_c", false));
}

#[test]
fn json_is_read_by_path() {
    let doc = "{\"a\": {\"b\": [1, 2.5, \"x\", true, null]}, \"n\": 1e2}";
    assert_eq!(json_extract(doc, "$.a.b.[0]").unwrap(), Value::Integer(1));
    assert_eq!(json_extract(doc, "a.b.[1]").unwrap(), number(2.5));
    assert_eq!(json_extract(doc, "$.a.b.[2]").unwrap(), text("x"));
    assert_eq!(json_extract(doc, "$.a.b.[3]").unwrap(), Value::Integer(1));
    assert_eq!(json_extract(doc, "$.a.b.[4]").unwrap(), Value::Null);
    assert_eq!(json_extract(doc, "$.a.b.[9]").unwrap(), Value::Null);
    assert_eq!(json_extract(doc, "$.zzz").unwrap(), Value::Null);
    assert_eq!(json_extract(doc, "$.n").unwrap(), number(100.0));
    assert_eq!(json_extract(doc, "$.a").unwrap(), Value::Blob(b"{\"b\":[1,2.5,\"x\",true,null]}".to_vec()));
    assert_eq!(json_extract("7", "$").unwrap(), Value::Integer(7));
    assert!(matches!(json_extract("{", "$"), Err(SkvsError::Json(_))));
    match json_extract(doc, "$.a.b.[x]") {
        Err(e) => assert_eq!(e.message(), "JSON error: Invalid array index"),
        Ok(_) => panic!("no index"),
    }
}

#[test]
fn json_is_made_from_values() {
    assert_eq!(
        json_array(&vec![Value::Integer(1), number(2.0), text("a\"b"), Value::Null]).unwrap(),
        "[1,2.0,\"a\\\"b\",null]"
    );
    assert_eq!(json_array(&vec![Value::Blob(vec![255])]).unwrap(), "[\"/w==\"]");
    assert_eq!(json_array(&vec![Value::Blob(b"[1, 2]".to_vec())]).unwrap(), "[[1,2]]");
    assert_eq!(
        json_object(&vec!["b".into(), "a".into()], &vec![Value::Integer(1), text("x")]).unwrap(),
        "{\"a\":\"x\",\"b\":1}"
    );
    match json_object(&vec!["b".into()], &vec![]) {
        Err(e) => assert_eq!(e.message(), "JSON error: Keys and values length mismatch"),
        Ok(_) => panic!("lengths differ"),
    }
}

#[test]
fn json_is_set_by_path() {
    assert_eq!(json_set("{\"a\": 1}", "b", &Value::Integer(2)).unwrap(), "{\"a\":1,\"b\":2}");
    assert_eq!(json_set("{\"a\": {\"b\": 1}}", "a.c.d", &text("x")).unwrap(), "{\"a\":{\"b\":1,\"c\":{\"d\":\"x\"}}}");
    assert_eq!(json_set("[1, 2]", "[1]", &Value::Null).unwrap(), "[1,null]");
    let errors = [
        ("[1]", "[5]", "JSON error: Array index out of bounds"),
        ("{}", "[0]", "JSON error: Target is not an array"),
        ("[1]", "a", "JSON error: Target is not an object"),
        ("{}", "[0].a", "JSON error: Path not an array"),
        ("[1]", "a.b", "JSON error: Path not an object"),
        ("[1]", "[x]", "JSON error: Invalid array index"),
    ];
    for (doc, path, message) in errors {
        match json_set(doc, path, &Value::Null) {
            Err(e) => assert_eq!(e.message(), message),
            Ok(_) => panic!("{} {}", doc, path),
        }
    }
    assert!(matches!(json_set("nope", "a", &Value::Null), Err(SkvsError::Json(_))));
}

#[test]
fn json_functions_in_sql() {
    assert_eq!(value("json_extract('{\"a\": [10]}', '$.a.[0]')"), Value::Integer(10));
    assert_eq!(value("json_array(1, 'a')"), text("[1,\"a\"]"));
    assert_eq!(value("json_object('k', 1)"), text("{\"k\":1}"));
    assert_eq!(value("json_set('{}', 'k', 1)"), text("{\"k\":1}"));
    assert_eq!(value("json_extract('oops', '$')"), Value::Null);
}

#[test]
fn parameters_come_from_json() {
    assert_eq!(Value::from_json("null"), Some(Value::Null));
    assert_eq!(Value::from_json("true"), Some(Value::Integer(1)));
    assert_eq!(Value::from_json("-12"), Some(Value::Integer(-12)));
    assert_eq!(Value::from_json("0.1"), Some(number(0.1)));
    assert_eq!(Value::from_json("\"a\\u0041\""), Some(text("aA")));
    assert_eq!(Value::from_json("[1, 2]"), Some(Value::Blob(b"[1,2]".to_vec())));
    assert_eq!(Value::from_json("{\"__blob__\": \"AP8=\"}"), Some(Value::Blob(vec![0, 255])));
    assert_eq!(Value::from_json("{\"__blob__\": 1}"), Some(Value::Blob(b"{\"__blob__\":1}".to_vec())));
    assert_eq!(Value::from_json("nope"), None);
}

#[test]
fn results_become_json() {
    assert_eq!(Value::Null.to_json(), "null");
    assert_eq!(Value::Integer(-3).to_json(), "-3");
    assert_eq!(number(1.5).to_json(), "1.5");
    assert_eq!(number(3.0).to_json(), "3.0");
    assert_eq!(number(f64::NAN).to_json(), "null");
    assert_eq!(number(f64::INFINITY).to_json(), "null");
    assert_eq!(text("a\n").to_json(), "\"a\\n\"");
    assert_eq!(Value::Blob(vec![1, 2, 3]).to_json(), "\"AQID\"");
    assert_eq!(Value::Blob(b"[1]".to_vec()).to_json(), "\"WzFd\"");
}

#[test]
fn a_blob_comes_back_from_json() {
    let bytes: Vec<u8> = (0..=255).collect();
    let tagged = format!("{{\"__blob__\": {}}}", Value::Blob(bytes.clone()).to_json());
    assert_eq!(Value::from_json(&tagged), Some(Value::Blob(bytes)));
}

#[test]
fn keys_tell_kinds_apart() {
    assert_eq!(value_to_key_string(&Value::Null), "n:");
    assert_eq!(value_to_key_string(&Value::Integer(1)), "i:1");
    assert_eq!(value_to_key_string(&number(1.0)), "f:1");
    assert_eq!(value_to_key_string(&text("1")), "t:1");
    assert_eq!(value_to_key_string(&Value::Blob(vec![1])), "b:01");
}

#[test]
fn a_path_may_start_at_the_root() {
    assert_eq!(json_set("{\"a\": 1}", "$.a", &Value::Integer(2)).unwrap(), "{\"a\":2}");
    assert_eq!(json_set("{}", "$.a.b", &Value::Integer(2)).unwrap(), "{\"a\":{\"b\":2}}");
    match json_set("{}", "$", &Value::Null) {
        Err(e) => assert_eq!(e.message(), "JSON error: Empty path"),
        Ok(_) => panic!("nothing to set"),
    }
}

#[test]
fn what_is_set_is_read_back() {
    for path in ["$.a", "$.b.c", "b", "$.list.[1]"] {
        for v in [Value::Integer(-7), number(0.1), text("x \"y\""), Value::Null] {
            let doc = json_set("{\"a\": 1, \"list\": [1, 2, 3]}", path, &v).unwrap();
            assert_eq!(json_extract(&doc, path).unwrap(), v);
        }
    }
}

#[test]
fn doubles_keep_every_digit_in_json() {
    let values = vec![number(0.1 + 0.2), number(1e300), number(5e-324), number(123456789.12345679)];
    assert_eq!(json_array(&values).unwrap(), "[0.30000000000000004,1e+300,5e-324,123456789.12345679]");
    for v in &values {
        assert_eq!(Value::from_json(&v.to_json()), Some(v.clone()));
    }
}

#[test]
fn the_last_of_two_equal_keys_counts() {
    assert_eq!(
        json_object(
            &vec!["c".into(), "a".into(), "c".into(), "b".into()],
            &vec![Value::Integer(1), Value::Integer(2), Value::Integer(3), Value::Integer(4)],
        ).unwrap(),
        "{\"a\":2,\"b\":4,\"c\":3}"
    );
}

#[test]
fn a_path_without_a_root_is_taken_as_it_is() {
    assert_eq!(json_set("{\"a\": 1}", "", &Value::Integer(2)).unwrap(), "{\"\":2,\"a\":1}");
    assert_eq!(json_set("{}", ".a", &Value::Integer(2)).unwrap(), "{\"\":{\"a\":2}}");
    match json_set("[1]", "", &Value::Null) {
        Err(e) => assert_eq!(e.message(), "JSON error: Target is not an object"),
        Ok(_) => panic!("there are no fields"),
    }
}

#[test]
fn what_is_set_too_deep_cannot_be_read() {
    let path = vec!["a"; 200].join(".");
    let doc = json_set("{}", &path, &Value::Integer(1)).unwrap();
    assert!(matches!(json_extract(&doc, &path), Err(SkvsError::Json(_))));
    let path = vec!["a"; 100].join(".");
    let doc = json_set("{}", &path, &Value::Integer(1)).unwrap();
    assert_eq!(json_extract(&doc, &path).unwrap(), Value::Integer(1));
}

#[test]
fn control_characters_are_escaped() {
    assert_eq!(
        text("\u{1}\u{8}\u{c}\n\r\t\"\\/\u{1f}\u{7f}é").to_json(),
        "\"\\u0001\\b\\f\\n\\r\\t\\\"\\\\/\\u001f\u{7f}é\""
    );
    assert_eq!(
        json_object(&vec!["a\"b".into()], &vec![Value::Integer(i64::MIN)]).unwrap(),
        "{\"a\\\"b\":-9223372036854775808}"
    );
}
