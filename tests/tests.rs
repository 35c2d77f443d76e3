use spa_json::de::from_str;
use spa_json::error::{Error, ErrorCode};
use spa_json::pw::{
    find_eq_index, is_managed_eq, select_eqs, PwDumpObject, PwObjectInfo, PwObjectType, PwParams,
};
use spa_json::ser::{map_key, to_string, to_string_map, to_string_pretty};
use spa_json::value::{Number, Value};

fn s(t: &str) -> Value {
    Value::String(t.to_string())
}

fn num(i: i64) -> Value {
    Value::Number(Number::Int(i))
}

fn obj(pairs: Vec<(&str, Value)>) -> Value {
    Value::Object(pairs.into_iter().map(|(k, v)| (k.to_string(), v)).collect())
}

fn student() -> Value {
    obj(vec![
        ("name", s("Alice")),
        ("age", num(30)),
        ("is_student", Value::Bool(false)),
        ("courses", Value::Array(vec![s("Math"), s("Science"), s("Art")])),
        (
            "address",
            obj(vec![("street", s("123 Main St")), ("city", s("Wonderland"))]),
        ),
    ])
}

#[test]
fn test() {
    let pretty = "{\n  name = \"Alice\"\n  age = 30\n  is_student = false\n  courses = [\n    \"Math\"\n    \"Science\"\n    \"Art\"\n  ]\n  address = {\n    street = \"123 Main St\"\n    city = \"Wonderland\"\n  }\n}";
    assert_eq!(to_string_pretty(&student()).unwrap(), pretty);
    let compact = r#"{name="Alice",age=30,is_student=false,courses=["Math" "Science" "Art"],address={street="123 Main St",city="Wonderland"}}"#;
    assert_eq!(to_string(&student()).unwrap(), compact);
}

fn samples() -> Vec<Value> {
    vec![
        Value::Null,
        Value::Bool(true),
        num(0),
        num(-42),
        num(9007199254740991),
        Value::Number(Number::Float { negative: true, mantissa: 15, exponent: -1 }),
        Value::Number(Number::Float { negative: false, mantissa: 0, exponent: 0 }),
        Value::Number(Number::Float { negative: false, mantissa: u64::MAX, exponent: i32::MIN }),
        s(""),
        s("quote \" back \\ nl \n tab \t bell \u{7} del \u{7f} é"),
        Value::Array(vec![]),
        obj(vec![]),
        obj(vec![("", num(1)), ("a b", Value::Array(vec![Value::Null, obj(vec![])]))]),
        Value::Array(vec![Value::Array(vec![Value::Array(vec![num(1), s("x")])]), Value::Bool(false)]),
        student(),
    ]
}

#[test]
fn round_trip_pretty() {
    for v in samples() {
        let text = to_string_pretty(&v).unwrap();
        assert_eq!(from_str(&text).unwrap(), v, "{}", text);
    }
}

#[test]
fn round_trip_compact() {
    for v in samples() {
        let text = to_string(&v).unwrap();
        assert_eq!(from_str(&text).unwrap(), v, "{}", text);
    }
}

#[test]
fn re_render_is_stable() {
    for v in samples() {
        let text = to_string_pretty(&v).unwrap();
        let again = to_string_pretty(&from_str(&text).unwrap()).unwrap();
        assert_eq!(again, text);
    }
}

#[test]
fn array_separators_are_optional() {
    let want = Value::Array(vec![num(1), num(2), num(3)]);
    assert_eq!(from_str("[1 2 3]").unwrap(), want);
    assert_eq!(from_str("[1,2,3]").unwrap(), want);
    assert_eq!(from_str("[1, 2, 3]").unwrap(), want);
}

#[test]
fn object_separators_are_optional() {
    let want = obj(vec![("a", num(1)), ("b", s("x"))]);
    assert_eq!(from_str("{a=1,b=\"x\"}").unwrap(), want);
    assert_eq!(from_str("{ \"a\": 1 b = x }").unwrap(), want);
    assert_eq!(from_str("{\n  a = 1\n  b = \"x\"\n}").unwrap(), want);
}

#[test]
fn repeated_key_keeps_last_value_in_first_place() {
    assert_eq!(from_str("{a=1 b=2 a=3}").unwrap(), obj(vec![("a", num(3)), ("b", num(2))]));
}

#[test]
fn number_forms() {
    assert_eq!(from_str("30").unwrap(), num(30));
    assert_eq!(from_str("-7").unwrap(), num(-7));
    assert_eq!(
        from_str("1.5").unwrap(),
        Value::Number(Number::Float { negative: false, mantissa: 15, exponent: -1 })
    );
    assert_eq!(
        from_str("-2.50e+3").unwrap(),
        Value::Number(Number::Float { negative: true, mantissa: 250, exponent: 1 })
    );
    assert_eq!(
        from_str("9007199254740992").unwrap(),
        Value::Number(Number::Float { negative: false, mantissa: 9007199254740992, exponent: 0 })
    );
    assert_eq!(
        to_string(&Value::Number(Number::Float { negative: false, mantissa: 15, exponent: -1 }))
            .unwrap(),
        "15e-1"
    );
    assert_eq!(to_string(&num(-42)).unwrap(), "-42");
}

#[test]
fn literals_and_bare_strings() {
    assert_eq!(from_str(" true ").unwrap(), Value::Bool(true));
    assert_eq!(from_str("false").unwrap(), Value::Bool(false));
    assert_eq!(from_str("null").unwrap(), Value::Null);
    assert_eq!(from_str("hello").unwrap(), s("hello"));
    assert_eq!(from_str("\"a\\u0041\\n\"").unwrap(), s("aA\n"));
}

fn err(text: &str) -> Error {
    from_str(text).unwrap_err()
}

#[test]
fn syntax_errors_carry_positions() {
    let e = err("[1 2");
    assert_eq!((e.code, e.line, e.column), (ErrorCode::EofWhileParsing, 1, 5));
    let e = err("{\n  a = ]\n}");
    assert_eq!((e.code, e.line, e.column), (ErrorCode::UnexpectedToken, 2, 7));
    let e = err("\"abc");
    assert_eq!((e.code, e.line, e.column), (ErrorCode::UnterminatedString, 1, 5));
    let e = err("\"a\\q\"");
    assert_eq!((e.code, e.line, e.column), (ErrorCode::InvalidEscape, 1, 3));
    let e = err("1.e5");
    assert_eq!((e.code, e.line, e.column), (ErrorCode::InvalidNumber, 1, 3));
    let e = err("99999999999999999999");
    assert_eq!((e.code, e.line, e.column), (ErrorCode::NumberOutOfRange, 1, 1));
    let e = err("1 2");
    assert_eq!((e.code, e.line, e.column), (ErrorCode::TrailingCharacters, 1, 3));
    let e = err("");
    assert_eq!((e.code, e.line, e.column), (ErrorCode::EofWhileParsing, 1, 1));
}

#[test]
fn error_messages() {
    assert_eq!(err("[1 2").message(), "EOF while parsing a value at line 1 column 5");
    assert_eq!(Error::io("disk full".to_string()).message(), "disk full");
    assert_eq!(Error::custom("bad".to_string()).message(), "bad");
    assert_eq!(Error::syntax(ErrorCode::KeyMustBeAString, 0, 0).message(), "key must be a string");
    assert_eq!(
        Error::syntax(ErrorCode::FloatMustBeFinite, 3, 4).message(),
        "float must be finite at line 3 column 4"
    );
}

fn node(id: u32, ty: PwObjectType, props: Vec<(&str, Value)>) -> PwDumpObject {
    PwDumpObject {
        id,
        object_type: ty,
        version: None,
        permissions: None,
        info: PwObjectInfo {
            props: props.into_iter().map(|(k, v)| (k.to_string(), v)).collect(),
            params: PwParams { enum_format: vec![], prop_info: vec![], props: vec![] },
            fields: vec![],
        },
        props: None,
    }
}

fn dump() -> Vec<PwDumpObject> {
    vec![
        node(1, PwObjectType::Node, vec![("pw-eq.managed", Value::Bool(true)), ("media.name", s("bass"))]),
        node(2, PwObjectType::Node, vec![("pw-eq.managed", s("true")), ("media.name", s("fake"))]),
        node(3, PwObjectType::Port, vec![("pw-eq.managed", Value::Bool(true))]),
        node(4, PwObjectType::Node, vec![("pw-eq.managed", Value::Bool(true))]),
        node(5, PwObjectType::Node, vec![("media.name", s("other"))]),
    ]
}

#[test]
fn managed_marks() {
    let d = dump();
    assert!(is_managed_eq(&d[0]));
    assert!(!is_managed_eq(&d[1]));
    assert!(is_managed_eq(&d[2]));
    assert!(!is_managed_eq(&d[4]));
}

#[test]
fn lists_managed_nodes() {
    let eqs = select_eqs(&dump());
    let got: Vec<(u32, String)> = eqs.into_iter().map(|e| (e.id, e.name)).collect();
    assert_eq!(got, vec![(1, "bass".to_string()), (4, "Unknown".to_string())]);
}

#[test]
fn finds_by_id_or_name() {
    let d = dump();
    assert_eq!(find_eq_index(&d, "4"), Some(3));
    assert_eq!(find_eq_index(&d, "+1"), Some(0));
    assert_eq!(find_eq_index(&d, "bass"), Some(0));
    assert_eq!(find_eq_index(&d, "3"), None);
    assert_eq!(find_eq_index(&d, "other"), None);
    assert_eq!(find_eq_index(&d, "99999999999"), None);
}

#[test]
fn map_keys_must_stringify() {
    let ok = vec![(s("a b"), num(1)), (num(-2), Value::Bool(true)), (Value::Bool(false), s("x"))];
    assert_eq!(to_string_map(&ok).unwrap(), r#"{"a b"=1,-2=true,false="x"}"#);
    let bad = vec![(s("a"), num(1)), (Value::Array(vec![]), num(2))];
    assert_eq!(to_string_map(&bad).unwrap_err().code, ErrorCode::KeyMustBeAString);
    assert_eq!(map_key(&Value::Null).unwrap_err().code, ErrorCode::KeyMustBeAString);
    assert_eq!(map_key(&num(12)).unwrap(), "12");
    assert_eq!(to_string_map(&vec![]).unwrap(), "{}");
}

#[test]
fn integer_range() {
    assert_eq!(Number::from_i64(-9007199254740991).unwrap(), Number::Int(-9007199254740991));
    assert_eq!(Number::from_i64(9007199254740992).unwrap_err().code, ErrorCode::NumberOutOfRange);
    assert_eq!(Number::from_u64(7).unwrap(), Number::Int(7));
    assert_eq!(Number::from_u64(u64::MAX).unwrap_err().code, ErrorCode::NumberOutOfRange);
}

#[test]
fn bytes_are_utf8_text() {
    let v = obj(vec![("k", s("é"))]);
    assert_eq!(spa_json::ser::to_vec(&v).unwrap(), "{k=\"é\"}".as_bytes().to_vec());
    assert_eq!(
        spa_json::ser::to_vec_pretty(&v).unwrap(),
        "{\n  k = \"é\"\n}".as_bytes().to_vec()
    );
}
