use edn::error::Error;
use edn::float::FloatValue;
use edn::parser::parse_edn;
use edn::parser::unescape_character;
use edn::parser::unescape_string;
use edn::printer::escape_character;
use edn::printer::to_text;
use edn::printer::to_text_pretty;
use edn::ser::key_from_str;
use edn::ser::SerializeMap;
use edn::ser::SerializeVec;
use edn::ser::Serializer;
use edn::symbol::SymbolStore;
use edn::value::try_key;
use edn::value::Instant;
use edn::value::UuidValue;
use edn::value::Value;
use edn::value::ValueMap;

#[test]
fn test_symbol() {
    let mut store = SymbolStore::new();
    let s1 = store.intern("foo");
    let s2 = store.intern("foo");
    assert_eq!(s1, s2);

    let b = "bar".to_string();
    let s3 = store.intern(&b);
    let s4 = store.intern(&String::from("bar"));
    assert_eq!(s3, s4);

    let joined = "ba".to_string() + "z";
    let s5 = store.intern(&joined);
    let s6 = store.intern("baz");
    assert_eq!(s5, s6);

    let s7 = store.intern("qux");
    let name = s7.as_str(&store).to_string();
    let s8 = store.intern(&name);
    assert_eq!(s7, s8);
}

#[test]
fn test_parse() {
    let mut store = SymbolStore::new();
    let input = "{:title \"block\"\n :id #uuid \"550e8400-e29b-41d4-a716-446655440000\"\n \
                 :at #inst \"2020-01-01T00:00:00Z\"\n :tags #{:a :b}\n \
                 :rows [(1 2) (3 4)]\n :note #custom [nil true 2.5]}";
    assert!(parse_edn(input, &mut store).is_ok());
}

#[test]
fn scenario_nil() {
    let mut store = SymbolStore::new();
    assert_eq!(parse_edn("nil", &mut store).unwrap(), Value::Nil);
    assert_eq!(to_text(&Value::Nil, &store), "nil");
}

#[test]
fn scenario_vector() {
    let mut store = SymbolStore::new();
    let v = parse_edn("[1 nil true \"a\" 9.9]", &mut store).unwrap();
    let expected = Value::Vector(vec![
        Value::Integer(1),
        Value::Nil,
        Value::Boolean(true),
        Value::String("a".to_string()),
        Value::Float(FloatValue { negative: false, mantissa: 99, exponent: -1 }),
    ]);
    assert_eq!(v, expected);
}

#[test]
fn scenario_uuid() {
    let mut store = SymbolStore::new();
    let v = parse_edn("#uuid \"550e8400-e29b-41d4-a716-446655440000\"", &mut store).unwrap();
    assert_eq!(v, Value::Uuid(UuidValue { bits: 0x550e8400_e29b_41d4_a716_446655440000u128 }));
    assert_eq!(
        to_text(&v, &store),
        "#uuid \"550e8400-e29b-41d4-a716-446655440000\""
    );
}

#[test]
fn scenario_map() {
    let mut store = SymbolStore::new();
    let v = parse_edn("{:x 1 :y 2}", &mut store).unwrap();
    match &v {
        Value::MapOf(m) => {
            assert_eq!(m.len(), 2);
            let x = store.intern("x");
            let y = store.intern("y");
            assert_eq!(m.get(&edn::value::Key::Keyword(x)), Some(&Value::Integer(1)));
            assert_eq!(m.get(&edn::value::Key::Keyword(y)), Some(&Value::Integer(2)));
        }
        other => panic!("expected a map, got {:?}", other),
    }
    assert_eq!(to_text(&v, &store), "{:x 1, :y 2}");
}

#[test]
fn scenario_discard() {
    let mut store = SymbolStore::new();
    assert_eq!(parse_edn("#_1 2", &mut store).unwrap(), Value::Integer(2));
}

#[test]
fn scenario_bridge_map() {
    let mut store = SymbolStore::new();
    let mut m = SerializeMap::new();
    for (k, v) in [(":x", 1i64), (":y", 2), (":z", 3)] {
        let key = key_from_str(k, &mut store);
        m.serialize_key(key);
        m.serialize_value(Serializer::serialize_i64(v));
    }
    let v = m.end();
    assert_eq!(to_text(&v, &store), "{:x 1, :y 2, :z 3}");
}

#[test]
fn bridge_scalars() {
    assert_eq!(Serializer::serialize_bool(true), Value::Boolean(true));
    assert_eq!(Serializer::serialize_i64(-7), Value::Integer(-7));
    assert_eq!(Serializer::serialize_u64(7).unwrap(), Value::Integer(7));
    assert_eq!(
        Serializer::serialize_u64(u64::MAX),
        Err(Error::UnsupportedType)
    );
    assert_eq!(Serializer::serialize_char('q'), Value::Character('q'));
    assert_eq!(
        Serializer::serialize_str("hey"),
        Value::String("hey".to_string())
    );
    assert_eq!(Serializer::serialize_unit(), Value::Nil);
}

#[test]
fn bridge_tuple_becomes_list() {
    let mut sv = SerializeVec::new(true);
    sv.serialize_element(Value::Integer(1));
    sv.serialize_element(Value::Integer(2));
    let store = SymbolStore::new();
    assert_eq!(to_text(&sv.end(), &store), "(1 2)");

    let mut sv2 = SerializeVec::new(false);
    sv2.serialize_element(Value::Integer(1));
    sv2.serialize_element(Value::Integer(2));
    assert_eq!(to_text(&sv2.end(), &store), "[1 2]");
}

#[test]
fn float_normalization() {
    let mut store = SymbolStore::new();
    let a = parse_edn("9.90", &mut store).unwrap();
    let b = parse_edn("9.9", &mut store).unwrap();
    assert_eq!(a, b);
    let c = parse_edn("0.00099", &mut store).unwrap();
    assert_eq!(
        c,
        Value::Float(FloatValue { negative: false, mantissa: 99, exponent: -5 })
    );
    let z = parse_edn("-0.0", &mut store).unwrap();
    assert_eq!(
        z,
        Value::Float(FloatValue { negative: false, mantissa: 0, exponent: 0 })
    );
    let e = parse_edn("12e3", &mut store).unwrap();
    assert_eq!(
        e,
        Value::Float(FloatValue { negative: false, mantissa: 12, exponent: 3 })
    );
}

#[test]
fn float_printing_round_trip() {
    let mut store = SymbolStore::new();
    for text in ["9.9", "0.5", "100.0", "0.00099", "-3.25", "1.5E21", "7E-12"] {
        let v = parse_edn(text, &mut store).unwrap();
        let printed = to_text(&v, &store);
        let back = parse_edn(&printed, &mut store).unwrap();
        assert_eq!(v, back, "round trip through {}", printed);
    }
    let v = parse_edn("9.9", &mut store).unwrap();
    assert_eq!(to_text(&v, &store), "9.9");
}

#[test]
fn value_round_trips() {
    let mut store = SymbolStore::new();
    for text in [
        "nil",
        "true",
        "false",
        "42",
        "-17",
        "\"a\\nb\\\"c\\\\d\"",
        "\\newline",
        "\\a",
        "\\u00e9",
        "sym",
        ":kw",
        "[1 2 3]",
        "(a b c)",
        "#{1 2 3}",
        "{:x 1, :y [2 3]}",
        "#inst \"2020-01-01T00:00:00.000Z\"",
        "#uuid \"550e8400-e29b-41d4-a716-446655440000\"",
        "#custom {:a 1}",
    ] {
        let v = parse_edn(text, &mut store).unwrap();
        let printed = to_text(&v, &store);
        let back = parse_edn(&printed, &mut store).unwrap();
        assert_eq!(v, back, "round trip of {} through {}", text, printed);
    }
}

#[test]
fn sets_are_canonical() {
    let mut store = SymbolStore::new();
    let a = parse_edn("#{3 1 2}", &mut store).unwrap();
    let b = parse_edn("#{2 3 1}", &mut store).unwrap();
    assert_eq!(a, b);
    assert_eq!(to_text(&a, &store), "#{1 2 3}");
    let dup = parse_edn("#{1 1 2}", &mut store).unwrap();
    assert_eq!(to_text(&dup, &store), "#{1 2}");
}

#[test]
fn map_later_key_wins() {
    let mut store = SymbolStore::new();
    let v = parse_edn("{:a 1 :a 2}", &mut store).unwrap();
    assert_eq!(to_text(&v, &store), "{:a 2}");
}

#[test]
fn instant_normalizes_to_utc() {
    let mut store = SymbolStore::new();
    let v = parse_edn("#inst \"2020-01-01T05:00:00+05:00\"", &mut store).unwrap();
    assert_eq!(v, Value::Instant(Instant { millis: 1577836800000 }));
    assert_eq!(to_text(&v, &store), "#inst \"2020-01-01T00:00:00.000Z\"");
}

#[test]
fn try_key_accepts_exactly_the_seven_kinds() {
    let mut store = SymbolStore::new();
    let s = store.intern("s");
    assert!(try_key(Value::Keyword(s)).is_ok());
    assert!(try_key(Value::String("x".to_string())).is_ok());
    assert!(try_key(Value::Symbol(s)).is_ok());
    assert!(try_key(Value::Integer(1)).is_ok());
    assert!(try_key(Value::Boolean(true)).is_ok());
    assert!(try_key(Value::Character('c')).is_ok());
    assert!(try_key(Value::Uuid(UuidValue { bits: 5 })).is_ok());

    assert_eq!(try_key(Value::Vector(vec![])), Err(Error::InvalidKey));
    assert_eq!(try_key(Value::List(vec![])), Err(Error::InvalidKey));
    assert_eq!(try_key(Value::SetOf(vec![])), Err(Error::InvalidKey));
    assert_eq!(try_key(Value::MapOf(ValueMap::new())), Err(Error::InvalidKey));
    assert_eq!(
        try_key(Value::Float(FloatValue { negative: false, mantissa: 1, exponent: 0 })),
        Err(Error::InvalidKey)
    );
    assert_eq!(
        try_key(Value::Instant(Instant { millis: 0 })),
        Err(Error::InvalidKey)
    );
    assert_eq!(try_key(Value::Nil), Err(Error::InvalidKey));
    assert_eq!(
        try_key(Value::Tagged(s, Box::new(Value::Nil))),
        Err(Error::InvalidKey)
    );
}

#[test]
fn parse_errors() {
    let mut store = SymbolStore::new();
    assert!(parse_edn("", &mut store).is_err());
    assert!(parse_edn("[1 2", &mut store).is_err());
    assert!(parse_edn("{:a}", &mut store).is_err());
    assert!(parse_edn("{[1] 2}", &mut store).is_err());
    assert!(parse_edn("\"abc", &mut store).is_err());
    assert!(parse_edn("99999999999999999999", &mut store).is_err());
    assert_eq!(
        parse_edn("#uuid \"not-a-uuid\"", &mut store),
        Err(Error::InvalidUuid)
    );
    assert_eq!(
        parse_edn("#inst \"not-a-time\"", &mut store),
        Err(Error::InvalidInstant)
    );
}

#[test]
fn comments_and_commas_are_whitespace() {
    let mut store = SymbolStore::new();
    let v = parse_edn("; heading\n[1, 2, ; mid\n 3]", &mut store).unwrap();
    assert_eq!(to_text(&v, &store), "[1 2 3]");
}

#[test]
fn unescape_string_handles_all_escapes() {
    assert_eq!(
        unescape_string("\"a\\tb\\nc\\\\d\\\"e\\u0041\"").unwrap(),
        "a\tb\nc\\d\"eA"
    );
    assert!(unescape_string("\"abc").is_err());
    assert!(unescape_string("\"bad\\u12\"").is_err());
    assert!(unescape_string("x").is_err());
}

#[test]
fn unescape_character_forms() {
    assert_eq!(unescape_character("newline").unwrap(), '\n');
    assert_eq!(unescape_character("return").unwrap(), '\r');
    assert_eq!(unescape_character("space").unwrap(), ' ');
    assert_eq!(unescape_character("tab").unwrap(), '\t');
    assert_eq!(unescape_character("q").unwrap(), 'q');
    assert_eq!(unescape_character("u00e9").unwrap(), '\u{e9}');
    assert!(unescape_character("bogus").is_err());
}

#[test]
fn escape_character_forms() {
    assert_eq!(escape_character('\n'), "newline");
    assert_eq!(escape_character('\r'), "return");
    assert_eq!(escape_character(' '), "space");
    assert_eq!(escape_character('\t'), "tab");
    assert_eq!(escape_character('q'), "q");
}

#[test]
fn gensym_is_fresh() {
    let mut store = SymbolStore::new();
    let a = store.intern("G#0");
    let g1 = store.gensym().unwrap();
    let g2 = store.gensym().unwrap();
    assert_ne!(g1, g2);
    assert_ne!(g1, a);
    assert_ne!(g2, a);
    assert!(g1.as_str(&store).starts_with("G#"));
    let again = store.intern(&g1.as_str(&store).to_string());
    assert_eq!(again, g1);
}

#[test]
fn symbol_addr_is_stable() {
    let mut store = SymbolStore::new();
    let a = store.intern("alpha");
    let b = store.intern("beta");
    let a2 = store.intern("alpha");
    assert_eq!(a.addr(), a2.addr());
    assert_ne!(a.addr(), b.addr());
    assert!(a.addr() < b.addr());
}

#[test]
fn describe_names_the_error() {
    assert_eq!(Error::InvalidKey.describe(), "invalid key");
    assert_eq!(Error::Syntax { position: 3 }.describe(), "syntax error");
}

#[test]
fn tagged_literal_keeps_its_tag() {
    let mut store = SymbolStore::new();
    let v = parse_edn("#my/tag [1 2]", &mut store).unwrap();
    match &v {
        Value::Tagged(tag, inner) => {
            assert_eq!(tag.as_str(&store), "my/tag");
            assert_eq!(
                **inner,
                Value::Vector(vec![Value::Integer(1), Value::Integer(2)])
            );
        }
        other => panic!("expected a tagged value, got {:?}", other),
    }
    assert_eq!(to_text(&v, &store), "#my/tag [1 2]");
}

#[test]
fn pretty_printing_indents_by_depth() {
    let mut store = SymbolStore::new();
    let v = parse_edn("{:x [1 2]}", &mut store).unwrap();
    assert_eq!(
        to_text_pretty(&v, &store),
        "{\n  :x\n    [\n      1\n      2\n    ]\n}\n"
    );
    assert_eq!(to_text_pretty(&Value::Nil, &store), "nil\n");
}
