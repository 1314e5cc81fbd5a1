use hessian_rs::de::Deserializer;
use hessian_rs::value::{List, MapValue};
use hessian_rs::Value;

fn decode(bytes: Vec<u8>) -> Value {
    let mut de = Deserializer::new(bytes);
    de.read_value().unwrap()
}

/// A string value in the compact or the two-octet form, whichever fits.
fn s_short(s: &str) -> Vec<u8> {
    let n = s.chars().count();
    let mut v = if n <= 31 {
        vec![n as u8]
    } else {
        vec![0x30 + (n / 256) as u8, (n % 256) as u8]
    };
    v.extend_from_slice(s.as_bytes());
    v
}

fn string_value(s: &str) -> Value {
    Value::String(s.to_string())
}

#[test]
fn test_deserializer_test_decode_long_binary() {
    let mut input = vec![0x42, 0xff, 0xff];
    input.extend_from_slice(&[0x41; 65535]);
    match decode(input) {
        Value::Bytes(bytes) => assert_eq!(bytes, vec![0x41; 65535]),
        _ => panic!("expect bytes"),
    }
}

#[test]
fn test_deserializer_test_decode_date() {
    // whole minutes: the compact four-octet minute form
    let mut input = vec![0x4b];
    input.extend_from_slice(&((894621060000i64 / 60000) as i32).to_be_bytes());
    assert_eq!(decode(input), Value::Date(894621060000));

    for ms in [894621091000i64, 128849018880000, -128849018940000] {
        let mut input = vec![0x4a];
        input.extend_from_slice(&ms.to_be_bytes());
        assert_eq!(decode(input), Value::Date(ms));
    }
}

#[test]
fn test_deserializer_test_decode_string() {
    assert_eq!(decode(s_short("")), string_value(""));
    assert_eq!(decode(s_short("foo")), string_value("foo"));
    assert_eq!(decode(s_short("中文 Chinese")), string_value("中文 Chinese"));
}

#[test]
fn test_deserializer_test_decode_list() {
    let mut input = vec![0x7b, 0x91, 0x92];
    input.extend_from_slice(&s_short("foo"));
    assert_eq!(
        decode(input),
        Value::List(List::Untyped(vec![
            Value::Int(1),
            Value::Int(2),
            string_value("foo")
        ]))
    );

    assert_eq!(decode(vec![0x78]), Value::List(List::Untyped(vec![])));

    let mut input = vec![0x58, 0x98];
    for d in ["1", "2", "3", "4", "5", "6", "7", "8"] {
        input.extend_from_slice(&s_short(d));
    }
    assert_eq!(
        decode(input),
        Value::List(List::Untyped(
            ["1", "2", "3", "4", "5", "6", "7", "8"]
                .iter()
                .map(|x| string_value(x))
                .collect::<Vec<Value>>()
        ))
    );

    let mut input = vec![0x7a];
    input.extend_from_slice(&s_short("foo"));
    input.extend_from_slice(&s_short("bar"));
    assert_eq!(
        decode(input),
        Value::List(List::Untyped(vec![string_value("foo"), string_value("bar")]))
    );

    let mut input = vec![0x73];
    input.extend_from_slice(&s_short("[int"));
    input.extend_from_slice(&[0x91, 0x92, 0x93]);
    assert_eq!(
        decode(input),
        Value::List(List::Typed(
            "[int".to_string(),
            vec![Value::Int(1), Value::Int(2), Value::Int(3)]
        ))
    );

    let mut input = vec![0x73];
    input.extend_from_slice(&s_short("[string"));
    input.extend_from_slice(&s_short("1"));
    input.extend_from_slice(&s_short("@"));
    input.extend_from_slice(&s_short("3"));
    assert_eq!(
        decode(input),
        Value::List(List::Typed(
            "[string".to_string(),
            vec![string_value("1"), string_value("@"), string_value("3")]
        ))
    );

    let mut input = vec![0x72];
    input.extend_from_slice(&s_short("hessian.demo.SomeArrayList"));
    input.extend_from_slice(&s_short("ok"));
    input.extend_from_slice(&s_short("some list"));
    assert_eq!(
        decode(input),
        Value::List(List::Typed(
            "hessian.demo.SomeArrayList".to_string(),
            vec![string_value("ok"), string_value("some list")]
        ))
    );

    let mut input = vec![0x56];
    input.extend_from_slice(&s_short("hessian.demo.SomeArrayList"));
    input.push(0x98);
    for d in ["1", "2", "3", "4", "5", "6", "7", "8"] {
        input.extend_from_slice(&s_short(d));
    }
    assert_eq!(
        decode(input),
        Value::List(List::Typed(
            "hessian.demo.SomeArrayList".to_string(),
            ["1", "2", "3", "4", "5", "6", "7", "8"]
                .iter()
                .map(|x| string_value(x))
                .collect::<Vec<Value>>()
        ))
    );
}

#[test]
fn test_decode_map() {
    // a typed map of strings and one int
    let mut input = vec![b'M'];
    input.extend_from_slice(&s_short("hessian.demo.Car"));
    for (k, v) in [
        ("a", "a"),
        ("b", "b"),
        ("c", "c"),
        ("model", "Beetle"),
        ("color", "aquamarine"),
    ] {
        input.extend_from_slice(&s_short(k));
        input.extend_from_slice(&s_short(v));
    }
    input.extend_from_slice(&s_short("mileage"));
    input.extend_from_slice(&[b'I', 0x00, 0x01, 0x00, 0x00]);
    input.push(b'Z');
    assert_eq!(
        decode(input),
        Value::Dict(MapValue::Typed(
            "hessian.demo.Car".to_string(),
            vec![
                (string_value("a"), string_value("a")),
                (string_value("b"), string_value("b")),
                (string_value("c"), string_value("c")),
                (string_value("model"), string_value("Beetle")),
                (string_value("color"), string_value("aquamarine")),
                (string_value("mileage"), Value::Int(65536)),
            ]
        ))
    );

    // a typed map holding a null and a back-reference
    let mut input = vec![b'M'];
    input.extend_from_slice(&s_short("hessian.demo.Car"));
    input.extend_from_slice(&s_short("prev"));
    input.push(b'N');
    input.extend_from_slice(&s_short("self"));
    input.extend_from_slice(&[0x51, 0x90]);
    input.extend_from_slice(&s_short("model"));
    input.extend_from_slice(&s_short("Beetle"));
    input.extend_from_slice(&s_short("color"));
    input.extend_from_slice(&s_short("aquamarine"));
    input.extend_from_slice(&s_short("mileage"));
    input.extend_from_slice(&[b'I', 0x00, 0x01, 0x00, 0x00]);
    input.push(b'Z');
    assert_eq!(
        decode(input),
        Value::Dict(MapValue::Typed(
            "hessian.demo.Car".to_string(),
            vec![
                (string_value("prev"), Value::Null),
                (string_value("self"), Value::Ref(0)),
                (string_value("model"), string_value("Beetle")),
                (string_value("color"), string_value("aquamarine")),
                (string_value("mileage"), Value::Int(65536)),
            ]
        ))
    );

    // an untyped map with an empty string value
    let mut input = vec![b'H'];
    input.extend_from_slice(&s_short("foo"));
    input.extend_from_slice(&s_short(""));
    input.push(b'Z');
    assert_eq!(
        decode(input),
        Value::Dict(MapValue::Untyped(vec![(string_value("foo"), string_value(""))]))
    );

    // an untyped map with non-ASCII keys and values
    let mut input = vec![b'H'];
    input.extend_from_slice(&s_short("foo"));
    input.extend_from_slice(&s_short("bar"));
    input.extend_from_slice(&s_short("123"));
    input.extend_from_slice(&[0xc9, 0xc8]);
    input.extend_from_slice(&s_short("zero"));
    input.push(0x90);
    input.extend_from_slice(&s_short("中文key"));
    input.extend_from_slice(&s_short("中文哈哈value"));
    input.push(b'Z');
    assert_eq!(
        decode(input),
        Value::Dict(MapValue::Untyped(vec![
            (string_value("foo"), string_value("bar")),
            (string_value("123"), Value::Int(456)),
            (string_value("zero"), Value::Int(0)),
            (string_value("中文key"), string_value("中文哈哈value")),
        ]))
    );

    // a typed map named after a hash table
    let mut input = vec![b'M'];
    input.extend_from_slice(&s_short("java.util.Hashtable"));
    input.extend_from_slice(&s_short("foo"));
    input.extend_from_slice(&s_short("bar"));
    input.extend_from_slice(&s_short("中文key"));
    input.extend_from_slice(&s_short("中文哈哈value"));
    input.push(b'Z');
    assert_eq!(
        decode(input),
        Value::Dict(MapValue::Typed(
            "java.util.Hashtable".to_string(),
            vec![
                (string_value("foo"), string_value("bar")),
                (string_value("中文key"), string_value("中文哈哈value")),
            ]
        ))
    );

    // long keys with int values
    let mut input = vec![b'H'];
    input.extend_from_slice(&[0xf8, 0x7b]);
    input.extend_from_slice(&[0xd5, 0xe2, 0x40]);
    input.extend_from_slice(&[0x3d, 0xe2, 0x40]);
    input.extend_from_slice(&[0xc8, 0x7b]);
    input.push(b'Z');
    assert_eq!(
        decode(input),
        Value::Dict(MapValue::Untyped(vec![
            (Value::Long(123), Value::Int(123456)),
            (Value::Long(123456), Value::Int(123)),
        ]))
    );
}

#[test]
fn test_decode_object() {
    // an object whose field holds another object
    let mut input = vec![b'C'];
    input.extend_from_slice(&s_short("hessian.ConnectionRequest"));
    input.push(0x91);
    input.extend_from_slice(&s_short("ctx"));
    input.push(0x60);
    input.push(b'C');
    input.extend_from_slice(&s_short("hessian.ConnectionRequest$RequestContext"));
    input.push(0x91);
    input.extend_from_slice(&s_short("id"));
    input.push(0x61);
    input.extend_from_slice(&[0xc8, 0x65]);
    let val = decode(input);
    let map = val.as_map().unwrap();
    assert_eq!(map.typ().unwrap().as_str(), "hessian.ConnectionRequest");
    let ctx = &map.value()[0].1;
    let ctx_map = ctx.as_map().unwrap();
    assert_eq!(
        ctx_map.typ().unwrap().as_str(),
        "hessian.ConnectionRequest$RequestContext"
    );
    assert_eq!(ctx_map.value()[0].0, string_value("id"));
    assert_eq!(ctx_map.value()[0].1, Value::Int(101));

    // a counter object holding a long
    for (long_byte, expect) in [(0xe0u8, 0i64), (0xe1, 1)] {
        let mut input = vec![b'C'];
        input.extend_from_slice(&s_short("java.util.concurrent.atomic.AtomicLong"));
        input.push(0x91);
        input.extend_from_slice(&s_short("value"));
        input.push(0x60);
        input.push(long_byte);
        let val = decode(input);
        let map = val.as_map().unwrap();
        assert_eq!(map.typ().unwrap().as_str(), "java.util.concurrent.atomic.AtomicLong");
        assert_eq!(map.value()[0].0, string_value("value"));
        assert_eq!(map.value()[0].1, Value::Long(expect));
    }
}
