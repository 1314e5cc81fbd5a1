use hessian_rs::de::Deserializer;
use hessian_rs::from_slice;
use hessian_rs::ser::Serializer;
use hessian_rs::to_vec;
use hessian_rs::value::{Definition, List, MapValue};
use hessian_rs::{value_eq, Error, ErrorKind, Value};
use std::cmp::Ordering;

fn decode(bytes: &[u8]) -> Value {
    from_slice(bytes).unwrap()
}

fn reencode(v: &Value) -> Vec<u8> {
    to_vec(v).unwrap()
}

#[test]
fn int_boundaries_both_ways() {
    assert_eq!(decode(&[0x90]), Value::Int(0));
    assert_eq!(decode(&[0x80]), Value::Int(-16));
    assert_eq!(decode(&[0xbf]), Value::Int(47));
    assert_eq!(decode(&[0xc8, 0x30]), Value::Int(48));
    assert_eq!(decode(&[0x49, 0x00, 0x04, 0x00, 0x00]), Value::Int(262144));
    assert_eq!(reencode(&Value::Int(0)), vec![0x90]);
    assert_eq!(reencode(&Value::Int(-16)), vec![0x80]);
    assert_eq!(reencode(&Value::Int(47)), vec![0xbf]);
    assert_eq!(reencode(&Value::Int(48)), vec![0xc8, 0x30]);
    assert_eq!(reencode(&Value::Int(262144)), vec![0x49, 0x00, 0x04, 0x00, 0x00]);
    assert_eq!(reencode(&Value::Int(i32::MIN)), vec![0x49, 0x80, 0x00, 0x00, 0x00]);
    assert_eq!(reencode(&Value::Int(i32::MAX)), vec![0x49, 0x7f, 0xff, 0xff, 0xff]);
}

#[test]
fn double_both_forms() {
    let v = Value::Double(12.25f64.to_bits());
    assert_eq!(decode(&[0x5f, 0x00, 0x00, 0x2f, 0xda]), v);
    assert_eq!(
        decode(&[0x44, 0x40, 0x28, 0x80, 0x00, 0x00, 0x00, 0x00, 0x00]),
        v
    );
    assert_eq!(reencode(&v), vec![0x5f, 0x00, 0x00, 0x2f, 0xda]);
}

#[test]
fn typed_list_scenario() {
    let v = Value::List(List::Typed(
        "[int".to_string(),
        vec![Value::Int(0), Value::Int(1)],
    ));
    assert_eq!(
        decode(&[0x56, 0x04, b'[', b'i', b'n', b't', 0x92, 0x90, 0x91]),
        v
    );
    // decoding the encoder's own choice of form yields the same value
    assert_eq!(decode(&reencode(&v)), v);
}

#[test]
fn untyped_map_scenario() {
    let v = Value::Dict(MapValue::Untyped(vec![
        (Value::Int(1), Value::String("fee".to_string())),
        (Value::Int(16), Value::String("fie".to_string())),
        (Value::Int(256), Value::String("foe".to_string())),
    ]));
    assert_eq!(
        decode(&[
            0x48, 0x91, 0x03, b'f', b'e', b'e', 0xa0, 0x03, b'f', b'i', b'e', 0xc9, 0x00, 0x03,
            b'f', b'o', b'e', 0x5a,
        ]),
        v
    );
    assert_eq!(decode(&reencode(&v)), v);
}

#[test]
fn object_definition_scenario() {
    let v = decode(&[
        0x43, 0x0b, b'e', b'x', b'a', b'm', b'p', b'l', b'e', b'.', b'C', b'a', b'r', 0x92, 0x05,
        b'C', b'o', b'l', b'o', b'r', 0x05, b'M', b'o', b'd', b'e', b'l', 0x4f, 0x90, 0x03, b'r',
        b'e', b'd', 0x08, b'c', b'o', b'r', b'v', b'e', b't', b't', b'e',
    ]);
    assert_eq!(
        v,
        Value::Dict(MapValue::Typed(
            "example.Car".to_string(),
            vec![
                (
                    Value::String("Color".to_string()),
                    Value::String("red".to_string())
                ),
                (
                    Value::String("Model".to_string()),
                    Value::String("corvette".to_string())
                ),
            ]
        ))
    );
    // the value re-encodes as an ordinary typed map and decodes back
    assert_eq!(decode(&reencode(&v)), v);
}

#[test]
fn self_reference_scenario() {
    let v = decode(&[
        0x43, 0x0a, b'L', b'i', b'n', b'k', b'e', b'd', b'L', b'i', b's', b't', 0x92, 0x04, b'h',
        b'e', b'a', b'd', 0x04, b't', b'a', b'i', b'l', 0x4f, 0x90, 0x91, 0x51, 0x90,
    ]);
    assert_eq!(
        v,
        Value::Dict(MapValue::Typed(
            "LinkedList".to_string(),
            vec![
                (Value::String("head".to_string()), Value::Int(1)),
                (Value::String("tail".to_string()), Value::Ref(0)),
            ]
        ))
    );
    assert_eq!(decode(&reencode(&v)), v);
}

#[test]
fn repeated_type_name_uses_reference() {
    // two typed lists of the same type inside one value: the second type
    // emission is an int back-reference, not the name again
    let inner1 = Value::List(List::Typed("[int".to_string(), vec![Value::Int(1)]));
    let inner2 = Value::List(List::Typed("[int".to_string(), vec![Value::Int(2)]));
    let v = Value::List(List::Untyped(vec![inner1, inner2]));
    let bytes = reencode(&v);
    assert_eq!(
        bytes,
        vec![
            0x7a, 0x71, 0x04, b'[', b'i', b'n', b't', 0x91, 0x71, 0x90, 0x92,
        ]
    );
    assert_eq!(decode(&bytes), v);
}

#[test]
fn definition_registered_once() {
    let def = Definition {
        name: "a.B".to_string(),
        fields: vec!["x".to_string(), "y".to_string()],
    };
    let mut ser = Serializer::new();
    let before = ser.writer().len();
    assert_eq!(ser.write_definition(&def).unwrap(), 0);
    let mid = ser.writer().len();
    assert!(mid > before);
    // registering the same name again emits nothing and returns the index
    assert_eq!(ser.write_definition(&def).unwrap(), 0);
    assert_eq!(ser.writer().len(), mid);
}

#[test]
fn multi_chunk_string_roundtrip() {
    // crosses the per-chunk code-point limit
    let s: String = "x".repeat(0x8000 + 17);
    let v = Value::String(s);
    let bytes = reencode(&v);
    assert_eq!(bytes[0], 0x52);
    assert_eq!(&bytes[1..3], &[0x7f, 0xff]);
    assert_eq!(decode(&bytes), v);

    let s2: String = "中文".repeat(0x5000);
    let v2 = Value::String(s2);
    assert_eq!(decode(&reencode(&v2)), v2);
}

#[test]
fn multi_chunk_binary_roundtrip() {
    let v = Value::Bytes(vec![0xabu8; 0xffff + 70]);
    let bytes = reencode(&v);
    assert_eq!(bytes[0], 0x41);
    assert_eq!(&bytes[1..3], &[0xff, 0xff]);
    assert_eq!(decode(&bytes), v);
}

#[test]
fn zero_length_values() {
    assert_eq!(decode(&reencode(&Value::String(String::new()))), Value::String(String::new()));
    assert_eq!(decode(&reencode(&Value::Bytes(vec![]))), Value::Bytes(vec![]));
    let empty_list = Value::List(List::Untyped(vec![]));
    assert_eq!(decode(&reencode(&empty_list)), empty_list);
    let empty_map = Value::Dict(MapValue::Untyped(vec![]));
    assert_eq!(decode(&reencode(&empty_map)), empty_map);
}

#[test]
fn ref_roundtrip_boundaries() {
    for r in [0u32, 1, 0x7fff_ffff, 0x8000_0000, u32::MAX] {
        let v = Value::Ref(r);
        assert_eq!(decode(&reencode(&v)), v);
    }
}

#[test]
fn date_roundtrip_boundaries() {
    for ms in [0i64, -1, i64::MIN, i64::MAX, 894621091000] {
        let v = Value::Date(ms);
        assert_eq!(decode(&reencode(&v)), v);
    }
}

#[test]
fn double_roundtrip_special_patterns() {
    for bits in [
        0u64,
        f64::NAN.to_bits(),
        f64::INFINITY.to_bits(),
        f64::NEG_INFINITY.to_bits(),
        (-0.0f64).to_bits(),
        0.001f64.to_bits(),
        (1.0e300f64).to_bits(),
        (-2147483648.0f64).to_bits(),
    ] {
        let v = Value::Double(bits);
        assert_eq!(decode(&reencode(&v)), v);
    }
    // scaled decoding agrees with native arithmetic on a busy sample
    for c in [-5i32, -1, 1, 3, 999, 12250, 65535, -1000000, i32::MAX, i32::MIN] {
        let mut input = vec![0x5f];
        input.extend_from_slice(&c.to_be_bytes());
        let expect = ((c as f64) * 0.001).to_bits();
        assert_eq!(from_slice(&input).unwrap(), Value::Double(expect));
    }
}

#[test]
fn error_unknown_tag() {
    assert_eq!(
        from_slice(&[0x45]).unwrap_err(),
        Error::SyntaxError(ErrorKind::UnknownType)
    );
}

#[test]
fn error_unexpected_end() {
    assert_eq!(from_slice(&[]).unwrap_err(), Error::Eof);
    assert_eq!(from_slice(&[0x49, 0x00]).unwrap_err(), Error::Eof);
    assert_eq!(from_slice(&[0x42, 0x00, 0x05, 0x01]).unwrap_err(), Error::Eof);
}

#[test]
fn error_invalid_utf8() {
    // 0xff is no UTF-8 leading byte
    assert_eq!(from_slice(&[0x01, 0xff]).unwrap_err(), Error::FromUtf8Error);
    // a leading byte followed by a malformed continuation
    assert_eq!(
        from_slice(&[0x01, 0xc2, 0x41]).unwrap_err(),
        Error::FromUtf8Error
    );
}

#[test]
fn error_type_reference_out_of_range() {
    // a typed list whose type is an int reference into an empty table
    assert_eq!(
        from_slice(&[0x70, 0x90]).unwrap_err(),
        Error::SyntaxError(ErrorKind::OutOfTypeRefRange(0))
    );
}

#[test]
fn error_definition_reference_out_of_range() {
    assert_eq!(
        from_slice(&[0x60]).unwrap_err(),
        Error::SyntaxError(ErrorKind::OutOfDefinitionRange(0))
    );
    assert_eq!(
        from_slice(&[0x4f, 0x91]).unwrap_err(),
        Error::SyntaxError(ErrorKind::OutOfDefinitionRange(1))
    );
}

#[test]
fn error_unexpected_kind() {
    // a back-reference index must be an int, not a string
    assert_eq!(
        from_slice(&[0x51, 0x01, b'x']).unwrap_err(),
        Error::SyntaxError(ErrorKind::UnexpectedType("string".to_string()))
    );
}

#[test]
fn value_accessors() {
    let mut v = Value::Int(7);
    assert!(v.is_int());
    assert!(!v.is_null());
    assert_eq!(v.as_int(), Some(7));
    assert_eq!(v.as_long(), None);
    let taken = v.take();
    assert_eq!(taken, Value::Int(7));
    assert!(v.is_null());

    let l = Value::List(List::Untyped(vec![Value::Bool(true)]));
    assert!(l.is_list());
    assert_eq!(l.as_list().unwrap().value().len(), 1);

    let d = Value::Double(1.5f64.to_bits());
    assert_eq!(d.as_double(), Some(1.5f64.to_bits()));

    let mut de = Deserializer::new(vec![0x90, 0x91]);
    assert_eq!(de.peek_byte().unwrap(), 0x90);
    assert_eq!(de.read_byte().unwrap(), 0x90);
    assert_eq!(de.read_value().unwrap(), Value::Int(1));
}

#[test]
fn canonical_order() {
    // kind order: Null < numeric < Bytes < String < Ref < List < Map
    let samples = [
        Value::Null,
        Value::Int(5),
        Value::Bytes(vec![1]),
        Value::String("a".to_string()),
        Value::Ref(0),
        Value::List(List::Untyped(vec![])),
        Value::Dict(MapValue::Untyped(vec![])),
    ];
    for i in 0..samples.len() {
        for j in 0..samples.len() {
            let expect = i.cmp(&j);
            assert_eq!(samples[i].compare(&samples[j]), expect);
        }
    }
    // numeric kinds compare by value across kinds
    assert_eq!(Value::Bool(true).compare(&Value::Int(1)), Ordering::Equal);
    assert_eq!(Value::Int(3).compare(&Value::Long(4)), Ordering::Less);
    assert_eq!(Value::Long(10).compare(&Value::Date(9)), Ordering::Greater);
    assert_eq!(
        Value::Int(2).compare(&Value::Double(2.0f64.to_bits())),
        Ordering::Equal
    );
    assert_eq!(
        Value::Int(2).compare(&Value::Double(2.5f64.to_bits())),
        Ordering::Less
    );
    assert_eq!(
        Value::Long(i64::MAX).compare(&Value::Double(1.0e300f64.to_bits())),
        Ordering::Less
    );
    assert_eq!(
        Value::Double(0.5f64.to_bits()).compare(&Value::Int(1)),
        Ordering::Less
    );
    // the exact comparison separates neighbours that rounding would merge
    assert_eq!(
        Value::Long((1i64 << 53) + 1).compare(&Value::Double(9007199254740992.0f64.to_bits())),
        Ordering::Greater
    );
    // a NaN is below every number and the zeros are equal
    assert_eq!(
        Value::Double(f64::NAN.to_bits()).compare(&Value::Long(i64::MIN)),
        Ordering::Less
    );
    assert_eq!(
        Value::Double((-0.0f64).to_bits()).compare(&Value::Double(0.0f64.to_bits())),
        Ordering::Equal
    );
    assert_eq!(
        Value::Double(f64::NEG_INFINITY.to_bits()).compare(&Value::Double(1.0f64.to_bits())),
        Ordering::Less
    );
    // strings in code-point order, containers lexicographically
    assert_eq!(
        Value::String("ab".to_string()).compare(&Value::String("b".to_string())),
        Ordering::Less
    );
    assert_eq!(
        Value::String("中".to_string()).compare(&Value::String("z".to_string())),
        Ordering::Greater
    );
    let l1 = Value::List(List::Untyped(vec![Value::Int(1), Value::Int(2)]));
    let l2 = Value::List(List::Untyped(vec![Value::Int(1), Value::Int(3)]));
    assert_eq!(l1.compare(&l2), Ordering::Less);
    let t1 = Value::List(List::Typed("a".to_string(), vec![]));
    let t2 = Value::List(List::Untyped(vec![]));
    assert_eq!(t1.compare(&t2), Ordering::Less);
}

#[test]
fn reencode_decoded_bytes() {
    // decode, encode, decode again: same value both times
    let inputs: Vec<Vec<u8>> = vec![
        vec![0x48, 0x91, 0x03, b'f', b'e', b'e', b'Z'],
        vec![0x5f, 0x00, 0x00, 0x2f, 0xda],
        vec![0x73, 0x04, b'[', b'i', b'n', b't', 0x91, 0x92, 0x93],
        vec![
            b'C', 0x03, b'a', b'.', b'B', 0x91, 0x01, b'x', 0x60, 0x90,
        ],
    ];
    for input in inputs {
        let v1 = from_slice(&input).unwrap();
        let v2 = from_slice(&to_vec(&v1).unwrap()).unwrap();
        assert_eq!(v1, v2);
    }
}

#[test]
fn duplicate_map_keys_collapse() {
    // a duplicate key keeps the place of its first occurrence and the
    // value of its last
    assert_eq!(
        decode(&[0x48, 0x90, 0x91, 0x90, 0x92, 0x5a]),
        Value::Dict(MapValue::Untyped(vec![(Value::Int(0), Value::Int(2))]))
    );
    assert_eq!(
        decode(&[
            0x48, 0x90, 0x91, 0xa0, 0x92, 0x90, 0x93, 0x5a,
        ]),
        Value::Dict(MapValue::Untyped(vec![
            (Value::Int(0), Value::Int(3)),
            (Value::Int(16), Value::Int(2)),
        ]))
    );
    // the same for an object whose definition repeats a field name
    let mut input = vec![b'C', 0x03, b'a', b'.', b'B', 0x92, 0x01, b'x', 0x01, b'x', 0x60];
    input.extend_from_slice(&[0x91, 0x92]);
    assert_eq!(
        decode(&input),
        Value::Dict(MapValue::Typed(
            "a.B".to_string(),
            vec![(Value::String("x".to_string()), Value::Int(2))]
        ))
    );
}

#[test]
fn map_order_is_entry_order_insensitive() {
    let m1 = Value::Dict(MapValue::Untyped(vec![
        (Value::Int(1), Value::String("fee".to_string())),
        (Value::Int(16), Value::String("fie".to_string())),
    ]));
    let m2 = Value::Dict(MapValue::Untyped(vec![
        (Value::Int(16), Value::String("fie".to_string())),
        (Value::Int(1), Value::String("fee".to_string())),
    ]));
    // the same mapping in two insertion orders compares equal
    assert_eq!(m1.compare(&m2), Ordering::Equal);
    // and the wire order of a decoded map does not affect the order
    let a = decode(&[0x48, 0x90, 0x91, 0xa0, 0x92, 0x5a]);
    let b = decode(&[0x48, 0xa0, 0x92, 0x90, 0x91, 0x5a]);
    assert_eq!(a.compare(&b), Ordering::Equal);
    // a differing value is still seen through the sorted arrangement
    let m3 = Value::Dict(MapValue::Untyped(vec![
        (Value::Int(16), Value::String("foe".to_string())),
        (Value::Int(1), Value::String("fee".to_string())),
    ]));
    assert_eq!(m1.compare(&m3), Ordering::Less);
    assert_eq!(m3.compare(&m1), Ordering::Greater);
}

#[test]
fn mutable_accessors() {
    let mut v = Value::List(List::Untyped(vec![Value::Int(1)]));
    assert!(v.as_map_mut().is_none());
    v.as_list_mut().unwrap().value_mut().push(Value::Int(2));
    assert_eq!(
        v,
        Value::List(List::Untyped(vec![Value::Int(1), Value::Int(2)]))
    );

    let mut m = Value::Dict(MapValue::Untyped(vec![]));
    assert!(m.as_list_mut().is_none());
    m.as_map_mut()
        .unwrap()
        .value_mut()
        .push((Value::Int(1), Value::Bool(true)));
    assert_eq!(
        m,
        Value::Dict(MapValue::Untyped(vec![(Value::Int(1), Value::Bool(true))]))
    );
}

#[test]
fn value_equality_is_entry_order_insensitive() {
    let m1 = Value::Dict(MapValue::Untyped(vec![
        (Value::Int(1), Value::String("fee".to_string())),
        (Value::Int(16), Value::String("fie".to_string())),
    ]));
    let m2 = Value::Dict(MapValue::Untyped(vec![
        (Value::Int(16), Value::String("fie".to_string())),
        (Value::Int(1), Value::String("fee".to_string())),
    ]));
    assert!(value_eq(&m1, &m2));
    assert!(m1 != m2);
    let m3 = Value::Dict(MapValue::Untyped(vec![
        (Value::Int(16), Value::String("foe".to_string())),
        (Value::Int(1), Value::String("fee".to_string())),
    ]));
    assert!(!value_eq(&m1, &m3));
    // the same through nesting
    let l1 = Value::List(List::Untyped(vec![m1]));
    let l2 = Value::List(List::Untyped(vec![m2]));
    assert!(value_eq(&l1, &l2));
    // kinds stay distinct: value equality does not collapse across kinds
    assert!(!value_eq(&Value::Int(1), &Value::Long(1)));
    // and doubles stay bit-exact
    assert!(value_eq(
        &Value::Double(f64::NAN.to_bits()),
        &Value::Double(f64::NAN.to_bits())
    ));
    assert!(!value_eq(
        &Value::Double(0.0f64.to_bits()),
        &Value::Double((-0.0f64).to_bits())
    ));
}
