use hessian_rs::ser::Serializer;
use hessian_rs::to_vec;
use hessian_rs::value::Definition;
use hessian_rs::value::List;
use hessian_rs::Value;
use hessian_rs::Value::Int;

fn test_encode_ok(value: Value, target: &[u8]) {
    assert_eq!(to_vec(&value).unwrap(), target, "{:?} encode error", value);
}

#[test]
fn test_encode_int() {
    test_encode_ok(Int(0), &[0x90 as u8]);
    test_encode_ok(Int(-16), &[0x80]);
    test_encode_ok(Int(47), &[0xbf]);
    test_encode_ok(Int(48), &[0xc8, 0x30]);

    test_encode_ok(Int(-2048), &[0xc0, 0x00]);
    test_encode_ok(Int(-256), &[0xc7, 0x00]);
    test_encode_ok(Int(2047), &[0xcf, 0xff]);

    test_encode_ok(Int(-262144), &[0xd0, 0x00, 0x00]);
    test_encode_ok(Int(262143), &[0xd7, 0xff, 0xff]);

    test_encode_ok(Int(262144), &[b'I', 0x00, 0x04, 0x00, 0x00])
}

#[test]
fn test_encde_string() {
    test_encode_ok(Value::String(String::new()), &[0x00]);
    test_encode_ok(
        Value::String(vec!['a'; 0x1f].into_iter().collect()),
        &[&[0x1f as u8], vec!['a' as u8; 0x1f].as_slice()].concat(),
    );
}

#[test]
fn test_encode_bool() {
    test_encode_ok(Value::Bool(true), &[b'T']);
    test_encode_ok(Value::Bool(false), &[b'F']);
}

#[test]
fn test_encode_null() {
    test_encode_ok(Value::Null, &[b'N']);
}

#[test]
fn test_encode_long() {
    test_encode_ok(Value::Long(0), &[0xe0]);
    test_encode_ok(Value::Long(-8), &[0xd8]);
    test_encode_ok(Value::Long(-7), &[0xd9]);
    test_encode_ok(Value::Long(15), &[0xef]);
    test_encode_ok(Value::Long(-9), &[0xf7, 0xf7]);
    test_encode_ok(Value::Long(16), &[0xf8, 0x10]);
    test_encode_ok(Value::Long(255), &[0xf8, 0xff]);
    test_encode_ok(Value::Long(-2048), &[0xf0, 0x00]);
    test_encode_ok(Value::Long(262143), &[0x3f, 0xff, 0xff]);
    test_encode_ok(Value::Long(-262144), &[0x38, 0x00, 0x00]);
    test_encode_ok(Value::Long(2048), &[0x3c, 0x08, 0x00]);
    test_encode_ok(Value::Long(262144), &[0x59, 0x00, 0x04, 0x00, 0x00]);
    test_encode_ok(Value::Long(i32::MAX as i64), &[0x59, 0x7f, 0xff, 0xff, 0xff]);
    test_encode_ok(
        Value::Long(i32::MAX as i64 + 1),
        &[b'L', 0x00, 0x00, 0x00, 0x00, 0x80, 0x00, 0x00, 0x00],
    );
}

#[test]
fn test_encode_double() {
    test_encode_ok(Value::Double(0.0f64.to_bits()), &[0x5b]);
    test_encode_ok(Value::Double(1.0f64.to_bits()), &[0x5c]);
    test_encode_ok(Value::Double(127.0f64.to_bits()), &[0x5d, 0x7f]);
    test_encode_ok(Value::Double((-32768.0f64).to_bits()), &[0x5e, 0x80, 0x00]);
    test_encode_ok(
        Value::Double(12.25f64.to_bits()),
        &[0x5f, 0x00, 0x00, 0x2f, 0xda],
    );
    test_encode_ok(
        Value::Double(32767.99999f64.to_bits()),
        &[0x44, 0x40, 0xdf, 0xff, 0xff, 0xff, 0xd6, 0x0e, 0x95],
    );
}

#[test]
fn test_encode_date() {
    test_encode_ok(
        Value::Date(894621091000),
        &[0x4a, 0x00, 0x00, 0x00, 0xd0, 0x4b, 0x92, 0x84, 0xb8],
    )
}

#[test]
fn test_encode_type() {
    let mut ser = Serializer::new();
    let first_list = List::Typed("[int".to_string(), vec![Value::Int(1)]);
    ser.serialize_list(&first_list).unwrap();
    assert_eq!(ser.type_cache_len(), 1);
    assert_eq!(ser.type_cache_index_of("[int"), Some(0));
    let second_list = List::Typed("[int".to_string(), vec![Value::Int(1)]);
    ser.serialize_list(&second_list).unwrap();
    assert_eq!(ser.type_cache_len(), 1);
}

#[test]
fn test_encode_definiton() {
    let def = Definition {
        name: "example.Car".to_string(),
        fields: vec!["color".to_string()],
    };
    let mut ser = Serializer::new();
    assert!(ser.write_definition(&def).unwrap() == 0);
    assert!(ser.write_definition(&def).unwrap() == 0);
}
