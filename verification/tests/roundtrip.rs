use hessian_rs::de::Deserializer;
use hessian_rs::ser::Serializer;
use hessian_rs::value::{List, MapValue};
use hessian_rs::Value;
use hessian_rs::Value::{Date, Dict, Double, Int, Long};

fn roundtrip_test(val: Value) {
    let mut ser = Serializer::new();
    ser.serialize_value(&val)
        .expect(&format!("serialization failed for {:?}", val));
    let encoded = ser.into_bytes();
    let mut de = Deserializer::new(encoded);
    let decoded = de
        .read_value()
        .expect(&format!("deserialization failed for {:?}", val));
    assert_eq!(decoded, val);
}

#[test]
fn test_roundtrip_test_int_roundtrip() {
    roundtrip_test(Int(0));
    roundtrip_test(Int(-16));
    roundtrip_test(Int(47));
    roundtrip_test(Int(48));
    roundtrip_test(Int(-2048));
    roundtrip_test(Int(-256));
    roundtrip_test(Int(2047));
    roundtrip_test(Int(-262144));
    roundtrip_test(Int(262143));
    roundtrip_test(Int(262144));
}

#[test]
fn test_long_roundtrip() {
    roundtrip_test(Long(0));
    roundtrip_test(Long(-16));
    roundtrip_test(Long(47));
    roundtrip_test(Long(48));
    roundtrip_test(Long(-2048));
    roundtrip_test(Long(-256));
    roundtrip_test(Long(2047));
    roundtrip_test(Long(-262144));
    roundtrip_test(Long(262143));
    roundtrip_test(Long(262144));
}

#[test]
fn test_roundtrip_test_double_roundtrip() {
    roundtrip_test(Double(0.0f64.to_bits()));
    roundtrip_test(Double(1.0f64.to_bits()));
    roundtrip_test(Double((-128.0f64).to_bits()));
    roundtrip_test(Double(10.0f64.to_bits()));
    roundtrip_test(Double(127.0f64.to_bits()));
    roundtrip_test(Double((-32768.0f64).to_bits()));
    roundtrip_test(Double(32767.0f64.to_bits()));
    roundtrip_test(Double(32766.0f64.to_bits()));
    roundtrip_test(Double(12.25f64.to_bits()));
    roundtrip_test(Double(32767.99999f64.to_bits()));
}

#[test]
fn test_date_roundtrip() {
    roundtrip_test(Date(894621091000));
}

#[test]
fn test_roundtrip_test_string_roundtrip() {
    roundtrip_test(Value::String("".to_string()));
    roundtrip_test(Value::String("abc".to_string()));
    roundtrip_test(Value::String("中文 Chinese".to_string()));
    roundtrip_test(Value::String("abcdefghijklmnopqrstuvwxyz".to_string()));
    roundtrip_test(Value::String("abcdefghij".repeat(120)));
    roundtrip_test(Value::String("abcdefghij".repeat(1000)));
}

#[test]
fn test_roundtrip_test_list_roundtrip() {
    roundtrip_test(Value::List(List::Untyped(vec![Int(1), Int(2)])));
    roundtrip_test(Value::List(List::Untyped(vec![
        Value::String("".to_string()),
        Value::String("abc".to_string()),
        Value::String("中文".to_string()),
    ])));
    let mut many_ints = Vec::new();
    for _ in 0..13 {
        many_ints.push(Int(1));
    }
    roundtrip_test(Value::List(List::Untyped(many_ints)));
    let mut many_strings = Vec::new();
    for _ in 0..1000 {
        many_strings.push(Value::String("test".to_string()));
    }
    roundtrip_test(Value::List(List::Untyped(many_strings)));
}

#[test]
fn test_roundtrip_test_map_roundtrip() {
    let pairs = vec![
        (Value::Int(1), Value::String("fee".to_string())),
        (Value::Int(16), Value::String("fie".to_string())),
        (Value::Int(256), Value::String("foe".to_string())),
    ];
    roundtrip_test(Dict(MapValue::Untyped(pairs)));
    let car_pairs = vec![
        (
            Value::String("color".to_string()),
            Value::String("aquamarine".to_string()),
        ),
        (
            Value::String("model".to_string()),
            Value::String("Beetle".to_string()),
        ),
        (Value::String("mileage".to_string()), Value::Int(65536)),
    ];
    roundtrip_test(Dict(MapValue::Typed("com.caucho.test.Car".to_string(), car_pairs)));
}
