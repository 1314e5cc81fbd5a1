use hessian_rs::de::Deserializer;
use hessian_rs::value::{List, MapValue};
use hessian_rs::Value;

fn test_decode_ok(rdr: &[u8], target: Value) {
    let mut de = Deserializer::new(rdr.to_vec());
    let value = de.read_value().unwrap();
    assert_eq!(value, target);
}

#[test]
fn test_decode_int() {
    test_decode_ok(&[b'I', 0x00, 0x00, 0x00, 0x00], Value::Int(0));
    test_decode_ok(&[0x90u8], Value::Int(0));
    test_decode_ok(&[0x80u8], Value::Int(-16));
    test_decode_ok(&[0xbfu8], Value::Int(47));
    test_decode_ok(&[0xc8u8, 0x30u8], Value::Int(48));

    test_decode_ok(&[0xc0, 0x00], Value::Int(-2048));
    test_decode_ok(&[0xc7, 0x00], Value::Int(-256));
    test_decode_ok(&[0xcf, 0xff], Value::Int(2047));

    test_decode_ok(&[0xd0, 0x00, 0x00], Value::Int(-262144));
    test_decode_ok(&[0xd7, 0xff, 0xff], Value::Int(262143));

    test_decode_ok(&[b'I', 0x00, 0x04, 0x00, 0x00], Value::Int(262144));
}

#[test]
fn test_decode_long() {
    // -8 ~ 15
    test_decode_ok(&[0xe0], Value::Long(0));
    test_decode_ok(&[0xd8], Value::Long(-8));
    test_decode_ok(&[0xd9], Value::Long(-7));
    test_decode_ok(&[0xef], Value::Long(15));
    test_decode_ok(&[0xee], Value::Long(14));
    // -2048 ~ 2047
    test_decode_ok(&[0xf7, 0xf7], Value::Long(-9));
    test_decode_ok(&[0xf8, 0x10], Value::Long(16));
    test_decode_ok(&[0xf0, 0x00], Value::Long(-2048));
    test_decode_ok(&[0xff, 0xff], Value::Long(2047));
    // -262144 ~ 262143
    test_decode_ok(&[0x3f, 0xff, 0xff], Value::Long(262143));
    test_decode_ok(&[0x38, 0x00, 0x00], Value::Long(-262144));
    test_decode_ok(&[0x3c, 0x08, 0x00], Value::Long(2048));
    // -2147483648 ~ 2147483647
    test_decode_ok(&[0x59, 0x80, 0x00, 0x00, 0x00], Value::Long(-2147483648));
    test_decode_ok(&[0x59, 0x7f, 0xff, 0xff, 0xff], Value::Long(2147483647));
    // L
    test_decode_ok(
        &[0x4c, 0x00, 0x00, 0x00, 0x00, 0x80, 0x00, 0x00, 0x00],
        Value::Long(2147483648),
    );
}

#[test]
fn test_decode_double() {
    test_decode_ok(&[0x5b], Value::Double(0.0f64.to_bits()));
    test_decode_ok(&[0x5c], Value::Double(1.0f64.to_bits()));
    test_decode_ok(&[0x5d, 0x80], Value::Double((-128.0f64).to_bits()));
    test_decode_ok(&[0x5e, 0x00, 0x80], Value::Double(128.0f64.to_bits()));
    test_decode_ok(&[0x5f, 0x00, 0x00, 0x2f, 0xda], Value::Double(12.25f64.to_bits()));
    test_decode_ok(
        &[b'D', 0x40, 0x28, 0x80, 0x00, 0x00, 0x00, 0x00, 0x00],
        Value::Double(12.25f64.to_bits()),
    );
}

#[test]
fn de_test_decode_date() {
    test_decode_ok(
        &[0x4a, 0x00, 0x00, 0x00, 0xd0, 0x4b, 0x92, 0x84, 0xb8],
        Value::Date(894621091000),
    );
    test_decode_ok(&[0x4b, 0x4b, 0x92, 0x0b, 0xa0], Value::Date(76071745920000));
}

#[test]
fn test_short_binary() {
    test_decode_ok(&[0x20], Value::Bytes(Vec::new()));
    test_decode_ok(&[0x23, 0x01, 0x02, 0x03], Value::Bytes(vec![1, 2, 3]));
}

#[test]
fn test_boolean() {
    test_decode_ok(&[b'T'], Value::Bool(true));
    test_decode_ok(&[b'F'], Value::Bool(false));
}

#[test]
fn test_null() {
    test_decode_ok(&[b'N'], Value::Null);
}

#[test]
fn test_read_list() {
    // Fixed length typed list
    test_decode_ok(
        &[b'V', 0x04, b'[', b'i', b'n', b't', 0x92, 0x90, 0x91],
        Value::List(List::Typed(
            "[int".to_string(),
            vec![Value::Int(0), Value::Int(1)],
        )),
    );
    // Untyped variable list
    test_decode_ok(
        &[0x57, 0x90, 0x91, b'Z'],
        Value::List(List::Untyped(vec![Value::Int(0), Value::Int(1)])),
    );
}

fn fee_fie_foe() -> Vec<(Value, Value)> {
    vec![
        (Value::Int(1), Value::String("fee".to_string())),
        (Value::Int(16), Value::String("fie".to_string())),
        (Value::Int(256), Value::String("foe".to_string())),
    ]
}

#[test]
fn test_read_map() {
    test_decode_ok(
        &[
            b'M', 0x13, b'c', b'o', b'm', b'.', b'c', b'a', b'u', b'c', b'h', b'o', b'.', b't',
            b'e', b's', b't', b'.', b'c', b'a', b'r', 0x91, 0x03, b'f', b'e', b'e', 0xa0, 0x03,
            b'f', b'i', b'e', 0xc9, 0x00, 0x03, b'f', b'o', b'e', b'Z',
        ],
        Value::Dict(MapValue::Typed("com.caucho.test.car".to_string(), fee_fie_foe())),
    );

    test_decode_ok(
        &[
            b'H', 0x91, 0x03, b'f', b'e', b'e', 0xa0, 0x03, b'f', b'i', b'e', 0xc9, 0x00, 0x03,
            b'f', b'o', b'e', b'Z',
        ],
        Value::Dict(MapValue::Untyped(fee_fie_foe())),
    );
}

#[test]
fn test_read_object() {
    let pairs = vec![
        (
            Value::String("Color".to_string()),
            Value::String("red".to_string()),
        ),
        (
            Value::String("Model".to_string()),
            Value::String("corvette".to_string()),
        ),
    ];
    test_decode_ok(
        &[
            b'C', 0x0b, b'e', b'x', b'a', b'm', b'p', b'l', b'e', b'.', b'C', b'a', b'r', 0x92,
            0x05, b'C', b'o', b'l', b'o', b'r', 0x05, b'M', b'o', b'd', b'e', b'l', b'O', 0x90,
            0x03, b'r', b'e', b'd', 0x08, b'c', b'o', b'r', b'v', b'e', b't', b't', b'e',
        ],
        Value::Dict(MapValue::Typed("example.Car".to_string(), pairs)),
    );
}

#[test]
fn test_read_ref() {
    let pairs = vec![
        (Value::String("head".to_string()), Value::Int(1)),
        (Value::String("tail".to_string()), Value::Ref(0)),
    ];
    test_decode_ok(
        &[
            b'C', 0x0a, b'L', b'i', b'n', b'k', b'e', b'd', b'L', b'i', b's', b't', 0x92, 0x04,
            b'h', b'e', b'a', b'd', 0x04, b't', b'a', b'i', b'l', b'O', 0x90, 0x91, 0x51, 0x90,
        ],
        Value::Dict(MapValue::Typed("LinkedList".to_string(), pairs)),
    );
}
