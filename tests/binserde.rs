use packet_binser::codec::{Codec, LengthPrefix};
use packet_binser::discriminant::{union_shape, VariantDecl};
use packet_binser::error::Error;
use packet_binser::shape::{Shape, Value, Width};
use packet_binser::varint::Variable;

fn binserde_with(codec: Codec, shape: &Shape, value: Value) {
    let mut buffer = Vec::new();
    codec.encode(shape, &value, &mut buffer).unwrap();
    let (de, end) = codec.decode(shape, &buffer, 0).unwrap();
    assert_eq!(end, buffer.len(), "binserde consumed a wrong length for {:?}", value);
    assert_eq!(format!("{:?}", value), format!("{:?}", de), "binserde failed for {:?}", value);
}

fn read_varint(data: &[u8], w: Width) -> Result<(u128, usize), Error> {
    Variable::<u128>::deserialize(data, 0, w).map(|(v, n)| (v.0, n))
}

fn read_varint_signed(data: &[u8], w: Width) -> Result<(i128, usize), Error> {
    Variable::<i128>::deserialize(data, 0, w).map(|(v, n)| (v.0, n))
}

fn binserde(shape: Shape, value: Value) {
    binserde_with(Codec { prefix: LengthPrefix::Fixed32 }, &shape, value);
}

fn list(e: Shape) -> Shape {
    Shape::Sequence(Box::new(e))
}

fn opt(e: Shape) -> Shape {
    Shape::Optional(Box::new(e))
}

fn some(v: Value) -> Value {
    Value::Optional(Some(Box::new(v)))
}

#[test]
fn test_binserde() {
    binserde(Shape::Bool, Value::Bool(true));
    binserde(Shape::Bool, Value::Bool(false));
    binserde(Shape::Unsigned(Width::W32), Value::Unsigned(69));
    binserde(Shape::Signed(Width::W32), Value::Signed(-69));
    binserde(Shape::Unsigned(Width::W32), Value::Unsigned(4.2_f32.to_bits() as u128));

    binserde(opt(Shape::Unsigned(Width::W8)), some(Value::Unsigned(42)));
    binserde(opt(Shape::Unsigned(Width::W8)), Value::Optional(None));
    binserde(opt(opt(Shape::Unsigned(Width::W16))), some(some(Value::Unsigned(84))));
    binserde(opt(opt(Shape::Unsigned(Width::W16))), some(Value::Optional(None)));

    binserde(Shape::Text, Value::Text(String::from("Hello, world!")));
    binserde(Shape::Text, Value::Text(String::from("❤️🏃😊")));
    binserde(Shape::Text, Value::Text(String::from("")));

    binserde(
        Shape::Array(Box::new(Shape::Signed(Width::W8)), 4),
        Value::List(vec![Value::Signed(-69), Value::Signed(0), Value::Signed(1), Value::Signed(2)]),
    );
    binserde(
        list(Shape::Signed(Width::W32)),
        Value::List(vec![Value::Signed(-69), Value::Signed(0), Value::Signed(1), Value::Signed(2)]),
    );
    binserde(list(Shape::Signed(Width::W32)), Value::List(vec![]));
    binserde(
        list(Shape::Unsigned(Width::W8)),
        Value::List(vec![Value::Unsigned(255), Value::Unsigned(0), Value::Unsigned(127), Value::Unsigned(128)]),
    );

    binserde(Shape::Unsigned(Width::W64), Value::Unsigned(u64::MAX as u128));
    binserde(Shape::Signed(Width::W64), Value::Signed(i64::MIN as i128));
}

#[test]
fn float_bits_round_trip() {
    let codec = Codec { prefix: LengthPrefix::Fixed32 };
    let mut buffer = Vec::new();
    codec
        .encode(&Shape::Unsigned(Width::W32), &Value::Unsigned(4.2_f32.to_bits() as u128), &mut buffer)
        .unwrap();
    assert_eq!(buffer, 4.2_f32.to_be_bytes().to_vec());
    match codec.decode(&Shape::Unsigned(Width::W32), &buffer, 0).unwrap() {
        (Value::Unsigned(bits), 4) => assert_eq!(f32::from_bits(bits as u32), 4.2_f32),
        other => panic!("unexpected {:?}", other),
    }
}

#[test]
fn fixed_width_is_big_endian() {
    let codec = Codec { prefix: LengthPrefix::Fixed32 };
    let mut buffer = Vec::new();
    codec.encode(&Shape::Signed(Width::W32), &Value::Signed(-69), &mut buffer).unwrap();
    assert_eq!(buffer, vec![0xff, 0xff, 0xff, 0xbb]);
    let mut buffer = Vec::new();
    codec.encode(&Shape::Unsigned(Width::W16), &Value::Unsigned(0x1234), &mut buffer).unwrap();
    assert_eq!(buffer, vec![0x12, 0x34]);
    let mut buffer = Vec::new();
    codec.encode(&Shape::Signed(Width::W128), &Value::Signed(i128::MIN), &mut buffer).unwrap();
    let mut want = vec![0u8; 16];
    want[0] = 0x80;
    assert_eq!(buffer, want);
}

#[test]
fn varint_boundary_values() {
    let cases: [(u128, &[u8]); 5] = [
        (0, &[0]),
        (127, &[0x7f]),
        (128, &[0x80, 0x01]),
        (16383, &[0xff, 0x7f]),
        (16384, &[0x80, 0x80, 0x01]),
    ];
    for (v, bytes) in cases {
        let mut buffer = Vec::new();
        Variable(v).serialize(&mut buffer);
        assert_eq!(buffer.as_slice(), bytes);
        assert_eq!(read_varint(&buffer, Width::W32), Ok((v, bytes.len())));
    }
    let widths = [
        (Width::W8, u8::MAX as u128),
        (Width::W16, u16::MAX as u128),
        (Width::W32, u32::MAX as u128),
        (Width::W64, u64::MAX as u128),
        (Width::W128, u128::MAX),
    ];
    for (w, max) in widths {
        let mut buffer = Vec::new();
        Variable(max).serialize(&mut buffer);
        assert_eq!(read_varint(&buffer, w), Ok((max, buffer.len())));
        binserde(Shape::VarUnsigned(w), Value::Unsigned(max));
    }
}

#[test]
fn varint_signed_boundary_values() {
    let widths = [
        (Width::W8, i8::MIN as i128, i8::MAX as i128),
        (Width::W16, i16::MIN as i128, i16::MAX as i128),
        (Width::W32, i32::MIN as i128, i32::MAX as i128),
        (Width::W64, i64::MIN as i128, i64::MAX as i128),
        (Width::W128, i128::MIN, i128::MAX),
    ];
    for (w, min, max) in widths {
        for v in [0, -1, 1, min, max] {
            let mut buffer = Vec::new();
            Variable(v).serialize(&mut buffer);
            assert_eq!(read_varint_signed(&buffer, w), Ok((v, buffer.len())));
            binserde(Shape::VarSigned(w), Value::Signed(v));
        }
    }
    let mut buffer = Vec::new();
    Variable(-1_i128).serialize(&mut buffer);
    assert_eq!(buffer, vec![1]);
    let mut buffer = Vec::new();
    Variable(1_i128).serialize(&mut buffer);
    assert_eq!(buffer, vec![2]);
    let mut buffer = Vec::new();
    Variable(-65_i128).serialize(&mut buffer);
    assert_eq!(buffer, vec![0x81, 0x01]);
}

#[test]
fn varint_too_long_or_too_large() {
    // More continuation bytes than a u8 varint may take.
    assert_eq!(read_varint(&[0x80, 0x80, 0x01], Width::W8), Err(Error::TryFromInt));
    // 256 does not fit a u8.
    assert_eq!(read_varint(&[0x80, 0x02], Width::W8), Err(Error::TryFromInt));
    // The stream ends while a continuation bit is set.
    assert_eq!(read_varint(&[0x80], Width::W32), Err(Error::Io));
}

#[test]
fn varint_length_prefix_round_trip() {
    let codec = Codec { prefix: LengthPrefix::Varint };
    let long: String = "ab".repeat(100);
    binserde_with(codec, &Shape::Text, Value::Text(long.clone()));
    let mut buffer = Vec::new();
    codec.encode(&Shape::Text, &Value::Text(long), &mut buffer).unwrap();
    assert_eq!(&buffer[..2], &[0xc8, 0x01]);
}

#[test]
fn bool_reads_any_nonzero_as_true() {
    let codec = Codec { prefix: LengthPrefix::Fixed32 };
    match codec.decode(&Shape::Bool, &[2], 0).unwrap() {
        (Value::Bool(b), 1) => assert!(b),
        other => panic!("unexpected {:?}", other),
    }
    let mut buffer = Vec::new();
    codec.encode(&Shape::Bool, &Value::Bool(true), &mut buffer).unwrap();
    assert_eq!(buffer, vec![1]);
}

#[test]
fn duplicate_discriminant_fails_at_construction() {
    let r = union_shape(vec![
        VariantDecl { discriminant: Some(3), fields: vec![] },
        VariantDecl { discriminant: Some(3), fields: vec![] },
    ]);
    assert!(matches!(r, Err(Error::DuplicateDiscriminant(3))));
    let r = union_shape(vec![
        VariantDecl { discriminant: Some(1), fields: vec![] },
        VariantDecl { discriminant: Some(0), fields: vec![] },
        VariantDecl { discriminant: None, fields: vec![] },
    ]);
    assert!(matches!(r, Err(Error::DuplicateDiscriminant(1))));
}

#[test]
fn implicit_discriminants_count_on() {
    let shape = union_shape(vec![
        VariantDecl { discriminant: None, fields: vec![] },
        VariantDecl { discriminant: Some(5), fields: vec![] },
        VariantDecl { discriminant: None, fields: vec![] },
    ])
    .unwrap();
    match &shape {
        Shape::Union(vars) => {
            let ds: Vec<u16> = vars.iter().map(|v| v.discriminant).collect();
            assert_eq!(ds, vec![0, 5, 6]);
        }
        other => panic!("unexpected {:?}", other),
    }
    let codec = Codec { prefix: LengthPrefix::Fixed32 };
    let mut buffer = Vec::new();
    codec.encode(&shape, &Value::Variant(2, vec![]), &mut buffer).unwrap();
    assert_eq!(buffer, vec![0, 6]);
}

#[test]
fn implicit_discriminant_overflow() {
    let r = union_shape(vec![
        VariantDecl { discriminant: Some(u16::MAX), fields: vec![] },
        VariantDecl { discriminant: None, fields: vec![] },
    ]);
    assert!(matches!(r, Err(Error::TryFromInt)));
}

#[test]
fn unknown_discriminant() {
    let shape = union_shape(vec![
        VariantDecl { discriminant: None, fields: vec![Shape::Unsigned(Width::W8)] },
        VariantDecl { discriminant: None, fields: vec![] },
    ])
    .unwrap();
    let codec = Codec { prefix: LengthPrefix::Fixed32 };
    assert!(matches!(
        codec.decode(&shape, &[0, 7, 1, 2, 3], 0),
        Err(Error::InvalidPacketData(7))
    ));
}

#[test]
fn encoding_is_idempotent() {
    let codec = Codec { prefix: LengthPrefix::Fixed32 };
    let shape = Shape::Record(vec![Shape::Text, list(Shape::VarSigned(Width::W64))]);
    let value = Value::Record(vec![
        Value::Text("twice".to_string()),
        Value::List(vec![Value::Signed(-300), Value::Signed(300)]),
    ]);
    let mut a = Vec::new();
    let mut b = Vec::new();
    codec.encode(&shape, &value, &mut a).unwrap();
    codec.encode(&shape, &value, &mut b).unwrap();
    assert_eq!(a, b);
}

#[test]
fn truncated_input_is_io_error() {
    let codec = Codec { prefix: LengthPrefix::Fixed32 };
    let shape = Shape::Record(vec![
        Shape::Unsigned(Width::W8),
        Shape::Text,
        opt(list(Shape::VarUnsigned(Width::W32))),
    ]);
    let value = Value::Record(vec![
        Value::Unsigned(1),
        Value::Text("Hello".to_string()),
        some(Value::List(vec![Value::Unsigned(300), Value::Unsigned(5)])),
    ]);
    let mut buffer = Vec::new();
    codec.encode(&shape, &value, &mut buffer).unwrap();
    for k in 0..buffer.len() {
        assert!(matches!(codec.decode(&shape, &buffer[..k], 0), Err(Error::Io)), "prefix {}", k);
    }
    binserde(shape, value);
}

#[test]
fn array_length_mismatch() {
    let codec = Codec { prefix: LengthPrefix::Fixed32 };
    let shape = Shape::Array(Box::new(Shape::Unsigned(Width::W8)), 2);
    assert!(matches!(codec.decode(&shape, &[0, 0, 0, 3, 1, 2, 3], 0), Err(Error::ArrayLength(3))));
}

#[test]
fn invalid_utf8_text() {
    let codec = Codec { prefix: LengthPrefix::Fixed32 };
    assert!(matches!(
        codec.decode(&Shape::Text, &[0, 0, 0, 2, 0xc3, 0x28], 0),
        Err(Error::FromUtf8Error)
    ));
}

#[test]
fn decode_at_an_offset() {
    let codec = Codec { prefix: LengthPrefix::Fixed32 };
    match codec.decode(&Shape::Unsigned(Width::W16), &[9, 9, 1, 2], 2).unwrap() {
        (Value::Unsigned(x), 4) => assert_eq!(x, 0x0102),
        other => panic!("unexpected {:?}", other),
    }
}
