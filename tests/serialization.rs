use packet_binser::codec::{Codec, LengthPrefix};
use packet_binser::discriminant::{union_shape, VariantDecl};
use packet_binser::shape::{Shape, Value, Width};

fn data_shape() -> Shape {
    Shape::Record(vec![Shape::Unsigned(Width::W8), Shape::Text, Shape::Unsigned(Width::W8)])
}

fn data_value() -> Value {
    Value::Record(vec![
        Value::Unsigned(1),
        Value::Text("Hello".to_string()),
        Value::Unsigned(2),
    ])
}

fn client_type_shape() -> Shape {
    union_shape(vec![
        VariantDecl { discriminant: None, fields: vec![] },
        VariantDecl { discriminant: None, fields: vec![] },
    ])
    .unwrap()
}

fn client_packets_shape() -> Shape {
    union_shape(vec![VariantDecl {
        discriminant: Some(69),
        fields: vec![Shape::Unsigned(Width::W32), Shape::Text, client_type_shape()],
    }])
    .unwrap()
}

fn handshake() -> Value {
    Value::Variant(
        0,
        vec![
            Value::Unsigned(1),
            Value::Text("Hello".to_string()),
            Value::Variant(0, vec![]),
        ],
    )
}

#[test]
fn test_struct() {
    let mut buffer = Vec::new();
    let codec = Codec { prefix: LengthPrefix::Fixed32 };
    codec.encode(&data_shape(), &data_value(), &mut buffer).unwrap();
    assert_eq!(&[1, 0, 0, 0, 5, 72, 101, 108, 108, 111, 2], buffer.as_slice());

    let mut buffer = Vec::new();
    let codec = Codec { prefix: LengthPrefix::Varint };
    codec.encode(&data_shape(), &data_value(), &mut buffer).unwrap();
    assert_eq!(&[1, 5, 72, 101, 108, 108, 111, 2], buffer.as_slice());
}

#[test]
fn test_packet() {
    let shape = client_packets_shape();
    let data = handshake();

    let mut buffer = Vec::new();
    let codec = Codec { prefix: LengthPrefix::Fixed32 };
    codec.encode(&shape, &data, &mut buffer).unwrap();
    assert_eq!(
        &[0, 69, 0, 0, 0, 1, 0, 0, 0, 5, 72, 101, 108, 108, 111, 0, 0],
        buffer.as_slice()
    );
    let (data_deserialized, end) = codec.decode(&shape, &buffer, 0).unwrap();
    assert_eq!(format!("{:?}", data), format!("{:?}", data_deserialized));
    assert_eq!(end, buffer.len());

    let mut buffer = Vec::new();
    let codec = Codec { prefix: LengthPrefix::Varint };
    codec.encode(&shape, &data, &mut buffer).unwrap();
    assert_eq!(
        &[0, 69, 0, 0, 0, 1, 5, 72, 101, 108, 108, 111, 0, 0],
        buffer.as_slice()
    );
    let (data_deserialized, _) = codec.decode(&shape, &buffer, 0).unwrap();
    assert_eq!(format!("{:?}", data), format!("{:?}", data_deserialized));
}

#[test]
fn packet_header_comes_first() {
    let codec = Codec { prefix: LengthPrefix::Fixed32 };
    let shape = Shape::Record(vec![Shape::Unsigned(Width::W8)]);
    let value = Value::Record(vec![Value::Unsigned(7)]);
    let mut buffer = Vec::new();
    codec.encode_packet(0x1, &shape, &value, &mut buffer).unwrap();
    assert_eq!(buffer, vec![0, 1, 7]);
    assert_eq!(codec.read_header(&buffer, 0).unwrap(), (1, 2));

    let codec = Codec { prefix: LengthPrefix::Varint };
    let mut buffer = Vec::new();
    codec.encode_packet(300, &shape, &value, &mut buffer).unwrap();
    assert_eq!(buffer, vec![0xac, 0x02, 7]);
    assert_eq!(codec.read_header(&buffer, 0).unwrap(), (300, 2));
}

#[test]
fn packet_header_too_wide_for_fixed() {
    let codec = Codec { prefix: LengthPrefix::Fixed32 };
    let shape = Shape::Record(vec![]);
    let value = Value::Record(vec![]);
    let mut buffer = Vec::new();
    assert_eq!(
        codec.encode_packet(0x1_0000, &shape, &value, &mut buffer),
        Err(packet_binser::error::Error::TryFromInt)
    );
}
