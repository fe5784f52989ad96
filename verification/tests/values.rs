use solana_anchor_events::cursor::Cursor;
use solana_anchor_events::decoder::EventDecoder;
use solana_anchor_events::error::DecodeError;
use solana_anchor_events::idl::{
    ArrayLen, Field, Fields, Idl, Type, TypeBody, TypeDef, Variant,
};
use solana_anchor_events::value::Value;

fn decoder(types: Vec<TypeDef>) -> EventDecoder {
    EventDecoder::from_idl(Idl { types, events: Vec::new() }).unwrap()
}

/// Decodes `bytes` with the definitions `types`; the value and the end position.
fn decode_with(types: Vec<TypeDef>, ty: Type, bytes: &[u8]) -> (Result<Value, DecodeError>, usize) {
    let mut cur = Cursor::new(bytes);
    let r = decoder(types).decode_type(&mut cur, &ty);
    (r, cur.pos)
}

fn decode(ty: Type, bytes: &[u8]) -> (Result<Value, DecodeError>, usize) {
    decode_with(Vec::new(), ty, bytes)
}

fn text(s: &str) -> Value {
    Value::Str(s.to_string())
}

fn defined(name: &str) -> Type {
    Type::Defined { name: name.to_string(), generics: 0 }
}

fn field(name: &str, ty: Type) -> Field {
    Field { name: name.to_string(), ty }
}

fn def(name: &str, ty: TypeBody) -> TypeDef {
    TypeDef { name: name.to_string(), ty }
}

#[test]
fn bool_is_any_byte_but_zero() {
    assert_eq!(decode(Type::Bool, &[0]), (Ok(Value::Bool(false)), 1));
    assert_eq!(decode(Type::Bool, &[1]), (Ok(Value::Bool(true)), 1));
    assert_eq!(decode(Type::Bool, &[2]), (Ok(Value::Bool(true)), 1));
}

#[test]
fn unsigned_integers_are_little_endian() {
    assert_eq!(decode(Type::U8, &[200]), (Ok(Value::Uint(200)), 1));
    assert_eq!(decode(Type::U16, &[0x34, 0x12]), (Ok(Value::Uint(0x1234)), 2));
    assert_eq!(
        decode(Type::U32, &[0x78, 0x56, 0x34, 0x12]),
        (Ok(Value::Uint(0x1234_5678)), 4)
    );
    assert_eq!(
        decode(Type::U64, &0x1122_3344_5566_7788u64.to_le_bytes()),
        (Ok(Value::Uint(0x1122_3344_5566_7788)), 8)
    );
    assert_eq!(decode(Type::U128, &[255; 16]), (Ok(Value::Uint(u128::MAX)), 16));
}

#[test]
fn signed_integers_are_two_s_complement() {
    assert_eq!(decode(Type::I8, &[0x80]), (Ok(Value::Int(-128)), 1));
    assert_eq!(decode(Type::I8, &[0x7f]), (Ok(Value::Int(127)), 1));
    assert_eq!(decode(Type::I16, &(-2i16).to_le_bytes()), (Ok(Value::Int(-2)), 2));
    assert_eq!(
        decode(Type::I32, &i32::MIN.to_le_bytes()),
        (Ok(Value::Int(i32::MIN as i128)), 4)
    );
    assert_eq!(
        decode(Type::I64, &(-1_234_567_890_123i64).to_le_bytes()),
        (Ok(Value::Int(-1_234_567_890_123)), 8)
    );
    assert_eq!(decode(Type::I128, &i128::MIN.to_le_bytes()), (Ok(Value::Int(i128::MIN)), 16));
    assert_eq!(decode(Type::I128, &i128::MAX.to_le_bytes()), (Ok(Value::Int(i128::MAX)), 16));
}

#[test]
fn wide_integers_keep_their_bytes() {
    let mut bytes = [0u8; 32];
    bytes[0] = 5;
    bytes[31] = 0x80;
    assert_eq!(decode(Type::U256, &bytes), (Ok(Value::WideUint(bytes)), 32));
    assert_eq!(decode(Type::I256, &bytes), (Ok(Value::WideInt(bytes)), 32));
}

#[test]
fn floats_keep_their_bits() {
    assert_eq!(
        decode(Type::F32, &1.5f32.to_le_bytes()),
        (Ok(Value::F32(1.5f32.to_bits())), 4)
    );
    assert_eq!(
        decode(Type::F64, &(-0.1f64).to_le_bytes()),
        (Ok(Value::F64((-0.1f64).to_bits())), 8)
    );
    let nan = f64::from_bits(0x7ff8_0000_0000_1234);
    assert_eq!(
        decode(Type::F64, &nan.to_le_bytes()),
        (Ok(Value::F64(0x7ff8_0000_0000_1234)), 8)
    );
}

#[test]
fn bytes_and_strings_have_their_length_in_front() {
    assert_eq!(
        decode(Type::Bytes, &[2, 0, 0, 0, 7, 8, 9]),
        (Ok(Value::Bytes(vec![7, 8])), 6)
    );
    assert_eq!(decode(Type::Bytes, &[0, 0, 0, 0]), (Ok(Value::Bytes(Vec::new())), 4));
    // "h\u{e9}" takes three bytes.
    assert_eq!(
        decode(Type::String, &[3, 0, 0, 0, b'h', 0xc3, 0xa9]),
        (Ok(text("h\u{e9}")), 7)
    );
}

#[test]
fn pubkey_is_base58_text() {
    let mut bytes = [0u8; 32];
    for i in 0..32 {
        bytes[i] = i as u8;
    }
    assert_eq!(
        decode(Type::Pubkey, &bytes),
        (Ok(text("1thX6LZfHDZZKUs92febYZhYRcXddmzfzF2NvTkPNE")), 32)
    );
    assert_eq!(
        decode(Type::Pubkey, &[255; 32]),
        (Ok(text("JEKNVnkbo3jma5nREBBJCDoXFVeKkD56V3xKrvRmWxFG")), 32)
    );
}

#[test]
fn option_has_a_tag_in_front() {
    let ty = || Type::Option(Box::new(Type::U16));
    assert_eq!(decode(ty(), &[0, 9, 9]), (Ok(Value::Null), 1));
    assert_eq!(decode(ty(), &[1, 9, 0]), (Ok(Value::Uint(9)), 3));
    // Any tag but zero announces a value.
    assert_eq!(decode(ty(), &[7, 9, 0]), (Ok(Value::Uint(9)), 3));
}

#[test]
fn an_option_may_hold_an_absent_option() {
    let ty = || Type::Option(Box::new(Type::Option(Box::new(Type::U8))));
    assert_eq!(decode(ty(), &[0, 9]), (Ok(Value::Null), 1));
    assert_eq!(decode(ty(), &[1, 0, 9]), (Ok(Value::Null), 2));
    assert_eq!(decode(ty(), &[1, 1, 9]), (Ok(Value::Uint(9)), 3));
}

#[test]
fn variants_of_one_name_are_told_apart_by_their_tags() {
    let variant = |fields: Option<Fields>| Variant { name: "Same".to_string(), fields };
    let twins = || {
        def(
            "Twins",
            TypeBody::Enum {
                variants: vec![variant(None), variant(Some(Fields::Tuple(vec![Type::U8])))],
            },
        )
    };
    assert_eq!(
        decode_with(vec![twins()], defined("Twins"), &[0, 7]),
        (Ok(text("Same")), 1)
    );
    assert_eq!(
        decode_with(vec![twins()], defined("Twins"), &[1, 7]),
        (
            Ok(Value::Dict(vec![(
                "Same".to_string(),
                Value::List(vec![Value::Uint(7)]),
            )])),
            2
        )
    );
}

#[test]
fn vec_has_its_length_in_front_and_array_has_not() {
    let vec_ty = Type::Vec(Box::new(Type::U8));
    assert_eq!(
        decode(vec_ty, &[3, 0, 0, 0, 7, 8, 9, 10]),
        (Ok(Value::List(vec![Value::Uint(7), Value::Uint(8), Value::Uint(9)])), 7)
    );
    let array_ty = Type::Array(Box::new(Type::I8), ArrayLen::Value(2));
    assert_eq!(
        decode(array_ty, &[255, 1, 0]),
        (Ok(Value::List(vec![Value::Int(-1), Value::Int(1)])), 2)
    );
}

#[test]
fn struct_fields_by_name_or_by_place() {
    let named = def(
        "Named",
        TypeBody::Struct {
            fields: Some(Fields::Named(vec![field("a", Type::U8), field("b", Type::Bool)])),
        },
    );
    assert_eq!(
        decode_with(vec![named], defined("Named"), &[5, 1]),
        (
            Ok(Value::Dict(vec![
                ("a".to_string(), Value::Uint(5)),
                ("b".to_string(), Value::Bool(true)),
            ])),
            2
        )
    );
    let tuple = def(
        "Tuple",
        TypeBody::Struct { fields: Some(Fields::Tuple(vec![Type::U8, Type::U16])) },
    );
    assert_eq!(
        decode_with(vec![tuple], defined("Tuple"), &[5, 6, 0]),
        (Ok(Value::List(vec![Value::Uint(5), Value::Uint(6)])), 3)
    );
    let unit = def("Unit", TypeBody::Struct { fields: None });
    assert_eq!(
        decode_with(vec![unit], defined("Unit"), &[5]),
        (Ok(Value::Dict(Vec::new())), 0)
    );
}

#[test]
fn a_field_named_twice_keeps_its_first_place_and_last_value() {
    let named = def(
        "Twice",
        TypeBody::Struct {
            fields: Some(Fields::Named(vec![
                field("x", Type::U8),
                field("y", Type::U8),
                field("x", Type::U8),
            ])),
        },
    );
    assert_eq!(
        decode_with(vec![named], defined("Twice"), &[1, 2, 3]),
        (
            Ok(Value::Dict(vec![
                ("x".to_string(), Value::Uint(3)),
                ("y".to_string(), Value::Uint(2)),
            ])),
            3
        )
    );
}

fn shape() -> TypeDef {
    def(
        "Shape",
        TypeBody::Enum {
            variants: vec![
                Variant { name: "Empty".to_string(), fields: None },
                Variant {
                    name: "Circle".to_string(),
                    fields: Some(Fields::Named(vec![field("r", Type::U8)])),
                },
                Variant {
                    name: "Pair".to_string(),
                    fields: Some(Fields::Tuple(vec![Type::U8, Type::U8])),
                },
            ],
        },
    )
}

#[test]
fn enum_variants_by_tag() {
    assert_eq!(
        decode_with(vec![shape()], defined("Shape"), &[0, 9]),
        (Ok(text("Empty")), 1)
    );
    assert_eq!(
        decode_with(vec![shape()], defined("Shape"), &[1, 9]),
        (
            Ok(Value::Dict(vec![(
                "Circle".to_string(),
                Value::Dict(vec![("r".to_string(), Value::Uint(9))]),
            )])),
            2
        )
    );
    assert_eq!(
        decode_with(vec![shape()], defined("Shape"), &[2, 8, 9]),
        (
            Ok(Value::Dict(vec![(
                "Pair".to_string(),
                Value::List(vec![Value::Uint(8), Value::Uint(9)]),
            )])),
            3
        )
    );
}

#[test]
fn enum_and_fields_decode_on_their_own() {
    let dec = decoder(vec![shape()]);
    let variants = vec![Variant { name: "Only".to_string(), fields: None }];
    let mut cur = Cursor::new(&[0, 0]);
    assert_eq!(dec.decode_enum(&mut cur, &variants), Ok(text("Only")));
    assert_eq!(cur.pos, 1);

    let fields = Some(Fields::Tuple(vec![defined("Shape"), Type::U8]));
    let mut cur = Cursor::new(&[0, 4]);
    assert_eq!(
        dec.decode_fields(&mut cur, &fields),
        Ok(Value::List(vec![text("Empty"), Value::Uint(4)]))
    );
    assert_eq!(cur.pos, 2);

    let mut cur = Cursor::new(&[0, 4]);
    assert_eq!(dec.decode_defined(&mut cur, "Shape"), Ok(text("Empty")));
    assert_eq!(cur.pos, 1);
}

#[test]
fn alias_stands_for_its_type() {
    let alias = def("Amount", TypeBody::Type { alias: Type::U64 });
    assert_eq!(
        decode_with(vec![alias], defined("Amount"), &7u64.to_le_bytes()),
        (Ok(Value::Uint(7)), 8)
    );
}

#[test]
fn the_last_definition_of_a_name_counts() {
    let first = def("T", TypeBody::Type { alias: Type::U8 });
    let last = def("T", TypeBody::Type { alias: Type::U16 });
    assert_eq!(
        decode_with(vec![first, last], defined("T"), &[1, 1]),
        (Ok(Value::Uint(257)), 2)
    );
}

/// A list whose node holds the rest of it behind an option.
fn chain() -> TypeDef {
    def(
        "Chain",
        TypeBody::Struct {
            fields: Some(Fields::Named(vec![field(
                "next",
                Type::Option(Box::new(defined("Chain"))),
            )])),
        },
    )
}

#[test]
fn a_definition_may_contain_itself_behind_a_byte() {
    let node = |next: Value| Value::Dict(vec![("next".to_string(), next)]);
    assert_eq!(
        decode_with(vec![chain()], defined("Chain"), &[1, 1, 1, 0]),
        (Ok(node(node(node(node(Value::Null))))), 4)
    );
}

#[test]
fn nested_definitions_without_bytes_in_between_are_fine() {
    let a = def("A", TypeBody::Type { alias: defined("B") });
    let b = def("B", TypeBody::Struct { fields: Some(Fields::Tuple(vec![defined("C")])) });
    let c = def("C", TypeBody::Type { alias: Type::U8 });
    assert_eq!(
        decode_with(vec![a, b, c], defined("A"), &[3]),
        (Ok(Value::List(vec![Value::Uint(3)])), 1)
    );
}

#[test]
fn values_in_a_row_use_up_their_bytes_only() {
    let dec = decoder(Vec::new());
    let bytes = [1u8, 2, 0, 3, 0, 0, 0, 255];
    let mut cur = Cursor::new(&bytes);
    assert_eq!(dec.decode_type(&mut cur, &Type::U8), Ok(Value::Uint(1)));
    assert_eq!(dec.decode_type(&mut cur, &Type::U16), Ok(Value::Uint(2)));
    assert_eq!(dec.decode_type(&mut cur, &Type::U32), Ok(Value::Uint(3)));
    assert_eq!(cur.pos, 7);
}
