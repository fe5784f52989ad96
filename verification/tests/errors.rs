use solana_anchor_events::cursor::Cursor;
use solana_anchor_events::decoder::EventDecoder;
use solana_anchor_events::error::{DecodeError, IdlError};
use solana_anchor_events::idl::{ArrayLen, Event, Fields, Idl, Type, TypeBody, TypeDef, Variant};
use solana_anchor_events::value::Value;

fn decode_error(types: Vec<TypeDef>, ty: Type, bytes: &[u8]) -> (DecodeError, usize) {
    let dec = EventDecoder::from_idl(Idl { types, events: Vec::new() }).unwrap();
    let mut cur = Cursor::new(bytes);
    let e = dec.decode_type(&mut cur, &ty).unwrap_err();
    (e, cur.pos)
}

fn defined(name: &str) -> Type {
    Type::Defined { name: name.to_string(), generics: 0 }
}

fn def(name: &str, ty: TypeBody) -> TypeDef {
    TypeDef { name: name.to_string(), ty }
}

#[test]
fn length_overflow() {
    let mut cur = Cursor { data: &[1, 2, 3], pos: 2 };
    let e = cur.take(usize::MAX).unwrap_err();
    assert_eq!(e, DecodeError::LengthOverflow);
    assert_eq!(e.message(), "length overflow");
    assert_eq!(cur.pos, 2);
}

#[test]
fn unexpected_end() {
    let (e, pos) = decode_error(Vec::new(), Type::U64, &[1, 2, 3]);
    assert_eq!(e, DecodeError::UnexpectedEnd { need: 8, offset: 0, have: 3 });
    assert_eq!(e.message(), "unexpected end of buffer: need 8 byte(s) at offset 0, have 3");
    assert_eq!(pos, 0);
    // A length that the buffer does not hold: the length itself is used up.
    let (e, pos) = decode_error(Vec::new(), Type::Bytes, &[12, 0, 0, 0, 1]);
    assert_eq!(e.message(), "unexpected end of buffer: need 12 byte(s) at offset 4, have 5");
    assert_eq!(pos, 4);
}

#[test]
fn enum_tag_out_of_range() {
    let e = def(
        "E",
        TypeBody::Enum { variants: vec![Variant { name: "A".to_string(), fields: None }] },
    );
    let (e, pos) = decode_error(vec![e], defined("E"), &[200]);
    assert_eq!(e, DecodeError::EnumTag { tag: 200 });
    assert_eq!(e.message(), "enum discriminant 200 out of range");
    assert_eq!(pos, 1);
}

#[test]
fn unknown_type() {
    let (e, pos) = decode_error(Vec::new(), defined("Nope"), &[1]);
    assert_eq!(e, DecodeError::UnknownType { name: "Nope".to_string() });
    assert_eq!(e.message(), "unknown defined type 'Nope'");
    assert_eq!(pos, 0);
}

#[test]
fn invalid_utf8() {
    let raw = [0x61, 0xff];
    let (e, _) = decode_error(Vec::new(), Type::String, &[2, 0, 0, 0, 0x61, 0xff]);
    let detail = std::str::from_utf8(&raw).unwrap_err().to_string();
    assert_eq!(e, DecodeError::InvalidUtf8 { detail });
    assert_eq!(
        e.message(),
        "invalid utf-8: invalid utf-8 sequence of 1 bytes from index 1"
    );
}

#[test]
fn generic_types_are_not_supported() {
    let array = Type::Array(Box::new(Type::U8), ArrayLen::Generic("N".to_string()));
    let (e, _) = decode_error(Vec::new(), array, &[1]);
    assert_eq!(e, DecodeError::GenericArrayLength);
    assert_eq!(e.message(), "generic array length is not supported");

    let generic = Type::Defined { name: "Wrapper".to_string(), generics: 1 };
    let (e, _) = decode_error(Vec::new(), generic, &[1]);
    assert_eq!(e, DecodeError::GenericDefined { name: "Wrapper".to_string() });
    assert_eq!(e.message(), "generic defined type 'Wrapper' is not supported");

    let (e, _) = decode_error(Vec::new(), Type::Generic("T".to_string()), &[1]);
    assert_eq!(e, DecodeError::GenericParameter);
    assert_eq!(e.message(), "generic type parameter is not supported");
}

#[test]
fn a_value_without_an_end_is_an_error() {
    let a = def("A", TypeBody::Type { alias: defined("B") });
    let b = def("B", TypeBody::Struct { fields: Some(Fields::Tuple(vec![defined("A")])) });
    let (e, pos) = decode_error(vec![a, b], defined("A"), &[0; 4]);
    assert!(matches!(e, DecodeError::EndlessType { .. }));
    assert_eq!(pos, 0);

    let own = def("Self", TypeBody::Type { alias: defined("Self") });
    let (e, _) = decode_error(vec![own], defined("Self"), &[]);
    assert_eq!(e.message(), "defined type 'Self' has no end");
}

#[test]
fn an_endless_definition_does_no_harm_where_it_is_not_entered() {
    let own = def("Self", TypeBody::Type { alias: defined("Self") });
    let dec = EventDecoder::from_idl(Idl { types: vec![own], events: Vec::new() }).unwrap();
    let none = Type::Array(Box::new(defined("Self")), ArrayLen::Value(0));
    let mut cur = Cursor::new(&[]);
    assert_eq!(dec.decode_type(&mut cur, &none), Ok(Value::List(Vec::new())));
    let absent = Type::Option(Box::new(defined("Self")));
    let mut cur = Cursor::new(&[0]);
    assert_eq!(dec.decode_type(&mut cur, &absent), Ok(Value::Null));
}

#[test]
fn the_first_error_ends_decoding() {
    let fields = Type::Array(Box::new(Type::U16), ArrayLen::Value(3));
    let (e, pos) = decode_error(Vec::new(), fields, &[1, 0, 2]);
    assert_eq!(e, DecodeError::UnexpectedEnd { need: 2, offset: 2, have: 3 });
    assert_eq!(pos, 2);
}

fn event(name: &str) -> Event {
    Event { name: name.to_string(), discriminator: vec![0; 8] }
}

fn idl_error(idl: Idl) -> IdlError {
    match EventDecoder::from_idl(idl) {
        Ok(_) => panic!("a decoder was built"),
        Err(e) => e,
    }
}

#[test]
fn an_event_needs_a_definition() {
    let e = idl_error(Idl { types: Vec::new(), events: vec![event("Gone")] });
    assert_eq!(e, IdlError::MissingType { event: "Gone".to_string() });
    assert_eq!(
        e.message(),
        "event 'Gone' has no matching type definition in idl.types"
    );
}

#[test]
fn an_event_needs_a_struct() {
    let types = vec![
        def("Good", TypeBody::Struct { fields: None }),
        def("Bad", TypeBody::Type { alias: Type::U8 }),
    ];
    // The first event that is wrong decides.
    let events = vec![event("Good"), event("Bad"), event("Gone")];
    let e = idl_error(Idl { types, events });
    assert_eq!(e, IdlError::NotAStruct { event: "Bad".to_string() });
    assert_eq!(e.message(), "event 'Bad' type definition is not a struct");
}

#[test]
fn text_that_is_no_idl() {
    let e = match EventDecoder::new("not json") {
        Ok(_) => panic!("a decoder was built"),
        Err(e) => e,
    };
    assert_eq!(e.message(), "failed to parse IDL: expected ident at line 1 column 2");

    let e = match EventDecoder::new("{\"metadata\": {\"spec\": \"9.9.9\"}}") {
        Ok(_) => panic!("a decoder was built"),
        Err(e) => e,
    };
    assert_eq!(e.message(), "failed to parse IDL: IDL spec not supported: `9.9.9`");
}
