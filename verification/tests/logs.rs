use base64::engine::general_purpose::STANDARD;
use base64::Engine;
use solana_anchor_events::anchor::parse_idl;
use solana_anchor_events::decoder::EventDecoder;
use solana_anchor_events::idl::{
    ArrayLen, Event, Field, Fields, Idl, Type, TypeBody, TypeDef, Variant,
};
use solana_anchor_events::text::base64_decode;
use solana_anchor_events::value::Value;

const IDL: &str = r#"{
  "address": "11111111111111111111111111111111",
  "metadata": { "name": "demo", "version": "0.1.0", "spec": "0.1.0" },
  "instructions": [],
  "events": [
    { "name": "TradeEvent", "discriminator": [189, 219, 127, 211, 78, 230, 97, 238] },
    { "name": "Ping", "discriminator": [1, 2, 3, 4, 5, 6, 7, 8] },
    { "name": "Twin", "discriminator": [1, 2, 3, 4, 5, 6, 7, 8] },
    { "name": "Short", "discriminator": [9] }
  ],
  "types": [
    {
      "name": "TradeEvent",
      "type": {
        "kind": "struct",
        "fields": [
          { "name": "mint", "type": "pubkey" },
          { "name": "sol_amount", "type": "u64" },
          { "name": "is_buy", "type": "bool" },
          { "name": "note", "type": { "option": "string" } },
          { "name": "side", "type": { "defined": { "name": "Side" } } }
        ]
      }
    },
    {
      "name": "Side",
      "type": {
        "kind": "enum",
        "variants": [
          { "name": "Left" },
          { "name": "Right", "fields": ["u8", "i16"] },
          { "name": "Middle", "fields": [{ "name": "at", "type": { "array": ["u8", 2] } }] }
        ]
      }
    },
    { "name": "Ping", "type": { "kind": "struct" } },
    { "name": "Twin", "type": { "kind": "struct", "fields": ["u8"] } },
    { "name": "Short", "type": { "kind": "struct" } }
  ]
}"#;

const TRADE: [u8; 8] = [189, 219, 127, 211, 78, 230, 97, 238];
const PING: [u8; 8] = [1, 2, 3, 4, 5, 6, 7, 8];

fn decoder() -> EventDecoder {
    match EventDecoder::new(IDL) {
        Ok(decoder) => decoder,
        Err(e) => panic!("{}", e.message()),
    }
}

/// The bytes of a trade by the key of zeros.
fn trade(amount: u64, note: Option<&str>, side: &[u8]) -> Vec<u8> {
    let mut bytes = TRADE.to_vec();
    bytes.extend_from_slice(&[0u8; 32]);
    bytes.extend_from_slice(&amount.to_le_bytes());
    bytes.push(1);
    match note {
        None => bytes.push(0),
        Some(text) => {
            bytes.push(1);
            bytes.extend_from_slice(&(text.len() as u32).to_le_bytes());
            bytes.extend_from_slice(text.as_bytes());
        }
    }
    bytes.extend_from_slice(side);
    bytes
}

fn trade_value(amount: u64, note: Value, side: Value) -> (String, Value) {
    (
        "TradeEvent".to_string(),
        Value::Dict(vec![
            ("mint".to_string(), Value::Str("1".repeat(32))),
            ("sol_amount".to_string(), Value::Uint(amount as u128)),
            ("is_buy".to_string(), Value::Bool(true)),
            ("note".to_string(), note),
            ("side".to_string(), side),
        ]),
    )
}

fn ping_value() -> (String, Value) {
    ("Ping".to_string(), Value::Dict(Vec::new()))
}

fn data_line(bytes: &[u8]) -> String {
    format!("Program data: {}", STANDARD.encode(bytes))
}

fn log_line(bytes: &[u8]) -> String {
    format!("Program log: {}", STANDARD.encode(bytes))
}

fn left() -> Value {
    Value::Str("Left".to_string())
}

#[test]
fn event_names_are_in_order_of_declaration() {
    assert_eq!(decoder().event_names(), vec!["TradeEvent", "Ping", "Twin", "Short"]);
}

#[test]
fn events_are_read_from_lines_of_both_kinds() {
    let bytes = trade(1_000_000_007, Some("hi"), &[0]);
    let expected = vec![trade_value(1_000_000_007, Value::Str("hi".to_string()), left())];
    assert_eq!(decoder().parse_logs(vec![data_line(&bytes)]), expected);
    assert_eq!(decoder().parse_logs(vec![log_line(&bytes)]), expected);
}

#[test]
fn enums_in_events() {
    let right = Value::Dict(vec![(
        "Right".to_string(),
        Value::List(vec![Value::Uint(3), Value::Int(-1)]),
    )]);
    let bytes = trade(1, None, &[1, 3, 255, 255]);
    assert_eq!(
        decoder().decode_event(&bytes),
        Some(trade_value(1, Value::Null, right))
    );
    let middle = Value::Dict(vec![(
        "Middle".to_string(),
        Value::Dict(vec![(
            "at".to_string(),
            Value::List(vec![Value::Uint(4), Value::Uint(5)]),
        )]),
    )]);
    let bytes = trade(1, None, &[2, 4, 5]);
    assert_eq!(
        decoder().decode_event(&bytes),
        Some(trade_value(1, Value::Null, middle))
    );
}

#[test]
fn a_batch_skips_what_is_no_event() {
    let good = trade(5, None, &[0]);
    let mut short = good.clone();
    short.pop();
    let mut unknown = good.clone();
    unknown[0] = 0;
    let lines = vec![
        "Program 6EF8 invoke [1]".to_string(),
        data_line(&good),
        "Program log: Instruction: Buy".to_string(),
        "Program data: not base64!".to_string(),
        data_line(&short),
        data_line(&unknown),
        data_line(&PING[..7]),
        data_line(&PING),
        "program data: AQIDBAUGBwg=".to_string(),
        " Program data: AQIDBAUGBwg=".to_string(),
        String::new(),
        log_line(&good),
    ];
    let event = || trade_value(5, Value::Null, left());
    assert_eq!(decoder().parse_logs(lines), vec![event(), ping_value(), event()]);
    assert_eq!(decoder().parse_logs(Vec::new()), Vec::new());
}

#[test]
fn bytes_after_an_event_make_no_difference() {
    let mut bytes = PING.to_vec();
    bytes.extend_from_slice(&[1, 2, 3]);
    assert_eq!(decoder().decode_event(&bytes), Some(ping_value()));
    let mut bytes = trade(5, None, &[0]);
    bytes.push(99);
    assert_eq!(
        decoder().decode_event(&bytes),
        Some(trade_value(5, Value::Null, left()))
    );
}

#[test]
fn no_byte_of_an_event_can_be_cut_off() {
    let bytes = trade(5, Some("x"), &[1, 3, 0, 0]);
    assert!(decoder().decode_event(&bytes).is_some());
    for n in 0..bytes.len() {
        assert_eq!(decoder().decode_event(&bytes[..n]), None);
    }
}

#[test]
fn the_first_event_with_a_discriminator_counts() {
    let mut bytes = PING.to_vec();
    bytes.push(7);
    assert_eq!(decoder().decode_event(&bytes), Some(ping_value()));
}

#[test]
fn a_discriminator_of_another_length_never_matches() {
    assert_eq!(decoder().decode_event(&[9]), None);
    assert_eq!(decoder().decode_event(&[9, 0, 0, 0, 0, 0, 0, 0]), None);
}

#[test]
fn white_space_around_the_text_makes_no_difference() {
    let text = STANDARD.encode(PING);
    for prefix in ["Program data: ", "Program log: "] {
        for (front, back) in [("", ""), ("  ", "\t\r\n"), ("\u{a0}\u{3000}", "\u{2028} ")] {
            let line = format!("{}{}{}{}", prefix, front, text, back);
            assert_eq!(decoder().parse_line(&line), Some(ping_value()));
        }
    }
    // Within the text it does.
    let line = format!("Program data: {} {}", &text[..4], &text[4..]);
    assert_eq!(decoder().parse_line(&line), None);
    // A zero-width space is no white space.
    let line = format!("Program data: \u{200b}{}", text);
    assert_eq!(decoder().parse_line(&line), None);
}

#[test]
fn a_prefix_is_taken_off_once() {
    let line = format!("Program log: Program data: {}", STANDARD.encode(PING));
    assert_eq!(decoder().parse_line(&line), None);
}

#[test]
fn logs_in_two_parts() {
    let a = vec![data_line(&PING), "noise".to_string()];
    let b = vec![data_line(&trade(1, None, &[0])), log_line(&PING)];
    let whole: Vec<String> = a.iter().chain(b.iter()).cloned().collect();
    let mut parts = decoder().parse_logs(a);
    parts.extend(decoder().parse_logs(b));
    assert_eq!(decoder().parse_logs(whole), parts);
    assert_eq!(parts.len(), 3);
}

#[test]
fn base64_is_canonical() {
    assert_eq!(base64_decode("AQIDBAUGBwg="), Some(PING.to_vec()));
    assert_eq!(base64_decode(""), Some(Vec::new()));
    assert_eq!(base64_decode("Zg=="), Some(b"f".to_vec()));
    assert_eq!(base64_decode("Zm8="), Some(b"fo".to_vec()));
    assert_eq!(base64_decode("Zm9v"), Some(b"foo".to_vec()));
    assert_eq!(base64_decode("+/+/"), Some(vec![0xfb, 0xff, 0xbf]));
    // No padding, too much of it, stray bits, or another alphabet.
    for text in ["AQIDBAUGBwg", "Zm9v====", "Zh==", "Zm9=", "-_-_", "Z", "=", "Zm 9v"] {
        assert_eq!(base64_decode(text), None);
    }
}

#[test]
fn events_in_the_older_layout() {
    let json = r#"{
      "version": "0.1.0",
      "name": "demo",
      "instructions": [],
      "events": [
        { "name": "MyEvent", "fields": [{ "name": "data", "type": "u64", "index": false }] }
      ],
      "metadata": { "address": "11111111111111111111111111111111" }
    }"#;
    let decoder = EventDecoder::new(json).unwrap_or_else(|e| panic!("{}", e.message()));
    assert_eq!(decoder.event_names(), vec!["MyEvent"]);
    // The first eight bytes of the SHA-256 digest of "event:MyEvent".
    let mut bytes = vec![96, 184, 197, 243, 139, 2, 90, 148];
    bytes.extend_from_slice(&77u64.to_le_bytes());
    assert_eq!(
        decoder.decode_event(&bytes),
        Some((
            "MyEvent".to_string(),
            Value::Dict(vec![("data".to_string(), Value::Uint(77))]),
        ))
    );
}

#[test]
fn every_type_expression_is_taken_over() {
    let json = r#"{
      "address": "11111111111111111111111111111111",
      "metadata": { "name": "demo", "version": "0.1.0", "spec": "0.1.0" },
      "instructions": [],
      "events": [{ "name": "All", "discriminator": [1, 2] }],
      "types": [
        {
          "name": "All",
          "type": {
            "kind": "struct",
            "fields": [
              "bool", "u8", "i8", "u16", "i16", "u32", "i32", "f32", "u64", "i64", "f64",
              "u128", "i128", "u256", "i256", "bytes", "string", "pubkey",
              { "option": "u8" },
              { "vec": { "vec": "i8" } },
              { "array": ["u16", 3] },
              { "array": ["u16", { "generic": "N" }] },
              { "defined": { "name": "Other" } },
              { "defined": { "name": "Wrap", "generics": [{ "kind": "type", "type": "u8" }] } },
              { "generic": "T" }
            ]
          }
        },
        { "name": "Other", "type": { "kind": "type", "alias": "u32" } },
        {
          "name": "Pick",
          "type": {
            "kind": "enum",
            "variants": [
              { "name": "A" },
              { "name": "B", "fields": [{ "name": "x", "type": "u8" }] }
            ]
          }
        }
      ]
    }"#;
    let all = vec![
        Type::Bool,
        Type::U8,
        Type::I8,
        Type::U16,
        Type::I16,
        Type::U32,
        Type::I32,
        Type::F32,
        Type::U64,
        Type::I64,
        Type::F64,
        Type::U128,
        Type::I128,
        Type::U256,
        Type::I256,
        Type::Bytes,
        Type::String,
        Type::Pubkey,
        Type::Option(Box::new(Type::U8)),
        Type::Vec(Box::new(Type::Vec(Box::new(Type::I8)))),
        Type::Array(Box::new(Type::U16), ArrayLen::Value(3)),
        Type::Array(Box::new(Type::U16), ArrayLen::Generic("N".to_string())),
        Type::Defined { name: "Other".to_string(), generics: 0 },
        Type::Defined { name: "Wrap".to_string(), generics: 1 },
        Type::Generic("T".to_string()),
    ];
    let expected = Idl {
        types: vec![
            TypeDef {
                name: "All".to_string(),
                ty: TypeBody::Struct { fields: Some(Fields::Tuple(all)) },
            },
            TypeDef { name: "Other".to_string(), ty: TypeBody::Type { alias: Type::U32 } },
            TypeDef {
                name: "Pick".to_string(),
                ty: TypeBody::Enum {
                    variants: vec![
                        Variant { name: "A".to_string(), fields: None },
                        Variant {
                            name: "B".to_string(),
                            fields: Some(Fields::Named(vec![Field {
                                name: "x".to_string(),
                                ty: Type::U8,
                            }])),
                        },
                    ],
                },
            },
        ],
        events: vec![Event { name: "All".to_string(), discriminator: vec![1, 2] }],
    };
    assert_eq!(parse_idl(json), Ok(expected));
}

#[test]
fn an_event_with_unnamed_fields_is_a_list() {
    let decoder = EventDecoder::from_idl(Idl {
        types: vec![TypeDef {
            name: "Pair".to_string(),
            ty: TypeBody::Struct { fields: Some(Fields::Tuple(vec![Type::U8, Type::Bool])) },
        }],
        events: vec![Event { name: "Pair".to_string(), discriminator: PING.to_vec() }],
    })
    .unwrap_or_else(|e| panic!("{}", e.message()));
    let mut bytes = PING.to_vec();
    bytes.extend_from_slice(&[4, 0]);
    assert_eq!(
        decoder.decode_event(&bytes),
        Some((
            "Pair".to_string(),
            Value::List(vec![Value::Uint(4), Value::Bool(false)]),
        ))
    );
}

#[test]
fn an_endless_event_is_skipped() {
    let json = r#"{
      "address": "11111111111111111111111111111111",
      "metadata": { "name": "demo", "version": "0.1.0", "spec": "0.1.0" },
      "instructions": [],
      "events": [{ "name": "Loop", "discriminator": [1, 2, 3, 4, 5, 6, 7, 8] }],
      "types": [
        {
          "name": "Loop",
          "type": { "kind": "struct", "fields": [{ "defined": { "name": "Loop" } }] }
        }
      ]
    }"#;
    let decoder = EventDecoder::new(json).unwrap_or_else(|e| panic!("{}", e.message()));
    assert_eq!(decoder.parse_logs(vec![data_line(&PING)]), Vec::new());
}
