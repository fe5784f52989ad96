//! Decoding events with the definitions of an IDL.
use crate::anchor::{idl_of_json, parse_idl};
use crate::base58::pubkey_to_bs58;
use crate::borsh::{
    decode_defined, decode_enum, decode_fields, decode_items, decode_named, decode_sint,
    decode_string, decode_tuple, decode_type, decode_uint, height, read_prefixed, remaining, Rules,
};
use crate::cursor::{read_u32_len, Cursor, Outcome};
use crate::error::{DecodeError, ErrorModel, IdlError, IdlErrorModel};
use crate::events::{
    decoder_for, event_error, event_index, first_error, lemma_event_index, payload, types_by_name,
    DecoderModel,
};
use crate::idl::{
    fields_model, ArrayLen, BodyModel, Event, EventModel, Field, FieldModel, Fields, Idl, Type,
    TypeBody, TypeDef, TypeModel, Variant,
};
use crate::numbers::{le_sint, le_uint, lemma_le_nat_bound, pow256};
use crate::text::{base64_decode, strip_prefix, trim, utf8_text};
use crate::value::{
    dict_model, lemma_dict_view, lemma_list_view, list_model, set_entry, Value, ValueModel,
};
use vstd::hash_map::StringHashMap;
use vstd::prelude::*;
use vstd::utf8::encode_utf8;

verus! {

/// Decodes Anchor program events from transaction log lines.
pub struct EventDecoder {
    events: Vec<Event>,
    types: StringHashMap<TypeBody>,
}

impl View for EventDecoder {
    type V = DecoderModel;

    closed spec fn view(&self) -> DecoderModel {
        DecoderModel {
            events: self.events@.map_values(|e: Event| e@),
            types: self.types@.map_values(|b: TypeBody| b@),
        }
    }
}

/// Whether a function that moved its cursor from `before` to `after` and
/// returned `r` did what `o` says.
pub open spec fn agrees(
    r: Result<Value, DecodeError>,
    before: Cursor,
    after: Cursor,
    o: Outcome<ValueModel>,
) -> bool {
    &&& after.is_after(before, o.used)
    &&& match r {
        Ok(value) => o.result == Ok::<ValueModel, ErrorModel>(value@),
        Err(e) => o.result == Err::<ValueModel, ErrorModel>(e@),
    }
}

/// How many bytes are left in front of the cursor.
fn left(cur: &Cursor) -> (r: usize)
    ensures
        r == remaining(cur.data@, cur.pos as nat),
{
    if cur.pos <= cur.data.len() {
        cur.data.len() - cur.pos
    } else {
        0
    }
}

/// Takes an unsigned integer of `n` bytes.
fn uint_at(cur: &mut Cursor, n: usize) -> (r: Result<Value, DecodeError>)
    requires
        n <= 16,
    ensures
        agrees(
            r,
            *old(cur),
            *final(cur),
            decode_uint(old(cur).data@, old(cur).pos as nat, n as nat),
        ),
{
    match cur.take(n) {
        Ok(bytes) => Ok(Value::Uint(le_uint(bytes))),
        Err(e) => Err(e),
    }
}

/// Takes a two's complement integer of `n` bytes.
fn sint_at(cur: &mut Cursor, n: usize) -> (r: Result<Value, DecodeError>)
    requires
        n <= 16,
    ensures
        agrees(
            r,
            *old(cur),
            *final(cur),
            decode_sint(old(cur).data@, old(cur).pos as nat, n as nat),
        ),
{
    match cur.take(n) {
        Ok(bytes) => Ok(Value::Int(le_sint(bytes))),
        Err(e) => Err(e),
    }
}

/// Takes bytes with their number in front.
fn prefixed<'a>(cur: &mut Cursor<'a>) -> (r: Result<&'a [u8], DecodeError>)
    ensures
        ({
            let o = read_prefixed(old(cur).data@, old(cur).pos as nat);
            &&& final(cur).is_after(*old(cur), o.used)
            &&& match r {
                Ok(bytes) => o.result == Ok::<Seq<u8>, ErrorModel>(bytes@),
                Err(e) => o.result == Err::<Seq<u8>, ErrorModel>(e@),
            }
        }),
{
    match read_u32_len(cur) {
        Ok(n) => cur.take(n),
        Err(e) => Err(e),
    }
}

/// Takes a string: its UTF-8 bytes with their number in front.
fn string_at(cur: &mut Cursor) -> (r: Result<Value, DecodeError>)
    ensures
        agrees(
            r,
            *old(cur),
            *final(cur),
            decode_string(old(cur).data@, old(cur).pos as nat),
        ),
{
    match prefixed(cur) {
        Ok(bytes) => match utf8_text(bytes) {
            Ok(text) => Ok(Value::Str(text)),
            Err(detail) => Err(DecodeError::InvalidUtf8 { detail }),
        },
        Err(e) => Err(e),
    }
}

/// A value that is one of the types without parts.
fn scalar_at(cur: &mut Cursor, ty: &Type, rules: Ghost<Rules>, depth: Ghost<nat>) -> (r: Option<
    Result<Value, DecodeError>,
>)
    ensures
        match r {
            Some(r) => agrees(
                r,
                *old(cur),
                *final(cur),
                decode_type(rules@, old(cur).data@, ty@, old(cur).pos as nat, depth@),
            ),
            None => *final(cur) == *old(cur) && (ty is Option || ty is Vec || ty is Array
                || ty is Defined || ty is Generic),
        },
{
    let r = match ty {
        Type::Bool => match cur.take(1) {
            Ok(bytes) => Ok(Value::Bool(bytes[0] != 0)),
            Err(e) => Err(e),
        },
        Type::U8 => uint_at(cur, 1),
        Type::I8 => sint_at(cur, 1),
        Type::U16 => uint_at(cur, 2),
        Type::I16 => sint_at(cur, 2),
        Type::U32 => uint_at(cur, 4),
        Type::I32 => sint_at(cur, 4),
        Type::F32 => match cur.take(4) {
            Ok(bytes) => {
                proof {
                    lemma_le_nat_bound(bytes@);
                    reveal_with_fuel(pow256, 5);
                }
                Ok(Value::F32(le_uint(bytes) as u32))
            },
            Err(e) => Err(e),
        },
        Type::U64 => uint_at(cur, 8),
        Type::I64 => sint_at(cur, 8),
        Type::F64 => match cur.take(8) {
            Ok(bytes) => {
                proof {
                    lemma_le_nat_bound(bytes@);
                    reveal_with_fuel(pow256, 9);
                }
                Ok(Value::F64(le_uint(bytes) as u64))
            },
            Err(e) => Err(e),
        },
        Type::U128 => uint_at(cur, 16),
        Type::I128 => sint_at(cur, 16),
        Type::U256 => match cur.take_array::<32>() {
            Ok(bytes) => Ok(Value::WideUint(bytes)),
            Err(e) => Err(e),
        },
        Type::I256 => match cur.take_array::<32>() {
            Ok(bytes) => Ok(Value::WideInt(bytes)),
            Err(e) => Err(e),
        },
        Type::Bytes => match prefixed(cur) {
            Ok(bytes) => Ok(Value::Bytes(vstd::slice::slice_to_vec(bytes))),
            Err(e) => Err(e),
        },
        Type::String => string_at(cur),
        Type::Pubkey => match cur.take_array::<32>() {
            Ok(bytes) => Ok(Value::Str(pubkey_to_bs58(bytes.as_slice()))),
            Err(e) => Err(e),
        },
        _ => return None,
    };
    Some(r)
}

/// Where the first `m` items do not decode, more do not either, and in the same
/// way.
proof fn lemma_items_error(
    rules: Rules,
    data: Seq<u8>,
    ty: TypeModel,
    m: nat,
    n: nat,
    pos: nat,
    depth: nat,
)
    requires
        m <= n,
        decode_items(rules, data, ty, m, pos, depth).result is Err,
    ensures
        decode_items(rules, data, ty, n, pos, depth) == decode_items(
            rules,
            data,
            ty,
            m,
            pos,
            depth,
        ),
    decreases n,
{
    if m < n {
        lemma_items_error(rules, data, ty, m, (n - 1) as nat, pos, depth);
    }
}

/// Where the first `m` unnamed fields do not decode, more do not either, and in
/// the same way.
proof fn lemma_tuple_error(
    rules: Rules,
    data: Seq<u8>,
    types: Seq<TypeModel>,
    m: nat,
    n: nat,
    pos: nat,
    depth: nat,
)
    requires
        m <= n,
        decode_tuple(rules, data, types, m, pos, depth).result is Err,
    ensures
        decode_tuple(rules, data, types, n, pos, depth) == decode_tuple(
            rules,
            data,
            types,
            m,
            pos,
            depth,
        ),
    decreases n,
{
    if m < n {
        lemma_tuple_error(rules, data, types, m, (n - 1) as nat, pos, depth);
    }
}

/// Where the first `m` named fields do not decode, more do not either, and in the
/// same way.
proof fn lemma_named_error(
    rules: Rules,
    data: Seq<u8>,
    fields: Seq<FieldModel>,
    m: nat,
    n: nat,
    pos: nat,
    depth: nat,
)
    requires
        m <= n,
        decode_named(rules, data, fields, m, pos, depth).result is Err,
    ensures
        decode_named(rules, data, fields, n, pos, depth) == decode_named(
            rules,
            data,
            fields,
            m,
            pos,
            depth,
        ),
    decreases n,
{
    if m < n {
        lemma_named_error(rules, data, fields, m, (n - 1) as nat, pos, depth);
    }
}

impl EventDecoder {
    /// How many definitions there are.
    fn full_depth(&self) -> (r: usize)
        ensures
            r == self@.depth(),
    {
        let n = self.types.len();
        assert(self@.types.dom() =~= self.types@.dom());
        n
    }

    /// The depth for what follows, where `cur` stood with `rest` bytes in front
    /// of it when `depth` was left.
    fn depth_now(&self, cur: &Cursor, rest: usize, depth: usize) -> (r: usize)
        ensures
            r == (if remaining(cur.data@, cur.pos as nat) < rest {
                self@.depth()
            } else {
                depth as nat
            }),
    {
        if left(cur) < rest {
            self.full_depth()
        } else {
            depth
        }
    }

    /// Decodes a value of type `ty`, with `depth` left.
    fn type_at(&self, cur: &mut Cursor, ty: &Type, depth: usize) -> (r: Result<Value, DecodeError>)
        ensures
            agrees(
                r,
                *old(cur),
                *final(cur),
                decode_type(
                    self@.rules(),
                    old(cur).data@,
                    ty@,
                    old(cur).pos as nat,
                    depth as nat,
                ),
            ),
        decreases
            remaining(old(cur).data@, old(cur).pos as nat),
            depth as nat,
            1nat,
            height(ty@),
            0nat,
    {
        broadcast use lemma_list_view;

        if let Some(r) = scalar_at(cur, ty, Ghost(self@.rules()), Ghost(depth as nat)) {
            return r;
        }
        let rest = left(cur);
        match ty {
            Type::Option(inner) => {
                let bytes = match cur.take(1) {
                    Ok(bytes) => bytes,
                    Err(e) => return Err(e),
                };
                if bytes[0] == 0 {
                    Ok(Value::Null)
                } else {
                    let depth = self.depth_now(cur, rest, depth);
                    self.type_at(cur, inner, depth)
                }
            },
            Type::Vec(inner) => {
                let n = match read_u32_len(cur) {
                    Ok(n) => n,
                    Err(e) => return Err(e),
                };
                let depth = self.depth_now(cur, rest, depth);
                match self.items_at(cur, inner, n, depth) {
                    Ok(items) => Ok(Value::List(items)),
                    Err(e) => Err(e),
                }
            },
            Type::Array(inner, len) => match len {
                ArrayLen::Value(n) => match self.items_at(cur, inner, *n, depth) {
                    Ok(items) => Ok(Value::List(items)),
                    Err(e) => Err(e),
                },
                ArrayLen::Generic(_) => Err(DecodeError::GenericArrayLength),
            },
            Type::Defined { name, generics } => {
                if *generics != 0 {
                    return Err(DecodeError::GenericDefined { name: name.clone() });
                }
                self.defined_at(cur, name.as_str(), depth)
            },
            _ => Err(DecodeError::GenericParameter),
        }
    }

    /// Decodes `n` values of type `ty` in a row, with `depth` left.
    fn items_at(&self, cur: &mut Cursor, ty: &Type, n: usize, depth: usize) -> (r: Result<
        Vec<Value>,
        DecodeError,
    >)
        ensures
            ({
                let o = decode_items(
                    self@.rules(),
                    old(cur).data@,
                    ty@,
                    n as nat,
                    old(cur).pos as nat,
                    depth as nat,
                );
                &&& final(cur).is_after(*old(cur), o.used)
                &&& match r {
                    Ok(items) => o.result == Ok::<Seq<ValueModel>, ErrorModel>(
                        list_model(items@),
                    ),
                    Err(e) => o.result == Err::<Seq<ValueModel>, ErrorModel>(e@),
                }
            }),
        decreases
            remaining(old(cur).data@, old(cur).pos as nat),
            depth as nat,
            1nat,
            height(ty@),
            n as nat,
    {
        let rest = left(cur);
        let ghost rules = self@.rules();
        let ghost data = cur.data@;
        let ghost start = cur.pos as nat;
        let mut items: Vec<Value> = Vec::new();
        let mut i: usize = 0;
        assert(list_model(items@) =~= Seq::<ValueModel>::empty());
        while i < n
            invariant
                i <= n,
                rules == self@.rules(),
                data == old(cur).data@,
                start == old(cur).pos,
                rest == remaining(data, start),
                cur.data@ == data,
                cur.pos >= start,
                decode_items(rules, data, ty@, i as nat, start, depth as nat) == (Outcome {
                    result: Ok::<Seq<ValueModel>, ErrorModel>(list_model(items@)),
                    used: (cur.pos - start) as nat,
                }),
            decreases n - i,
        {
            let now = self.depth_now(cur, rest, depth);
            match self.type_at(cur, ty, now) {
                Ok(value) => {
                    let ghost before = list_model(items@);
                    items.push(value);
                    assert(list_model(items@) =~= before.push(value@));
                },
                Err(e) => {
                    proof {
                        lemma_items_error(
                            rules,
                            data,
                            ty@,
                            (i + 1) as nat,
                            n as nat,
                            start,
                            depth as nat,
                        );
                    }
                    return Err(e);
                },
            }
            i = i + 1;
        }
        Ok(items)
    }

    /// Decodes unnamed fields, with `depth` left.
    fn tuple_at(&self, cur: &mut Cursor, types: &Vec<Type>, depth: usize) -> (r: Result<
        Vec<Value>,
        DecodeError,
    >)
        ensures
            ({
                let tys = types@.map_values(|t: Type| t@);
                let o = decode_tuple(
                    self@.rules(),
                    old(cur).data@,
                    tys,
                    tys.len(),
                    old(cur).pos as nat,
                    depth as nat,
                );
                &&& final(cur).is_after(*old(cur), o.used)
                &&& match r {
                    Ok(items) => o.result == Ok::<Seq<ValueModel>, ErrorModel>(
                        list_model(items@),
                    ),
                    Err(e) => o.result == Err::<Seq<ValueModel>, ErrorModel>(e@),
                }
            }),
        decreases
            remaining(old(cur).data@, old(cur).pos as nat),
            depth as nat,
            2nat,
            0nat,
            0nat,
    {
        let rest = left(cur);
        let ghost rules = self@.rules();
        let ghost data = cur.data@;
        let ghost start = cur.pos as nat;
        let ghost tys = types@.map_values(|t: Type| t@);
        let mut items: Vec<Value> = Vec::new();
        let mut i: usize = 0;
        assert(list_model(items@) =~= Seq::<ValueModel>::empty());
        while i < types.len()
            invariant
                i <= types@.len(),
                rules == self@.rules(),
                tys == types@.map_values(|t: Type| t@),
                data == old(cur).data@,
                start == old(cur).pos,
                rest == remaining(data, start),
                cur.data@ == data,
                cur.pos >= start,
                decode_tuple(rules, data, tys, i as nat, start, depth as nat) == (Outcome {
                    result: Ok::<Seq<ValueModel>, ErrorModel>(list_model(items@)),
                    used: (cur.pos - start) as nat,
                }),
            decreases types@.len() - i,
        {
            let now = self.depth_now(cur, rest, depth);
            match self.type_at(cur, &types[i], now) {
                Ok(value) => {
                    let ghost before = list_model(items@);
                    items.push(value);
                    assert(list_model(items@) =~= before.push(value@));
                },
                Err(e) => {
                    proof {
                        lemma_tuple_error(
                            rules,
                            data,
                            tys,
                            (i + 1) as nat,
                            tys.len(),
                            start,
                            depth as nat,
                        );
                    }
                    return Err(e);
                },
            }
            i = i + 1;
        }
        Ok(items)
    }

    /// Decodes named fields, with `depth` left.
    fn named_at(&self, cur: &mut Cursor, fields: &Vec<Field>, depth: usize) -> (r: Result<
        Vec<(String, Value)>,
        DecodeError,
    >)
        ensures
            ({
                let named = fields@.map_values(|f: Field| f@);
                let o = decode_named(
                    self@.rules(),
                    old(cur).data@,
                    named,
                    named.len(),
                    old(cur).pos as nat,
                    depth as nat,
                );
                &&& final(cur).is_after(*old(cur), o.used)
                &&& match r {
                    Ok(entries) => o.result == Ok::<Seq<(Seq<char>, ValueModel)>, ErrorModel>(
                        dict_model(entries@),
                    ),
                    Err(e) => o.result == Err::<Seq<(Seq<char>, ValueModel)>, ErrorModel>(e@),
                }
            }),
        decreases
            remaining(old(cur).data@, old(cur).pos as nat),
            depth as nat,
            2nat,
            0nat,
            0nat,
    {
        let rest = left(cur);
        let ghost rules = self@.rules();
        let ghost data = cur.data@;
        let ghost start = cur.pos as nat;
        let ghost named = fields@.map_values(|f: Field| f@);
        let mut entries: Vec<(String, Value)> = Vec::new();
        let mut i: usize = 0;
        assert(dict_model(entries@) =~= Seq::<(Seq<char>, ValueModel)>::empty());
        while i < fields.len()
            invariant
                i <= fields@.len(),
                rules == self@.rules(),
                named == fields@.map_values(|f: Field| f@),
                data == old(cur).data@,
                start == old(cur).pos,
                rest == remaining(data, start),
                cur.data@ == data,
                cur.pos >= start,
                decode_named(rules, data, named, i as nat, start, depth as nat) == (Outcome {
                    result: Ok::<Seq<(Seq<char>, ValueModel)>, ErrorModel>(dict_model(entries@)),
                    used: (cur.pos - start) as nat,
                }),
            decreases fields@.len() - i,
        {
            let now = self.depth_now(cur, rest, depth);
            match self.type_at(cur, &fields[i].ty, now) {
                Ok(value) => {
                    set_entry(&mut entries, &fields[i].name, value);
                },
                Err(e) => {
                    proof {
                        lemma_named_error(
                            rules,
                            data,
                            named,
                            (i + 1) as nat,
                            named.len(),
                            start,
                            depth as nat,
                        );
                    }
                    return Err(e);
                },
            }
            i = i + 1;
        }
        Ok(entries)
    }

    /// Decodes the fields of a struct or variant, with `depth` left.
    fn fields_at(&self, cur: &mut Cursor, fields: &Option<Fields>, depth: usize) -> (r: Result<
        Value,
        DecodeError,
    >)
        ensures
            agrees(
                r,
                *old(cur),
                *final(cur),
                decode_fields(
                    self@.rules(),
                    old(cur).data@,
                    fields_model(*fields),
                    old(cur).pos as nat,
                    depth as nat,
                ),
            ),
        decreases
            remaining(old(cur).data@, old(cur).pos as nat),
            depth as nat,
            3nat,
            0nat,
            0nat,
    {
        broadcast use lemma_list_view, lemma_dict_view;

        match fields {
            None => {
                let entries: Vec<(String, Value)> = Vec::new();
                assert(dict_model(entries@) =~= Seq::<(Seq<char>, ValueModel)>::empty());
                Ok(Value::Dict(entries))
            },
            Some(Fields::Named(named)) => match self.named_at(cur, named, depth) {
                Ok(entries) => Ok(Value::Dict(entries)),
                Err(e) => Err(e),
            },
            Some(Fields::Tuple(types)) => match self.tuple_at(cur, types, depth) {
                Ok(items) => Ok(Value::List(items)),
                Err(e) => Err(e),
            },
        }
    }

    /// Decodes a value of an enum, with `depth` left.
    fn enum_at(&self, cur: &mut Cursor, variants: &Vec<Variant>, depth: usize) -> (r: Result<
        Value,
        DecodeError,
    >)
        ensures
            agrees(
                r,
                *old(cur),
                *final(cur),
                decode_enum(
                    self@.rules(),
                    old(cur).data@,
                    variants@.map_values(|v: Variant| v@),
                    old(cur).pos as nat,
                    depth as nat,
                ),
            ),
        decreases
            remaining(old(cur).data@, old(cur).pos as nat),
            depth as nat,
            3nat,
            0nat,
            0nat,
    {
        broadcast use lemma_dict_view;

        let rest = left(cur);
        let tag = match cur.take(1) {
            Ok(bytes) => bytes[0] as usize,
            Err(e) => return Err(e),
        };
        if tag >= variants.len() {
            return Err(DecodeError::EnumTag { tag });
        }
        let variant = &variants[tag];
        if variant.fields.is_none() {
            return Ok(Value::Str(variant.name.clone()));
        }
        let now = self.depth_now(cur, rest, depth);
        match self.fields_at(cur, &variant.fields, now) {
            Ok(inner) => {
                let mut entries: Vec<(String, Value)> = Vec::new();
                entries.push((variant.name.clone(), inner));
                assert(dict_model(entries@) =~= seq![(variant.name@, inner@)]);
                Ok(Value::Dict(entries))
            },
            Err(e) => Err(e),
        }
    }

    /// Decodes a value of the definition called `name`, with `depth` left.
    fn defined_at(&self, cur: &mut Cursor, name: &str, depth: usize) -> (r: Result<
        Value,
        DecodeError,
    >)
        ensures
            agrees(
                r,
                *old(cur),
                *final(cur),
                decode_defined(
                    self@.rules(),
                    old(cur).data@,
                    name@,
                    old(cur).pos as nat,
                    depth as nat,
                ),
            ),
        decreases
            remaining(old(cur).data@, old(cur).pos as nat),
            depth as nat,
            0nat,
            0nat,
            0nat,
    {
        let body = match self.types.get(name) {
            Some(body) => body,
            None => return Err(DecodeError::UnknownType { name: String::from_str(name) }),
        };
        if depth == 0 {
            return Err(DecodeError::EndlessType { name: String::from_str(name) });
        }
        match body {
            TypeBody::Struct { fields } => self.fields_at(cur, fields, depth - 1),
            TypeBody::Enum { variants } => self.enum_at(cur, variants, depth - 1),
            TypeBody::Type { alias } => self.type_at(cur, alias, depth - 1),
        }
    }
}

/// Where one of the first `m` events is wrong, it decides for all.
proof fn lemma_first_error(types: Map<Seq<char>, BodyModel>, events: Seq<EventModel>, m: int)
    requires
        0 <= m <= events.len(),
        first_error(types, events.take(m)) is Some,
    ensures
        first_error(types, events) == first_error(types, events.take(m)),
    decreases events.len(),
{
    if m == events.len() {
        assert(events.take(m) =~= events);
    } else {
        let front = events.drop_last();
        assert(front.take(m) =~= events.take(m));
        lemma_first_error(types, front, m);
    }
}

/// Whether two byte strings are equal.
fn same_bytes(a: &[u8], b: &[u8]) -> (r: bool)
    ensures
        r == (a@ == b@),
{
    if a.len() != b.len() {
        return false;
    }
    let mut i: usize = 0;
    while i < a.len()
        invariant
            i <= a@.len() == b@.len(),
            forall|k: int| 0 <= k < i ==> a@[k] == b@[k],
        decreases a@.len() - i,
    {
        if a[i] != b[i] {
            return false;
        }
        i = i + 1;
    }
    assert(a@ =~= b@);
    true
}

/// The part of a log line that may hold an event.
fn line_payload(line: &str) -> (r: Option<&str>)
    ensures
        match r {
            Some(text) => payload(line@) == Some(text@),
            None => payload(line@) is None,
        },
{
    match strip_prefix(line, "Program data: ") {
        Some(rest) => Some(trim(rest)),
        None => match strip_prefix(line, "Program log: ") {
            Some(rest) => Some(trim(rest)),
            None => None,
        },
    }
}

/// Decoded events as mathematical values.
pub open spec fn events_model(events: Seq<(String, Value)>) -> Seq<(Seq<char>, ValueModel)> {
    events.map_values(|e: (String, Value)| (e.0@, e.1@))
}

/// The model of events has as many, in the same order, each with its name and its
/// value.
pub proof fn lemma_events_model(events: Seq<(String, Value)>)
    ensures
        events_model(events).len() == events.len(),
        forall|i: int|
            0 <= i < events.len() ==> (#[trigger] events_model(events)[i]).0 == events[i].0@
                && events_model(events)[i].1 == events[i].1@,
{
}

/// A function that did what a step says has moved its cursor over the bytes that
/// the step uses up, and returned the step's value or error.
pub proof fn lemma_agrees(
    r: Result<Value, DecodeError>,
    before: Cursor,
    after: Cursor,
    o: Outcome<ValueModel>,
)
    ensures
        agrees(r, before, after, o) <==> {
            &&& after.data@ == before.data@
            &&& after.pos == before.pos + o.used
            &&& r is Ok <==> o.result is Ok
            &&& r is Ok ==> r->Ok_0@ == o.result->Ok_0
            &&& r is Err ==> r->Err_0@ == o.result->Err_0
        },
{
}

/// Indexes definitions by name; of several with one name, the last counts.
fn index_types(defs: Vec<TypeDef>) -> (r: StringHashMap<TypeBody>)
    ensures
        r@.map_values(|b: TypeBody| b@) == types_by_name(defs@.map_values(|d: TypeDef| d@)),
{
    let ghost all = defs@.map_values(|d: TypeDef| d@);
    let mut types: StringHashMap<TypeBody> = StringHashMap::new();
    assert(types@.map_values(|b: TypeBody| b@) =~= Map::<Seq<char>, BodyModel>::empty());
    for def in iter: defs
        invariant
            iter.seq().map_values(|d: TypeDef| d@) == all,
            types@.map_values(|b: TypeBody| b@) == types_by_name(all.take(iter.index() as int)),
    {
        let ghost i = iter.index() as int;
        let ghost before = types@;
        assert(all.take(i + 1).drop_last() =~= all.take(i));
        assert(all[i] == def@);
        types.insert(def.name, def.ty);
        assert(types@.map_values(|b: TypeBody| b@) =~= before.map_values(
            |b: TypeBody| b@,
        ).insert(def.name@, def.ty@));
    }
    assert(all.take(all.len() as int) =~= all);
    types
}

impl EventDecoder {
    /// Parses an Anchor IDL from JSON and builds the decoder for it.
    pub fn new(idl_json: &str) -> (r: Result<EventDecoder, IdlError>)
        ensures
            match idl_of_json(encode_utf8(idl_json@), usize::MAX as nat) {
                Ok(idl) => match r {
                    Ok(decoder) => decoder_for(idl) == Ok::<DecoderModel, IdlErrorModel>(decoder@),
                    Err(e) => decoder_for(idl) == Err::<DecoderModel, IdlErrorModel>(e@),
                },
                Err(detail) => r matches Err(e) && e@ == (IdlErrorModel::Parse { detail }),
            },
    {
        match parse_idl(idl_json) {
            Ok(idl) => EventDecoder::from_idl(idl),
            Err(detail) => Err(IdlError::Parse { detail }),
        }
    }

    /// Builds the decoder for an IDL. Every event needs a struct of its name.
    pub fn from_idl(idl: Idl) -> (r: Result<EventDecoder, IdlError>)
        ensures
            match r {
                Ok(decoder) => decoder_for(idl@) == Ok::<DecoderModel, IdlErrorModel>(decoder@),
                Err(e) => decoder_for(idl@) == Err::<DecoderModel, IdlErrorModel>(e@),
            },
            r matches Ok(decoder) ==> decoder@.events == idl@.events && decoder@.types
                == types_by_name(idl@.types),
    {
        let ghost model = idl@;
        let types = index_types(idl.types);
        let decoder = EventDecoder { events: idl.events, types };
        let ghost view = decoder@;
        assert(view.events == model.events);
        let mut i: usize = 0;
        while i < decoder.events.len()
            invariant
                i <= decoder.events@.len(),
                view == decoder@,
                model == idl@,
                view.types == types_by_name(model.types),
                view.events == model.events,
                first_error(view.types, view.events.take(i as int)) is None,
            decreases decoder.events@.len() - i,
        {
            let event = &decoder.events[i];
            assert(view.events[i as int] == event@);
            assert(view.events.take(i + 1).drop_last() =~= view.events.take(i as int));
            let wrong = match decoder.types.get(event.name.as_str()) {
                None => Some(IdlError::MissingType { event: event.name.clone() }),
                Some(TypeBody::Struct { fields: _ }) => None,
                Some(_) => Some(IdlError::NotAStruct { event: event.name.clone() }),
            };
            if let Some(e) = wrong {
                proof {
                    assert(view.events.take(i + 1).last() == event@);
                    assert(event_error(view.types, event@) == Some(e@));
                    lemma_first_error(view.types, view.events, i + 1);
                }
                return Err(e);
            }
            i = i + 1;
        }
        assert(view.events.take(i as int) =~= view.events);
        Ok(decoder)
    }

    /// Decodes a value of type `ty`.
    pub fn decode_type(&self, cur: &mut Cursor, ty: &Type) -> (r: Result<Value, DecodeError>)
        ensures
            agrees(
                r,
                *old(cur),
                *final(cur),
                decode_type(
                    self@.rules(),
                    old(cur).data@,
                    ty@,
                    old(cur).pos as nat,
                    self@.depth(),
                ),
            ),
    {
        self.type_at(cur, ty, self.full_depth())
    }

    /// Decodes a value of the definition called `name`.
    pub fn decode_defined(&self, cur: &mut Cursor, name: &str) -> (r: Result<Value, DecodeError>)
        ensures
            agrees(
                r,
                *old(cur),
                *final(cur),
                decode_defined(
                    self@.rules(),
                    old(cur).data@,
                    name@,
                    old(cur).pos as nat,
                    self@.depth(),
                ),
            ),
    {
        self.defined_at(cur, name, self.full_depth())
    }

    /// Decodes a value of an enum: a byte selects the variant. A variant without
    /// fields decodes to its name, one with fields to a dictionary from its name
    /// to them.
    pub fn decode_enum(&self, cur: &mut Cursor, variants: &Vec<Variant>) -> (r: Result<
        Value,
        DecodeError,
    >)
        ensures
            agrees(
                r,
                *old(cur),
                *final(cur),
                decode_enum(
                    self@.rules(),
                    old(cur).data@,
                    variants@.map_values(|v: Variant| v@),
                    old(cur).pos as nat,
                    self@.depth(),
                ),
            ),
    {
        self.enum_at(cur, variants, self.full_depth())
    }

    /// Decodes fields: named ones to a dictionary, unnamed ones to a list, and
    /// where there are none, to an empty dictionary.
    pub fn decode_fields(&self, cur: &mut Cursor, fields: &Option<Fields>) -> (r: Result<
        Value,
        DecodeError,
    >)
        ensures
            agrees(
                r,
                *old(cur),
                *final(cur),
                decode_fields(
                    self@.rules(),
                    old(cur).data@,
                    fields_model(*fields),
                    old(cur).pos as nat,
                    self@.depth(),
                ),
            ),
    {
        self.fields_at(cur, fields, self.full_depth())
    }

    /// The position of the first event with this discriminator.
    fn find_event(&self, discriminator: &[u8]) -> (r: usize)
        ensures
            r == event_index(self@.events, discriminator@),
            r <= self.events@.len(),
    {
        let ghost events = self@.events;
        let mut i: usize = 0;
        while i < self.events.len()
            invariant
                i <= self.events@.len(),
                events == self@.events,
                forall|k: int|
                    0 <= k < i ==> (#[trigger] events[k]).discriminator != discriminator@,
            decreases self.events@.len() - i,
        {
            assert(events[i as int].discriminator == self.events@[i as int].discriminator@);
            if same_bytes(self.events[i].discriminator.as_slice(), discriminator) {
                proof {
                    lemma_event_index(events, discriminator@);
                }
                return i;
            }
            i = i + 1;
        }
        proof {
            lemma_event_index(events, discriminator@);
        }
        i
    }

    /// Decodes the event that `bytes` hold: eight bytes that tell which event it
    /// is, then its fields.
    pub fn decode_event(&self, bytes: &[u8]) -> (r: Option<(String, Value)>)
        ensures
            match r {
                Some(event) => self@.event(bytes@) == Some((event.0@, event.1@)),
                None => self@.event(bytes@) is None,
            },
    {
        if bytes.len() < 8 {
            return None;
        }
        let (discriminator, body) = bytes.split_at(8);
        assert(discriminator@ =~= bytes@.take(8));
        assert(body@ =~= bytes@.skip(8));
        let i = self.find_event(discriminator);
        if i >= self.events.len() {
            return None;
        }
        let name = &self.events[i].name;
        assert(self@.events[i as int].name == name@);
        let mut cur = Cursor::new(body);
        let none: Option<Fields> = None;
        let fields = match self.types.get(name.as_str()) {
            Some(TypeBody::Struct { fields }) => fields,
            _ => &none,
        };
        match self.decode_fields(&mut cur, fields) {
            Ok(value) => Some((name.clone(), value)),
            Err(_) => None,
        }
    }

    /// Decodes the event that a log line holds.
    pub fn parse_line(&self, line: &str) -> (r: Option<(String, Value)>)
        ensures
            match r {
                Some(event) => self@.line(line@) == Some((event.0@, event.1@)),
                None => self@.line(line@) is None,
            },
    {
        match line_payload(line) {
            Some(text) => match base64_decode(text) {
                Some(bytes) => self.decode_event(bytes.as_slice()),
                None => None,
            },
            None => None,
        }
    }

    /// Decodes every event that a batch of log lines holds.
    ///
    /// Lines that are not events, are not base64, match no discriminator or do
    /// not decode are skipped.
    pub fn parse_logs(&self, logs: Vec<String>) -> (r: Vec<(String, Value)>)
        ensures
            events_model(r@) == self@.logs(logs@.map_values(|line: String| line@)),
            ({
                let found = self@.logs(logs@.map_values(|line: String| line@));
                &&& r@.len() == found.len()
                &&& forall|i: int|
                    0 <= i < found.len() ==> (#[trigger] r@[i]).0@ == found[i].0 && r@[i].1@
                        == found[i].1
            }),
    {
        let ghost lines = logs@.map_values(|line: String| line@);
        let mut out: Vec<(String, Value)> = Vec::new();
        let mut i: usize = 0;
        assert(events_model(out@) =~= Seq::<(Seq<char>, ValueModel)>::empty());
        while i < logs.len()
            invariant
                i <= logs@.len(),
                lines == logs@.map_values(|line: String| line@),
                events_model(out@) == self@.logs(lines.take(i as int)),
            decreases logs@.len() - i,
        {
            assert(lines.take(i + 1).drop_last() =~= lines.take(i as int));
            if let Some(event) = self.parse_line(logs[i].as_str()) {
                let ghost before = events_model(out@);
                out.push(event);
                assert(events_model(out@) =~= before.push((event.0@, event.1@)));
            }
            i = i + 1;
        }
        assert(lines.take(i as int) =~= lines);
        proof {
            lemma_events_model(out@);
        }
        out
    }

    /// The names of all events, in the order in which the IDL declares them.
    pub fn event_names(&self) -> (r: Vec<String>)
        ensures
            r@.map_values(|name: String| name@) == self@.names(),
            r@.len() == self@.events.len(),
            forall|i: int| 0 <= i < r@.len() ==> (#[trigger] r@[i])@ == self@.events[i].name,
    {
        let mut names: Vec<String> = Vec::new();
        let mut i: usize = 0;
        while i < self.events.len()
            invariant
                i <= self.events@.len(),
                names@.len() == i,
                forall|k: int| 0 <= k < i ==> (#[trigger] names@[k])@ == self@.events[k].name,
            decreases self.events@.len() - i,
        {
            assert(self@.events[i as int].name == self.events@[i as int].name@);
            names.push(self.events[i].name.clone());
            i = i + 1;
        }
        assert(names@.map_values(|name: String| name@) =~= self@.names());
        names
    }
}

} // verus!
