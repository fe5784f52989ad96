//! How decoding a whole relates to decoding its parts.
use crate::base58::base58_text;
use crate::borsh::{
    decode_defined, decode_enum, decode_fields, decode_items, decode_named, decode_tuple,
    decode_type, depth_at, Rules,
};
use crate::cursor::{lemma_read, lemma_read_len, read, Outcome};
use crate::encoding::{
    encode_fields, encode_type, gives, lemma_fields_round_trip, lemma_type_round_trip, shown,
    stands_at, Datum,
};
use crate::error::ErrorModel;
use crate::events::DecoderModel;
use crate::guard::{endless, lemma_defined_guard};
use crate::idl::{BodyModel, FieldModel, FieldsModel, LenModel, TypeModel, VariantModel};
use crate::numbers::{le_int, le_nat};
use crate::text::utf8_complaint;
use crate::value::{dict_set, ValueModel};
use crate::writable::{lemma_fields_spelled, lemma_type_spelled};
use vstd::prelude::*;
use vstd::utf8::{decode_utf8, valid_utf8};

verus! {

/// What the decoder makes of the bytes at `pos` as a value of type `ty`.
pub open spec fn value_at(
    decoder: DecoderModel,
    data: Seq<u8>,
    ty: TypeModel,
    pos: nat,
) -> Outcome<ValueModel> {
    decode_type(decoder.rules(), data, ty, pos, decoder.depth())
}

/// What the decoder makes of the bytes at `pos` as fields.
pub open spec fn fields_at(
    decoder: DecoderModel,
    data: Seq<u8>,
    fields: Option<FieldsModel>,
    pos: nat,
) -> Outcome<ValueModel> {
    decode_fields(decoder.rules(), data, fields, pos, decoder.depth())
}

/// What the decoder makes of the bytes at `pos` as a value of an enum.
pub open spec fn enum_at(
    decoder: DecoderModel,
    data: Seq<u8>,
    variants: Seq<VariantModel>,
    pos: nat,
) -> Outcome<ValueModel> {
    decode_enum(decoder.rules(), data, variants, pos, decoder.depth())
}

/// What the decoder makes of the bytes at `pos` as a value of the definition
/// called `name`.
pub open spec fn defined_at(
    decoder: DecoderModel,
    data: Seq<u8>,
    name: Seq<char>,
    pos: nat,
) -> Outcome<ValueModel> {
    decode_defined(decoder.rules(), data, name, pos, decoder.depth())
}

/// A decoder gives back the value that was written, and uses up just its bytes.
pub proof fn lemma_value_written(
    decoder: DecoderModel,
    ty: TypeModel,
    d: Datum,
    depth: nat,
    data: Seq<u8>,
    pos: nat,
)
    requires
        decoder.types.dom().finite(),
        encode_type(decoder.types, ty, d, depth) is Some,
        stands_at(data, pos, encode_type(decoder.types, ty, d, depth)->Some_0),
    ensures
        value_at(decoder, data, ty, pos) == gives(
            shown(d),
            encode_type(decoder.types, ty, d, depth)->Some_0.len(),
        ),
{
    lemma_type_round_trip(decoder.types, ty, d, depth, data, pos);
}

/// A decoder reads a value only from bytes that spell it.
pub proof fn lemma_value_spelled(
    decoder: DecoderModel,
    data: Seq<u8>,
    ty: TypeModel,
    pos: nat,
)
    requires
        decoder.types.dom().finite(),
        pos <= data.len(),
        value_at(decoder, data, ty, pos).result is Ok,
    ensures
        ({
            let o = value_at(decoder, data, ty, pos);
            &&& pos + o.used <= data.len()
            &&& exists|d: Datum, depth: nat|
                (#[trigger] encode_type(decoder.types, ty, d, depth)) == Some(
                    data.subrange(pos as int, (pos + o.used) as int),
                ) && shown(d) == o.result->Ok_0
        }),
{
    lemma_type_spelled(decoder.types, data, ty, pos);
}

/// A decoder gives back the fields that were written, and uses up just their
/// bytes.
pub proof fn lemma_fields_written_back(
    decoder: DecoderModel,
    fields: Option<FieldsModel>,
    d: Datum,
    depth: nat,
    data: Seq<u8>,
    pos: nat,
)
    requires
        decoder.types.dom().finite(),
        encode_fields(decoder.types, fields, d, depth) is Some,
        stands_at(data, pos, encode_fields(decoder.types, fields, d, depth)->Some_0),
    ensures
        fields_at(decoder, data, fields, pos) == gives(
            shown(d),
            encode_fields(decoder.types, fields, d, depth)->Some_0.len(),
        ),
{
    lemma_fields_round_trip(decoder.types, fields, d, depth, data, pos);
}

/// A decoder reads fields only from bytes that spell them.
pub proof fn lemma_fields_spelled_out(
    decoder: DecoderModel,
    data: Seq<u8>,
    fields: Option<FieldsModel>,
    pos: nat,
)
    requires
        decoder.types.dom().finite(),
        pos <= data.len(),
        fields_at(decoder, data, fields, pos).result is Ok,
    ensures
        ({
            let o = fields_at(decoder, data, fields, pos);
            &&& pos + o.used <= data.len()
            &&& exists|d: Datum, depth: nat|
                (#[trigger] encode_fields(decoder.types, fields, d, depth)) == Some(
                    data.subrange(pos as int, (pos + o.used) as int),
                ) && shown(d) == o.result->Ok_0
        }),
{
    lemma_fields_spelled(decoder.types, data, fields, pos);
}

/// How many bytes a value of a type without parts and without a length takes,
/// and what they are read as.
pub open spec fn scalar(ty: TypeModel) -> Option<(nat, spec_fn(Seq<u8>) -> ValueModel)> {
    let uint = |bytes: Seq<u8>| ValueModel::Int(le_nat(bytes) as int);
    let sint = |bytes: Seq<u8>| ValueModel::Int(le_int(bytes));
    match ty {
        TypeModel::Bool => Some((1, |bytes: Seq<u8>| ValueModel::Bool(bytes[0] != 0))),
        TypeModel::U8 => Some((1, uint)),
        TypeModel::I8 => Some((1, sint)),
        TypeModel::U16 => Some((2, uint)),
        TypeModel::I16 => Some((2, sint)),
        TypeModel::U32 => Some((4, uint)),
        TypeModel::I32 => Some((4, sint)),
        TypeModel::F32 => Some((4, |bytes: Seq<u8>| ValueModel::F32(le_nat(bytes) as u32))),
        TypeModel::U64 => Some((8, uint)),
        TypeModel::I64 => Some((8, sint)),
        TypeModel::F64 => Some((8, |bytes: Seq<u8>| ValueModel::F64(le_nat(bytes) as u64))),
        TypeModel::U128 => Some((16, uint)),
        TypeModel::I128 => Some((16, sint)),
        TypeModel::U256 => Some((32, uint)),
        TypeModel::I256 => Some((32, sint)),
        TypeModel::Pubkey => Some((32, |bytes: Seq<u8>| ValueModel::Str(base58_text(bytes)))),
        _ => None,
    }
}

/// A value of a fixed number of bytes decodes exactly when the buffer holds that
/// many more, to what they are read as.
pub proof fn lemma_scalar(decoder: DecoderModel, data: Seq<u8>, ty: TypeModel, pos: nat)
    requires
        data.len() <= usize::MAX,
        scalar(ty) is Some,
    ensures
        ({
            let (size, read_as) = scalar(ty)->Some_0;
            let o = value_at(decoder, data, ty, pos);
            if pos + size <= data.len() {
                o == gives(read_as(data.subrange(pos as int, (pos + size) as int)), size)
            } else {
                &&& o.used == 0
                &&& o.result is Err
                &&& o.result->Err_0 == (if pos + size > usize::MAX {
                    ErrorModel::LengthOverflow
                } else {
                    ErrorModel::UnexpectedEnd { need: size, offset: pos, have: data.len() }
                })
            }
        }),
{
    let size = scalar(ty)->Some_0.0;
    lemma_read(data, pos, size);
}

/// Bytes decode exactly when the buffer holds a length and as many bytes after
/// it; where it holds the length only, that is used up.
pub proof fn lemma_bytes(decoder: DecoderModel, data: Seq<u8>, pos: nat)
    requires
        data.len() <= usize::MAX,
    ensures
        ({
            let o = value_at(decoder, data, TypeModel::Bytes, pos);
            let n = le_nat(data.subrange(pos as int, (pos + 4) as int));
            if pos + 4 > data.len() {
                o.used == 0 && o.result is Err && o.result->Err_0 == read(
                    data,
                    pos,
                    4,
                ).result->Err_0
            } else if pos + 4 + n > data.len() {
                o.used == 4 && o.result is Err && o.result->Err_0 == read(
                    data,
                    pos + 4,
                    n,
                ).result->Err_0
            } else {
                o == gives(
                    ValueModel::Bytes(data.subrange((pos + 4) as int, (pos + 4 + n) as int)),
                    4 + n,
                )
            }
        }),
{
    lemma_read(data, pos, 4);
    lemma_read(data, pos + 4, le_nat(data.subrange(pos as int, (pos + 4) as int)));
}

/// A string is read as bytes are, and then has to be UTF-8.
pub proof fn lemma_string(decoder: DecoderModel, data: Seq<u8>, pos: nat)
    ensures
        ({
            let raw = value_at(decoder, data, TypeModel::Bytes, pos);
            let o = value_at(decoder, data, TypeModel::String, pos);
            &&& o.used == raw.used
            &&& match raw.result {
                Err(e) => o.result == Err::<ValueModel, ErrorModel>(e),
                Ok(value) => {
                    &&& value matches ValueModel::Bytes(bytes)
                    &&& if valid_utf8(bytes) {
                        o.result == Ok::<ValueModel, ErrorModel>(
                            ValueModel::Str(decode_utf8(bytes)),
                        )
                    } else {
                        o.result == Err::<ValueModel, ErrorModel>(
                            ErrorModel::InvalidUtf8 { detail: utf8_complaint(bytes) },
                        )
                    }
                },
            }
        }),
{
}

/// A zero byte is an absent option; any other byte is followed by what the option
/// holds, and whatever comes of that comes of the option.
pub proof fn lemma_option(decoder: DecoderModel, data: Seq<u8>, inner: TypeModel, pos: nat)
    requires
        pos < data.len() <= usize::MAX,
    ensures
        ({
            let o = value_at(decoder, data, TypeModel::Option(Box::new(inner)), pos);
            let held = value_at(decoder, data, inner, pos + 1);
            if data[pos as int] == 0 {
                o == gives(ValueModel::Null, 1)
            } else {
                o.result == held.result && o.used == 1 + held.used
            }
        }),
{
    lemma_read(data, pos, 1);
}

/// A vector is a length, and after it what an array of that length is.
pub proof fn lemma_vec(decoder: DecoderModel, data: Seq<u8>, inner: TypeModel, pos: nat)
    requires
        pos + 4 <= data.len() <= usize::MAX,
    ensures
        ({
            let o = value_at(decoder, data, TypeModel::Vec(Box::new(inner)), pos);
            let n = le_nat(data.subrange(pos as int, (pos + 4) as int));
            let array = TypeModel::Array(Box::new(inner), LenModel::Value(n));
            let items = value_at(decoder, data, array, pos + 4);
            o.result == items.result && o.used == 4 + items.used
        }),
{
    lemma_read(data, pos, 4);
}

/// Where the buffer ends before the tag of an option or enum or the length of a
/// vector does, the error is that of reading the tag or the length.
pub proof fn lemma_no_head(
    decoder: DecoderModel,
    data: Seq<u8>,
    inner: TypeModel,
    variants: Seq<VariantModel>,
    pos: nat,
)
    requires
        data.len() <= usize::MAX,
    ensures
        pos + 1 > data.len() ==> {
            let e = read(data, pos, 1).result->Err_0;
            let o = value_at(decoder, data, TypeModel::Option(Box::new(inner)), pos);
            let p = enum_at(decoder, data, variants, pos);
            &&& o.used == 0 && o.result is Err && o.result->Err_0 == e
            &&& p.used == 0 && p.result is Err && p.result->Err_0 == e
        },
        pos + 4 > data.len() ==> {
            let e = read(data, pos, 4).result->Err_0;
            let o = value_at(decoder, data, TypeModel::Vec(Box::new(inner)), pos);
            o.used == 0 && o.result is Err && o.result->Err_0 == e
        },
{
    lemma_read(data, pos, 1);
    lemma_read(data, pos, 4);
    lemma_read_len(data, pos);
}

/// An array of one item more is the array without it, and then the item where
/// the array has ended. The first error ends it.
pub proof fn lemma_array(
    decoder: DecoderModel,
    data: Seq<u8>,
    inner: TypeModel,
    n: nat,
    pos: nat,
)
    ensures
        ({
            let none = TypeModel::Array(Box::new(inner), LenModel::Value(0));
            value_at(decoder, data, none, pos) == gives(ValueModel::List(Seq::empty()), 0)
        }),
        ({
            let short = TypeModel::Array(Box::new(inner), LenModel::Value(n));
            let long = TypeModel::Array(Box::new(inner), LenModel::Value(n + 1));
            let before = value_at(decoder, data, short, pos);
            let item = value_at(decoder, data, inner, pos + before.used);
            let o = value_at(decoder, data, long, pos);
            match before.result {
                Err(e) => o == before,
                Ok(list) => {
                    &&& list matches ValueModel::List(items)
                    &&& o.used == before.used + item.used
                    &&& match item.result {
                        Ok(v) => o.result == Ok::<ValueModel, ErrorModel>(
                            ValueModel::List(items.push(v)),
                        ),
                        Err(e) => o.result == Err::<ValueModel, ErrorModel>(e),
                    }
                },
            }
        }),
{
    let rules = decoder.rules();
    let depth = decoder.depth();
    assert(decode_items(rules, data, inner, 0, pos, depth) == gives(
        Seq::<ValueModel>::empty(),
        0,
    ));
    let before = decode_items(rules, data, inner, n, pos, depth);
    let at = pos + before.used;
    assert(depth_at(rules, data, pos, at, depth) == depth);
    assert(decode_items(rules, data, inner, (n + 1) as nat, pos, depth).used >= before.used);
}

/// A generic parameter stands for no type, as a length of an array neither, and a
/// definition takes no generic arguments.
pub proof fn lemma_generic(
    decoder: DecoderModel,
    data: Seq<u8>,
    inner: TypeModel,
    name: Seq<char>,
    generics: nat,
    pos: nat,
)
    ensures
        value_at(decoder, data, TypeModel::Generic(name), pos) == (Outcome {
            result: Err::<ValueModel, ErrorModel>(ErrorModel::GenericParameter),
            used: 0,
        }),
        value_at(
            decoder,
            data,
            TypeModel::Array(Box::new(inner), LenModel::Generic(name)),
            pos,
        ) == (Outcome {
            result: Err::<ValueModel, ErrorModel>(ErrorModel::GenericArrayLength),
            used: 0,
        }),
        generics > 0 ==> value_at(decoder, data, TypeModel::Defined { name, generics }, pos) == (
        Outcome {
            result: Err::<ValueModel, ErrorModel>(ErrorModel::GenericDefined { name }),
            used: 0,
        }),
{
}

/// A name stands for its definition: a struct is its fields, an enum its
/// variants, and an alias its type. Only where there is no end do the two errors
/// tell of different names. A name without a definition stands for nothing.
pub proof fn lemma_defined(decoder: DecoderModel, data: Seq<u8>, name: Seq<char>, pos: nat)
    requires
        decoder.types.dom().finite(),
    ensures
        ({
            let o = defined_at(decoder, data, name, pos);
            &&& o == value_at(decoder, data, TypeModel::Defined { name, generics: 0 }, pos)
            &&& if decoder.types.dom().contains(name) {
                let inner = match decoder.types[name] {
                    BodyModel::Struct { fields } => fields_at(decoder, data, fields, pos),
                    BodyModel::Enum { variants } => enum_at(decoder, data, variants, pos),
                    BodyModel::Type { alias } => value_at(decoder, data, alias, pos),
                };
                o == inner || endless(o) && endless(inner)
            } else {
                o == (Outcome {
                    result: Err::<ValueModel, ErrorModel>(ErrorModel::UnknownType { name }),
                    used: 0,
                })
            }
        }),
{
    if decoder.types.dom().contains(name) {
        lemma_defined_guard(decoder.types, data, name, pos);
    }
}

/// The tag of an enum is the position of a variant. One without fields is its
/// name; one with fields is a dictionary from its name to them, and whatever
/// error comes of them comes of the enum.
pub proof fn lemma_enum(
    decoder: DecoderModel,
    data: Seq<u8>,
    variants: Seq<VariantModel>,
    pos: nat,
)
    requires
        pos < data.len() <= usize::MAX,
    ensures
        ({
            let o = enum_at(decoder, data, variants, pos);
            let tag = data[pos as int] as int;
            if tag >= variants.len() {
                o == (Outcome {
                    result: Err::<ValueModel, ErrorModel>(
                        ErrorModel::EnumTag { tag: data[pos as int] as nat },
                    ),
                    used: 1,
                })
            } else if variants[tag].fields is None {
                o == gives(ValueModel::Str(variants[tag].name), 1)
            } else {
                let inner = fields_at(decoder, data, variants[tag].fields, pos + 1);
                &&& o.used == 1 + inner.used
                &&& match inner.result {
                    Ok(v) => o.result == Ok::<ValueModel, ErrorModel>(
                        ValueModel::Dict(seq![(variants[tag].name, v)]),
                    ),
                    Err(e) => o.result == Err::<ValueModel, ErrorModel>(e),
                }
            }
        }),
{
    lemma_read(data, pos, 1);
}

proof fn lemma_tuple_same(
    rules: Rules,
    data: Seq<u8>,
    a: Seq<TypeModel>,
    b: Seq<TypeModel>,
    n: nat,
    pos: nat,
    depth: nat,
)
    requires
        forall|i: int| 0 <= i < n ==> a[i] == b[i],
    ensures
        decode_tuple(rules, data, a, n, pos, depth) == decode_tuple(rules, data, b, n, pos, depth),
    decreases n,
{
    if n > 0 {
        lemma_tuple_same(rules, data, a, b, (n - 1) as nat, pos, depth);
    }
}

proof fn lemma_named_same(
    rules: Rules,
    data: Seq<u8>,
    a: Seq<FieldModel>,
    b: Seq<FieldModel>,
    n: nat,
    pos: nat,
    depth: nat,
)
    requires
        forall|i: int| 0 <= i < n ==> a[i] == b[i],
    ensures
        decode_named(rules, data, a, n, pos, depth) == decode_named(rules, data, b, n, pos, depth),
    decreases n,
{
    if n > 0 {
        lemma_named_same(rules, data, a, b, (n - 1) as nat, pos, depth);
    }
}

/// Unnamed fields with one more are the fields without it, and then a value of
/// its type where they have ended. The first error ends them.
pub proof fn lemma_unnamed_fields(
    decoder: DecoderModel,
    data: Seq<u8>,
    members: Seq<TypeModel>,
    ty: TypeModel,
    pos: nat,
)
    ensures
        fields_at(decoder, data, Some(FieldsModel::Tuple(Seq::empty())), pos) == gives(
            ValueModel::List(Seq::empty()),
            0,
        ),
        ({
            let before = fields_at(decoder, data, Some(FieldsModel::Tuple(members)), pos);
            let item = value_at(decoder, data, ty, pos + before.used);
            let o = fields_at(decoder, data, Some(FieldsModel::Tuple(members.push(ty))), pos);
            match before.result {
                Err(e) => o == before,
                Ok(list) => {
                    &&& list matches ValueModel::List(items)
                    &&& o.used == before.used + item.used
                    &&& match item.result {
                        Ok(v) => o.result == Ok::<ValueModel, ErrorModel>(
                            ValueModel::List(items.push(v)),
                        ),
                        Err(e) => o.result == Err::<ValueModel, ErrorModel>(e),
                    }
                },
            }
        }),
{
    let rules = decoder.rules();
    let depth = decoder.depth();
    let n = members.len();
    let longer = members.push(ty);
    lemma_tuple_same(rules, data, members, longer, n, pos, depth);
    let before = decode_tuple(rules, data, longer, n, pos, depth);
    let at = pos + before.used;
    assert(depth_at(rules, data, pos, at, depth) == depth);
    assert(decode_tuple(rules, data, longer, (n + 1) as nat, pos, depth).used >= before.used);
}

/// Named fields with one more are the fields without it, and then a value of its
/// type where they have ended, set under its name. The first error ends them.
/// Without fields there is an empty dictionary.
pub proof fn lemma_named_fields(
    decoder: DecoderModel,
    data: Seq<u8>,
    named: Seq<FieldModel>,
    field: FieldModel,
    pos: nat,
)
    ensures
        fields_at(decoder, data, None, pos) == gives(ValueModel::Dict(Seq::empty()), 0),
        fields_at(decoder, data, Some(FieldsModel::Named(Seq::empty())), pos) == gives(
            ValueModel::Dict(Seq::empty()),
            0,
        ),
        ({
            let before = fields_at(decoder, data, Some(FieldsModel::Named(named)), pos);
            let item = value_at(decoder, data, field.ty, pos + before.used);
            let o = fields_at(decoder, data, Some(FieldsModel::Named(named.push(field))), pos);
            match before.result {
                Err(e) => o == before,
                Ok(dict) => {
                    &&& dict matches ValueModel::Dict(entries)
                    &&& o.used == before.used + item.used
                    &&& match item.result {
                        Ok(v) => o.result == Ok::<ValueModel, ErrorModel>(
                            ValueModel::Dict(dict_set(entries, field.name, v)),
                        ),
                        Err(e) => o.result == Err::<ValueModel, ErrorModel>(e),
                    }
                },
            }
        }),
{
    let rules = decoder.rules();
    let depth = decoder.depth();
    let n = named.len();
    let longer = named.push(field);
    lemma_named_same(rules, data, named, longer, n, pos, depth);
    let before = decode_named(rules, data, longer, n, pos, depth);
    let at = pos + before.used;
    assert(depth_at(rules, data, pos, at, depth) == depth);
    assert(decode_named(rules, data, longer, (n + 1) as nat, pos, depth).used >= before.used);
}

} // verus!
