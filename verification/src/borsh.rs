//! What Borsh bytes mean as values of an IDL type.
use crate::base58::base58_text;
use crate::cursor::{read, read_len, Outcome};
use crate::error::ErrorModel;
use crate::idl::{BodyModel, FieldModel, FieldsModel, LenModel, TypeModel, VariantModel};
use crate::numbers::{le_int, le_nat};
use crate::text::utf8_complaint;
use crate::value::{dict_set, ValueModel};
use vstd::prelude::*;
use vstd::utf8::{decode_utf8, valid_utf8};

verus! {

/// The definitions that names stand for, and the depth that is granted anew
/// whenever a byte has been read (`None`: depth is never granted anew).
///
/// Depth is the number of definitions that may still be entered, one inside the
/// other.
pub struct Rules {
    pub types: Map<Seq<char>, BodyModel>,
    pub refill: Option<nat>,
}

/// The rules for decoding: between two bytes, no more definitions can be
/// entered one inside the other than there are.
pub open spec fn guarded(types: Map<Seq<char>, BodyModel>) -> Rules {
    Rules { types, refill: Some(types.dom().len()) }
}

/// How many bytes of `data` there are from `pos` on.
pub open spec fn remaining(data: Seq<u8>, pos: nat) -> nat {
    if pos <= data.len() {
        (data.len() - pos) as nat
    } else {
        0
    }
}

/// How deep options, vectors and arrays are nested in `ty`.
pub open spec fn height(ty: TypeModel) -> nat
    decreases ty,
{
    match ty {
        TypeModel::Option(inner) => 1 + height(*inner),
        TypeModel::Vec(inner) => 1 + height(*inner),
        TypeModel::Array(inner, _) => 1 + height(*inner),
        _ => 0,
    }
}

/// The depth left at `to` for what started with `depth` at `from`.
pub open spec fn depth_at(rules: Rules, data: Seq<u8>, from: nat, to: nat, depth: nat) -> nat {
    if remaining(data, to) < remaining(data, from) {
        match rules.refill {
            Some(n) => n,
            None => depth,
        }
    } else {
        depth
    }
}

/// A step that comes to an error without using up a byte.
pub open spec fn failed<T>(e: ErrorModel) -> Outcome<T> {
    Outcome { result: Err(e), used: 0 }
}

/// The step `o` with its result passed through `f`.
pub open spec fn mapped<T, U>(o: Outcome<T>, f: spec_fn(T) -> U) -> Outcome<U> {
    Outcome {
        result: match o.result {
            Ok(v) => Ok(f(v)),
            Err(e) => Err(e),
        },
        used: o.used,
    }
}

/// The step `o` after `n` other bytes have been used up.
pub open spec fn after<T>(n: nat, o: Outcome<T>) -> Outcome<T> {
    Outcome { result: o.result, used: n + o.used }
}

/// An unsigned little-endian integer of `n` bytes.
pub open spec fn decode_uint(data: Seq<u8>, pos: nat, n: nat) -> Outcome<ValueModel> {
    mapped(read(data, pos, n), |bytes: Seq<u8>| ValueModel::Int(le_nat(bytes) as int))
}

/// A two's complement little-endian integer of `n` bytes.
pub open spec fn decode_sint(data: Seq<u8>, pos: nat, n: nat) -> Outcome<ValueModel> {
    mapped(read(data, pos, n), |bytes: Seq<u8>| ValueModel::Int(le_int(bytes)))
}

/// Bytes with their number in front.
pub open spec fn read_prefixed(data: Seq<u8>, pos: nat) -> Outcome<Seq<u8>> {
    let head = read_len(data, pos);
    match head.result {
        Ok(n) => after(head.used, read(data, pos + head.used, n)),
        Err(e) => Outcome { result: Err(e), used: head.used },
    }
}

/// A string: the bytes of its UTF-8 form with their number in front.
pub open spec fn decode_string(data: Seq<u8>, pos: nat) -> Outcome<ValueModel> {
    let raw = read_prefixed(data, pos);
    Outcome {
        result: match raw.result {
            Ok(bytes) => if valid_utf8(bytes) {
                Ok(ValueModel::Str(decode_utf8(bytes)))
            } else {
                Err(ErrorModel::InvalidUtf8 { detail: utf8_complaint(bytes) })
            },
            Err(e) => Err(e),
        },
        used: raw.used,
    }
}

/// A value of type `ty` at `pos`.
pub open spec fn decode_type(
    rules: Rules,
    data: Seq<u8>,
    ty: TypeModel,
    pos: nat,
    depth: nat,
) -> Outcome<ValueModel>
    decreases remaining(data, pos), depth, 1nat, height(ty), 0nat,
{
    match ty {
        TypeModel::Bool => mapped(
            read(data, pos, 1),
            |bytes: Seq<u8>| ValueModel::Bool(bytes[0] != 0),
        ),
        TypeModel::U8 => decode_uint(data, pos, 1),
        TypeModel::I8 => decode_sint(data, pos, 1),
        TypeModel::U16 => decode_uint(data, pos, 2),
        TypeModel::I16 => decode_sint(data, pos, 2),
        TypeModel::U32 => decode_uint(data, pos, 4),
        TypeModel::I32 => decode_sint(data, pos, 4),
        TypeModel::F32 => mapped(
            read(data, pos, 4),
            |bytes: Seq<u8>| ValueModel::F32(le_nat(bytes) as u32),
        ),
        TypeModel::U64 => decode_uint(data, pos, 8),
        TypeModel::I64 => decode_sint(data, pos, 8),
        TypeModel::F64 => mapped(
            read(data, pos, 8),
            |bytes: Seq<u8>| ValueModel::F64(le_nat(bytes) as u64),
        ),
        TypeModel::U128 => decode_uint(data, pos, 16),
        TypeModel::I128 => decode_sint(data, pos, 16),
        TypeModel::U256 => decode_uint(data, pos, 32),
        TypeModel::I256 => decode_sint(data, pos, 32),
        TypeModel::Bytes => mapped(
            read_prefixed(data, pos),
            |bytes: Seq<u8>| ValueModel::Bytes(bytes),
        ),
        TypeModel::String => decode_string(data, pos),
        TypeModel::Pubkey => mapped(
            read(data, pos, 32),
            |bytes: Seq<u8>| ValueModel::Str(base58_text(bytes)),
        ),
        TypeModel::Option(inner) => {
            let tag = read(data, pos, 1);
            match tag.result {
                Ok(bytes) => if bytes[0] == 0 {
                    Outcome { result: Ok(ValueModel::Null), used: 1 }
                } else {
                    after(
                        1,
                        decode_type(
                            rules,
                            data,
                            *inner,
                            pos + 1,
                            depth_at(rules, data, pos, pos + 1, depth),
                        ),
                    )
                },
                Err(e) => failed(e),
            }
        },
        TypeModel::Vec(inner) => {
            let head = read_len(data, pos);
            match head.result {
                Ok(n) => after(
                    4,
                    mapped(
                        decode_items(
                            rules,
                            data,
                            *inner,
                            n,
                            pos + 4,
                            depth_at(rules, data, pos, pos + 4, depth),
                        ),
                        |items: Seq<ValueModel>| ValueModel::List(items),
                    ),
                ),
                Err(e) => failed(e),
            }
        },
        TypeModel::Array(inner, len) => match len {
            LenModel::Value(n) => mapped(
                decode_items(rules, data, *inner, n, pos, depth),
                |items: Seq<ValueModel>| ValueModel::List(items),
            ),
            LenModel::Generic(_) => failed(ErrorModel::GenericArrayLength),
        },
        TypeModel::Defined { name, generics } => if generics != 0 {
            failed(ErrorModel::GenericDefined { name })
        } else {
            decode_defined(rules, data, name, pos, depth)
        },
        TypeModel::Generic(_) => failed(ErrorModel::GenericParameter),
    }
}

/// `n` values of type `ty`, one after the other from `pos` on.
pub open spec fn decode_items(
    rules: Rules,
    data: Seq<u8>,
    ty: TypeModel,
    n: nat,
    pos: nat,
    depth: nat,
) -> Outcome<Seq<ValueModel>>
    decreases remaining(data, pos), depth, 1nat, height(ty), n,
{
    if n == 0 {
        Outcome { result: Ok(Seq::empty()), used: 0 }
    } else {
        let before = decode_items(rules, data, ty, (n - 1) as nat, pos, depth);
        match before.result {
            Ok(items) => {
                let at = pos + before.used;
                after(
                    before.used,
                    mapped(
                        decode_type(rules, data, ty, at, depth_at(rules, data, pos, at, depth)),
                        |item: ValueModel| items.push(item),
                    ),
                )
            },
            Err(_) => before,
        }
    }
}

/// The first `n` of the unnamed fields `types`.
pub open spec fn decode_tuple(
    rules: Rules,
    data: Seq<u8>,
    types: Seq<TypeModel>,
    n: nat,
    pos: nat,
    depth: nat,
) -> Outcome<Seq<ValueModel>>
    decreases remaining(data, pos), depth, 2nat, n, 0nat,
{
    if n == 0 {
        Outcome { result: Ok(Seq::empty()), used: 0 }
    } else {
        let before = decode_tuple(rules, data, types, (n - 1) as nat, pos, depth);
        match before.result {
            Ok(items) => {
                let at = pos + before.used;
                after(
                    before.used,
                    mapped(
                        decode_type(
                            rules,
                            data,
                            types[n - 1],
                            at,
                            depth_at(rules, data, pos, at, depth),
                        ),
                        |item: ValueModel| items.push(item),
                    ),
                )
            },
            Err(_) => before,
        }
    }
}

/// The first `n` of the named fields `fields`.
pub open spec fn decode_named(
    rules: Rules,
    data: Seq<u8>,
    fields: Seq<FieldModel>,
    n: nat,
    pos: nat,
    depth: nat,
) -> Outcome<Seq<(Seq<char>, ValueModel)>>
    decreases remaining(data, pos), depth, 2nat, n, 0nat,
{
    if n == 0 {
        Outcome { result: Ok(Seq::empty()), used: 0 }
    } else {
        let before = decode_named(rules, data, fields, (n - 1) as nat, pos, depth);
        match before.result {
            Ok(entries) => {
                let at = pos + before.used;
                after(
                    before.used,
                    mapped(
                        decode_type(
                            rules,
                            data,
                            fields[n - 1].ty,
                            at,
                            depth_at(rules, data, pos, at, depth),
                        ),
                        |value: ValueModel| dict_set(entries, fields[n - 1].name, value),
                    ),
                )
            },
            Err(_) => before,
        }
    }
}

/// The fields of a struct or variant: a dictionary for named ones, a list for
/// unnamed ones, and an empty dictionary where there are none.
pub open spec fn decode_fields(
    rules: Rules,
    data: Seq<u8>,
    fields: Option<FieldsModel>,
    pos: nat,
    depth: nat,
) -> Outcome<ValueModel>
    decreases remaining(data, pos), depth, 3nat, 0nat, 0nat,
{
    match fields {
        None => Outcome { result: Ok(ValueModel::Dict(Seq::empty())), used: 0 },
        Some(FieldsModel::Named(named)) => mapped(
            decode_named(rules, data, named, named.len(), pos, depth),
            |entries: Seq<(Seq<char>, ValueModel)>| ValueModel::Dict(entries),
        ),
        Some(FieldsModel::Tuple(types)) => mapped(
            decode_tuple(rules, data, types, types.len(), pos, depth),
            |items: Seq<ValueModel>| ValueModel::List(items),
        ),
    }
}

/// A value of an enum: a byte that is the position of a variant, then the
/// variant's fields. A variant without fields is its name; one with fields is a
/// dictionary from its name to them.
pub open spec fn decode_enum(
    rules: Rules,
    data: Seq<u8>,
    variants: Seq<VariantModel>,
    pos: nat,
    depth: nat,
) -> Outcome<ValueModel>
    decreases remaining(data, pos), depth, 3nat, 0nat, 0nat,
{
    let tag = read(data, pos, 1);
    match tag.result {
        Ok(bytes) => {
            let t = bytes[0] as nat;
            if t >= variants.len() {
                Outcome { result: Err(ErrorModel::EnumTag { tag: t }), used: 1 }
            } else {
                let name = variants[t as int].name;
                match variants[t as int].fields {
                    None => Outcome { result: Ok(ValueModel::Str(name)), used: 1 },
                    Some(fields) => after(
                        1,
                        mapped(
                            decode_fields(
                                rules,
                                data,
                                Some(fields),
                                pos + 1,
                                depth_at(rules, data, pos, pos + 1, depth),
                            ),
                            |inner: ValueModel| ValueModel::Dict(seq![(name, inner)]),
                        ),
                    ),
                }
            }
        },
        Err(e) => failed(e),
    }
}

/// A value of what a definition stands for.
pub open spec fn decode_body(
    rules: Rules,
    data: Seq<u8>,
    body: BodyModel,
    pos: nat,
    depth: nat,
) -> Outcome<ValueModel>
    decreases remaining(data, pos), depth, 4nat, 0nat, 0nat,
{
    match body {
        BodyModel::Struct { fields } => decode_fields(rules, data, fields, pos, depth),
        BodyModel::Enum { variants } => decode_enum(rules, data, variants, pos, depth),
        BodyModel::Type { alias } => decode_type(rules, data, alias, pos, depth),
    }
}

/// A value of the definition called `name`.
pub open spec fn decode_defined(
    rules: Rules,
    data: Seq<u8>,
    name: Seq<char>,
    pos: nat,
    depth: nat,
) -> Outcome<ValueModel>
    decreases remaining(data, pos), depth, 0nat, 0nat, 0nat,
{
    if !rules.types.dom().contains(name) {
        failed(ErrorModel::UnknownType { name })
    } else if depth == 0 {
        failed(ErrorModel::EndlessType { name })
    } else {
        decode_body(rules, data, rules.types[name], pos, (depth - 1) as nat)
    }
}

} // verus!
