//! Decoding reads forward and never past the end of the buffer.
use crate::borsh::{
    decode_body, decode_defined, decode_enum, decode_fields, decode_items, decode_named,
    decode_tuple, decode_type, depth_at, height, remaining, Rules,
};
use crate::cursor::Outcome;
use crate::idl::{BodyModel, FieldModel, FieldsModel, LenModel, TypeModel, VariantModel};
use vstd::prelude::*;

verus! {

/// What the step `o` from `pos` on has used up lies within the buffer.
pub open spec fn in_buffer<T>(data: Seq<u8>, pos: nat, o: Outcome<T>) -> bool {
    o.used > 0 ==> pos + o.used <= data.len()
}

/// A value uses up bytes of the buffer only, whether it decodes or not.
pub proof fn lemma_type_in_buffer(
    rules: Rules,
    data: Seq<u8>,
    ty: TypeModel,
    pos: nat,
    depth: nat,
)
    ensures
        in_buffer(data, pos, decode_type(rules, data, ty, pos, depth)),
    decreases remaining(data, pos), depth, 1nat, height(ty), 0nat,
{
    match ty {
        TypeModel::Option(inner) => {
            if pos + 1 <= data.len() {
                let left = depth_at(rules, data, pos, pos + 1, depth);
                lemma_type_in_buffer(rules, data, *inner, pos + 1, left);
            }
        },
        TypeModel::Vec(inner) => {
            let head = crate::cursor::read_len(data, pos);
            if head.result is Ok {
                let left = depth_at(rules, data, pos, pos + 4, depth);
                lemma_items_in_buffer(rules, data, *inner, head.result->Ok_0, pos + 4, left);
            }
        },
        TypeModel::Array(inner, LenModel::Value(n)) => {
            lemma_items_in_buffer(rules, data, *inner, n, pos, depth);
        },
        TypeModel::Defined { name, .. } => {
            lemma_defined_in_buffer(rules, data, name, pos, depth);
        },
        _ => {},
    }
}

/// Values in a row use up bytes of the buffer only.
pub proof fn lemma_items_in_buffer(
    rules: Rules,
    data: Seq<u8>,
    ty: TypeModel,
    n: nat,
    pos: nat,
    depth: nat,
)
    ensures
        in_buffer(data, pos, decode_items(rules, data, ty, n, pos, depth)),
    decreases remaining(data, pos), depth, 1nat, height(ty), n,
{
    if n > 0 {
        lemma_items_in_buffer(rules, data, ty, (n - 1) as nat, pos, depth);
        let at = pos + decode_items(rules, data, ty, (n - 1) as nat, pos, depth).used;
        lemma_type_in_buffer(rules, data, ty, at, depth_at(rules, data, pos, at, depth));
    }
}

/// Unnamed fields use up bytes of the buffer only.
pub proof fn lemma_tuple_in_buffer(
    rules: Rules,
    data: Seq<u8>,
    types: Seq<TypeModel>,
    n: nat,
    pos: nat,
    depth: nat,
)
    ensures
        in_buffer(data, pos, decode_tuple(rules, data, types, n, pos, depth)),
    decreases remaining(data, pos), depth, 2nat, n, 0nat,
{
    if n > 0 {
        lemma_tuple_in_buffer(rules, data, types, (n - 1) as nat, pos, depth);
        let at = pos + decode_tuple(rules, data, types, (n - 1) as nat, pos, depth).used;
        let left = depth_at(rules, data, pos, at, depth);
        lemma_type_in_buffer(rules, data, types[n - 1], at, left);
    }
}

/// Named fields use up bytes of the buffer only.
pub proof fn lemma_named_in_buffer(
    rules: Rules,
    data: Seq<u8>,
    fields: Seq<FieldModel>,
    n: nat,
    pos: nat,
    depth: nat,
)
    ensures
        in_buffer(data, pos, decode_named(rules, data, fields, n, pos, depth)),
    decreases remaining(data, pos), depth, 2nat, n, 0nat,
{
    if n > 0 {
        lemma_named_in_buffer(rules, data, fields, (n - 1) as nat, pos, depth);
        let at = pos + decode_named(rules, data, fields, (n - 1) as nat, pos, depth).used;
        let left = depth_at(rules, data, pos, at, depth);
        lemma_type_in_buffer(rules, data, fields[n - 1].ty, at, left);
    }
}

/// The fields of a struct or variant use up bytes of the buffer only.
pub proof fn lemma_fields_in_buffer(
    rules: Rules,
    data: Seq<u8>,
    fields: Option<FieldsModel>,
    pos: nat,
    depth: nat,
)
    ensures
        in_buffer(data, pos, decode_fields(rules, data, fields, pos, depth)),
    decreases remaining(data, pos), depth, 3nat, 0nat, 0nat,
{
    match fields {
        None => {},
        Some(FieldsModel::Named(named)) => {
            lemma_named_in_buffer(rules, data, named, named.len(), pos, depth);
        },
        Some(FieldsModel::Tuple(types)) => {
            lemma_tuple_in_buffer(rules, data, types, types.len(), pos, depth);
        },
    }
}

/// A value of an enum uses up bytes of the buffer only.
pub proof fn lemma_enum_in_buffer(
    rules: Rules,
    data: Seq<u8>,
    variants: Seq<VariantModel>,
    pos: nat,
    depth: nat,
)
    ensures
        in_buffer(data, pos, decode_enum(rules, data, variants, pos, depth)),
    decreases remaining(data, pos), depth, 3nat, 0nat, 0nat,
{
    if pos + 1 <= data.len() {
        let t = data[pos as int] as int;
        if t < variants.len() {
            let left = depth_at(rules, data, pos, pos + 1, depth);
            lemma_fields_in_buffer(rules, data, variants[t].fields, pos + 1, left);
        }
    }
}

proof fn lemma_body_in_buffer(
    rules: Rules,
    data: Seq<u8>,
    body: BodyModel,
    pos: nat,
    depth: nat,
)
    ensures
        in_buffer(data, pos, decode_body(rules, data, body, pos, depth)),
    decreases remaining(data, pos), depth, 4nat, 0nat, 0nat,
{
    match body {
        BodyModel::Struct { fields } => {
            lemma_fields_in_buffer(rules, data, fields, pos, depth);
        },
        BodyModel::Enum { variants } => {
            lemma_enum_in_buffer(rules, data, variants, pos, depth);
        },
        BodyModel::Type { alias } => {
            lemma_type_in_buffer(rules, data, alias, pos, depth);
        },
    }
}

/// A value of a definition uses up bytes of the buffer only.
pub proof fn lemma_defined_in_buffer(
    rules: Rules,
    data: Seq<u8>,
    name: Seq<char>,
    pos: nat,
    depth: nat,
)
    ensures
        in_buffer(data, pos, decode_defined(rules, data, name, pos, depth)),
    decreases remaining(data, pos), depth, 0nat, 0nat, 0nat,
{
    if rules.types.dom().contains(name) && depth > 0 {
        lemma_body_in_buffer(rules, data, rules.types[name], pos, (depth - 1) as nat);
    }
}

} // verus!
