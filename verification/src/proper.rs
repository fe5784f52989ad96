//! No dictionary in a decoded value has a key twice.
use crate::borsh::{
    decode_body, decode_defined, decode_enum, decode_fields, decode_items, decode_named,
    decode_tuple, decode_type, depth_at, height, remaining, Rules,
};
use crate::cursor::{read_len, Outcome};
use crate::idl::{BodyModel, FieldModel, FieldsModel, LenModel, TypeModel, VariantModel};
use crate::value::{dict_set, lemma_dict_set, lemma_key_index, proper, ValueModel};
use vstd::prelude::*;

verus! {

/// The step came to a proper value, or to an error.
pub open spec fn gives_proper(o: Outcome<ValueModel>) -> bool {
    o.result is Ok ==> proper(o.result->Ok_0)
}

proof fn lemma_proper_push(items: Seq<ValueModel>, item: ValueModel)
    requires
        proper(ValueModel::List(items)),
        proper(item),
    ensures
        proper(ValueModel::List(items.push(item))),
{
    let before = ValueModel::List(items);
    let longer = items.push(item);
    assert forall|i: int| 0 <= i < longer.len() implies proper(#[trigger] longer[i]) by {
        if i < items.len() {
            assert(longer[i] == before->List_0[i]);
        }
    }
}

proof fn lemma_proper_set(
    entries: Seq<(Seq<char>, ValueModel)>,
    key: Seq<char>,
    value: ValueModel,
)
    requires
        proper(ValueModel::Dict(entries)),
        proper(value),
    ensures
        proper(ValueModel::Dict(dict_set(entries, key, value))),
{
    lemma_dict_set(entries, key, value);
    lemma_key_index(entries, key);
}

/// In a value that decodes, no dictionary has a key twice.
pub proof fn lemma_type_proper(
    rules: Rules,
    data: Seq<u8>,
    ty: TypeModel,
    pos: nat,
    depth: nat,
)
    ensures
        gives_proper(decode_type(rules, data, ty, pos, depth)),
    decreases remaining(data, pos), depth, 1nat, height(ty), 0nat,
{
    match ty {
        TypeModel::Option(inner) => {
            if pos + 1 <= data.len() {
                let left = depth_at(rules, data, pos, pos + 1, depth);
                lemma_type_proper(rules, data, *inner, pos + 1, left);
            }
        },
        TypeModel::Vec(inner) => {
            let head = read_len(data, pos);
            if head.result is Ok {
                let left = depth_at(rules, data, pos, pos + 4, depth);
                lemma_items_proper(rules, data, *inner, head.result->Ok_0, pos + 4, left);
            }
        },
        TypeModel::Array(inner, LenModel::Value(n)) => {
            lemma_items_proper(rules, data, *inner, n, pos, depth);
        },
        TypeModel::Defined { name, .. } => {
            lemma_defined_proper(rules, data, name, pos, depth);
        },
        _ => {},
    }
}

proof fn lemma_items_proper(
    rules: Rules,
    data: Seq<u8>,
    ty: TypeModel,
    n: nat,
    pos: nat,
    depth: nat,
)
    ensures
        ({
            let o = decode_items(rules, data, ty, n, pos, depth);
            o.result is Ok ==> proper(ValueModel::List(o.result->Ok_0))
        }),
    decreases remaining(data, pos), depth, 1nat, height(ty), n,
{
    if n > 0 {
        let before = decode_items(rules, data, ty, (n - 1) as nat, pos, depth);
        lemma_items_proper(rules, data, ty, (n - 1) as nat, pos, depth);
        let at = pos + before.used;
        let left = depth_at(rules, data, pos, at, depth);
        lemma_type_proper(rules, data, ty, at, left);
        let item = decode_type(rules, data, ty, at, left);
        if before.result is Ok && item.result is Ok {
            lemma_proper_push(before.result->Ok_0, item.result->Ok_0);
        }
    }
}

proof fn lemma_tuple_proper(
    rules: Rules,
    data: Seq<u8>,
    types: Seq<TypeModel>,
    n: nat,
    pos: nat,
    depth: nat,
)
    ensures
        ({
            let o = decode_tuple(rules, data, types, n, pos, depth);
            o.result is Ok ==> proper(ValueModel::List(o.result->Ok_0))
        }),
    decreases remaining(data, pos), depth, 2nat, n, 0nat,
{
    if n > 0 {
        let before = decode_tuple(rules, data, types, (n - 1) as nat, pos, depth);
        lemma_tuple_proper(rules, data, types, (n - 1) as nat, pos, depth);
        let at = pos + before.used;
        let left = depth_at(rules, data, pos, at, depth);
        lemma_type_proper(rules, data, types[n - 1], at, left);
        let item = decode_type(rules, data, types[n - 1], at, left);
        if before.result is Ok && item.result is Ok {
            lemma_proper_push(before.result->Ok_0, item.result->Ok_0);
        }
    }
}

proof fn lemma_named_proper(
    rules: Rules,
    data: Seq<u8>,
    fields: Seq<FieldModel>,
    n: nat,
    pos: nat,
    depth: nat,
)
    ensures
        ({
            let o = decode_named(rules, data, fields, n, pos, depth);
            o.result is Ok ==> proper(ValueModel::Dict(o.result->Ok_0))
        }),
    decreases remaining(data, pos), depth, 2nat, n, 0nat,
{
    if n > 0 {
        let before = decode_named(rules, data, fields, (n - 1) as nat, pos, depth);
        lemma_named_proper(rules, data, fields, (n - 1) as nat, pos, depth);
        let at = pos + before.used;
        let left = depth_at(rules, data, pos, at, depth);
        lemma_type_proper(rules, data, fields[n - 1].ty, at, left);
        let value = decode_type(rules, data, fields[n - 1].ty, at, left);
        if before.result is Ok && value.result is Ok {
            lemma_proper_set(before.result->Ok_0, fields[n - 1].name, value.result->Ok_0);
        }
    }
}

/// In fields that decode, no dictionary has a key twice.
pub proof fn lemma_fields_proper(
    rules: Rules,
    data: Seq<u8>,
    fields: Option<FieldsModel>,
    pos: nat,
    depth: nat,
)
    ensures
        gives_proper(decode_fields(rules, data, fields, pos, depth)),
    decreases remaining(data, pos), depth, 3nat, 0nat, 0nat,
{
    match fields {
        None => {},
        Some(FieldsModel::Named(named)) => {
            lemma_named_proper(rules, data, named, named.len(), pos, depth);
        },
        Some(FieldsModel::Tuple(types)) => {
            lemma_tuple_proper(rules, data, types, types.len(), pos, depth);
        },
    }
}

proof fn lemma_enum_proper(
    rules: Rules,
    data: Seq<u8>,
    variants: Seq<VariantModel>,
    pos: nat,
    depth: nat,
)
    ensures
        gives_proper(decode_enum(rules, data, variants, pos, depth)),
    decreases remaining(data, pos), depth, 3nat, 0nat, 0nat,
{
    if pos + 1 <= data.len() {
        let t = data[pos as int] as int;
        if t < variants.len() {
            let left = depth_at(rules, data, pos, pos + 1, depth);
            lemma_fields_proper(rules, data, variants[t].fields, pos + 1, left);
        }
    }
}

proof fn lemma_body_proper(
    rules: Rules,
    data: Seq<u8>,
    body: BodyModel,
    pos: nat,
    depth: nat,
)
    ensures
        gives_proper(decode_body(rules, data, body, pos, depth)),
    decreases remaining(data, pos), depth, 4nat, 0nat, 0nat,
{
    match body {
        BodyModel::Struct { fields } => {
            lemma_fields_proper(rules, data, fields, pos, depth);
        },
        BodyModel::Enum { variants } => {
            lemma_enum_proper(rules, data, variants, pos, depth);
        },
        BodyModel::Type { alias } => {
            lemma_type_proper(rules, data, alias, pos, depth);
        },
    }
}

proof fn lemma_defined_proper(
    rules: Rules,
    data: Seq<u8>,
    name: Seq<char>,
    pos: nat,
    depth: nat,
)
    ensures
        gives_proper(decode_defined(rules, data, name, pos, depth)),
    decreases remaining(data, pos), depth, 0nat, 0nat, 0nat,
{
    if rules.types.dom().contains(name) && depth > 0 {
        lemma_body_proper(rules, data, rules.types[name], pos, (depth - 1) as nat);
    }
}

} // verus!
