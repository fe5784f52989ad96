//! A value depends on the bytes that it uses up, and on nothing around them.
use crate::borsh::{
    decode_body, decode_defined, decode_enum, decode_fields, decode_items, decode_named,
    decode_tuple, decode_type, depth_at, height, remaining, Rules,
};
use crate::cursor::read_len;
use crate::idl::{BodyModel, FieldModel, FieldsModel, LenModel, TypeModel, VariantModel};
use crate::progress::{
    lemma_fields_in_buffer, lemma_items_in_buffer, lemma_named_in_buffer, lemma_tuple_in_buffer,
    lemma_type_in_buffer,
};
use vstd::prelude::*;

verus! {

/// The `n` bytes of `a` from `p` on are those of `b` from `q` on, and `b` is a
/// buffer that fits in memory.
pub open spec fn same_bytes_at(a: Seq<u8>, p: nat, b: Seq<u8>, q: nat, n: nat) -> bool {
    &&& p + n <= a.len()
    &&& q + n <= b.len() <= usize::MAX
    &&& a.subrange(p as int, (p + n) as int) == b.subrange(q as int, (q + n) as int)
}

proof fn lemma_same_part(a: Seq<u8>, p: nat, b: Seq<u8>, q: nat, n: nat, from: nat, m: nat)
    requires
        same_bytes_at(a, p, b, q, n),
        from + m <= n,
    ensures
        same_bytes_at(a, p + from, b, q + from, m),
{
    let x = a.subrange(p as int, (p + n) as int);
    let y = b.subrange(q as int, (q + n) as int);
    assert(a.subrange((p + from) as int, (p + from + m) as int) =~= x.subrange(
        from as int,
        (from + m) as int,
    ));
    assert(b.subrange((q + from) as int, (q + from + m) as int) =~= y.subrange(
        from as int,
        (from + m) as int,
    ));
}

proof fn lemma_same_depth(rules: Rules, a: Seq<u8>, p: nat, b: Seq<u8>, q: nat, n: nat, depth: nat)
    requires
        p + n <= a.len(),
        q + n <= b.len(),
    ensures
        depth_at(rules, a, p, p + n, depth) == depth_at(rules, b, q, q + n, depth),
{
}

/// Where the bytes that a value uses up stand again, it decodes again, to the
/// same value.
pub proof fn lemma_type_local(
    rules: Rules,
    a: Seq<u8>,
    p: nat,
    b: Seq<u8>,
    q: nat,
    ty: TypeModel,
    depth: nat,
)
    requires
        decode_type(rules, a, ty, p, depth).result is Ok,
        same_bytes_at(a, p, b, q, decode_type(rules, a, ty, p, depth).used),
    ensures
        decode_type(rules, b, ty, q, depth) == decode_type(rules, a, ty, p, depth),
    decreases remaining(a, p), depth, 1nat, height(ty), 0nat,
{
    let used = decode_type(rules, a, ty, p, depth).used;
    match ty {
        TypeModel::Bytes | TypeModel::String => {
            lemma_same_part(a, p, b, q, used, 0, 4);
            lemma_same_part(a, p, b, q, used, 4, (used - 4) as nat);
        },
        TypeModel::Option(inner) => {
            lemma_same_part(a, p, b, q, used, 0, 1);
            if a.subrange(p as int, (p + 1) as int)[0] != 0 {
                lemma_same_part(a, p, b, q, used, 1, (used - 1) as nat);
                lemma_same_depth(rules, a, p, b, q, 1, depth);
                let left = depth_at(rules, a, p, p + 1, depth);
                lemma_type_local(rules, a, p + 1, b, q + 1, *inner, left);
            }
        },
        TypeModel::Vec(inner) => {
            lemma_same_part(a, p, b, q, used, 0, 4);
            lemma_same_part(a, p, b, q, used, 4, (used - 4) as nat);
            lemma_same_depth(rules, a, p, b, q, 4, depth);
            let n = read_len(a, p).result->Ok_0;
            let left = depth_at(rules, a, p, p + 4, depth);
            lemma_items_local(rules, a, p + 4, b, q + 4, *inner, n, left);
        },
        TypeModel::Array(inner, LenModel::Value(n)) => {
            lemma_items_local(rules, a, p, b, q, *inner, n, depth);
        },
        TypeModel::Defined { name, generics } => {
            lemma_defined_local(rules, a, p, b, q, name, depth);
        },
        _ => {},
    }
}

proof fn lemma_items_local(
    rules: Rules,
    a: Seq<u8>,
    p: nat,
    b: Seq<u8>,
    q: nat,
    ty: TypeModel,
    n: nat,
    depth: nat,
)
    requires
        decode_items(rules, a, ty, n, p, depth).result is Ok,
        same_bytes_at(a, p, b, q, decode_items(rules, a, ty, n, p, depth).used),
    ensures
        decode_items(rules, b, ty, n, q, depth) == decode_items(rules, a, ty, n, p, depth),
    decreases remaining(a, p), depth, 1nat, height(ty), n,
{
    if n > 0 {
        let used = decode_items(rules, a, ty, n, p, depth).used;
        let m = (n - 1) as nat;
        let first = decode_items(rules, a, ty, m, p, depth).used;
        lemma_items_in_buffer(rules, a, ty, m, p, depth);
        lemma_same_part(a, p, b, q, used, 0, first);
        lemma_items_local(rules, a, p, b, q, ty, m, depth);
        lemma_same_part(a, p, b, q, used, first, (used - first) as nat);
        lemma_same_depth(rules, a, p, b, q, first, depth);
        let left = depth_at(rules, a, p, p + first, depth);
        lemma_type_local(rules, a, p + first, b, q + first, ty, left);
    }
}

proof fn lemma_tuple_local(
    rules: Rules,
    a: Seq<u8>,
    p: nat,
    b: Seq<u8>,
    q: nat,
    types: Seq<TypeModel>,
    n: nat,
    depth: nat,
)
    requires
        decode_tuple(rules, a, types, n, p, depth).result is Ok,
        same_bytes_at(a, p, b, q, decode_tuple(rules, a, types, n, p, depth).used),
    ensures
        decode_tuple(rules, b, types, n, q, depth) == decode_tuple(rules, a, types, n, p, depth),
    decreases remaining(a, p), depth, 2nat, n, 0nat,
{
    if n > 0 {
        let used = decode_tuple(rules, a, types, n, p, depth).used;
        let m = (n - 1) as nat;
        let first = decode_tuple(rules, a, types, m, p, depth).used;
        lemma_tuple_in_buffer(rules, a, types, m, p, depth);
        lemma_same_part(a, p, b, q, used, 0, first);
        lemma_tuple_local(rules, a, p, b, q, types, m, depth);
        lemma_same_part(a, p, b, q, used, first, (used - first) as nat);
        lemma_same_depth(rules, a, p, b, q, first, depth);
        let left = depth_at(rules, a, p, p + first, depth);
        lemma_type_local(rules, a, p + first, b, q + first, types[n - 1], left);
    }
}

proof fn lemma_named_local(
    rules: Rules,
    a: Seq<u8>,
    p: nat,
    b: Seq<u8>,
    q: nat,
    fields: Seq<FieldModel>,
    n: nat,
    depth: nat,
)
    requires
        decode_named(rules, a, fields, n, p, depth).result is Ok,
        same_bytes_at(a, p, b, q, decode_named(rules, a, fields, n, p, depth).used),
    ensures
        decode_named(rules, b, fields, n, q, depth) == decode_named(rules, a, fields, n, p, depth),
    decreases remaining(a, p), depth, 2nat, n, 0nat,
{
    if n > 0 {
        let used = decode_named(rules, a, fields, n, p, depth).used;
        let m = (n - 1) as nat;
        let first = decode_named(rules, a, fields, m, p, depth).used;
        lemma_named_in_buffer(rules, a, fields, m, p, depth);
        lemma_same_part(a, p, b, q, used, 0, first);
        lemma_named_local(rules, a, p, b, q, fields, m, depth);
        lemma_same_part(a, p, b, q, used, first, (used - first) as nat);
        lemma_same_depth(rules, a, p, b, q, first, depth);
        let left = depth_at(rules, a, p, p + first, depth);
        lemma_type_local(rules, a, p + first, b, q + first, fields[n - 1].ty, left);
    }
}

/// Where the bytes that fields use up stand again, they decode again, to the
/// same value.
pub proof fn lemma_fields_local(
    rules: Rules,
    a: Seq<u8>,
    p: nat,
    b: Seq<u8>,
    q: nat,
    fields: Option<FieldsModel>,
    depth: nat,
)
    requires
        decode_fields(rules, a, fields, p, depth).result is Ok,
        same_bytes_at(a, p, b, q, decode_fields(rules, a, fields, p, depth).used),
    ensures
        decode_fields(rules, b, fields, q, depth) == decode_fields(rules, a, fields, p, depth),
    decreases remaining(a, p), depth, 3nat, 0nat, 0nat,
{
    match fields {
        None => {},
        Some(FieldsModel::Named(named)) => {
            lemma_named_local(rules, a, p, b, q, named, named.len(), depth);
        },
        Some(FieldsModel::Tuple(types)) => {
            lemma_tuple_local(rules, a, p, b, q, types, types.len(), depth);
        },
    }
}

proof fn lemma_enum_local(
    rules: Rules,
    a: Seq<u8>,
    p: nat,
    b: Seq<u8>,
    q: nat,
    variants: Seq<VariantModel>,
    depth: nat,
)
    requires
        decode_enum(rules, a, variants, p, depth).result is Ok,
        same_bytes_at(a, p, b, q, decode_enum(rules, a, variants, p, depth).used),
    ensures
        decode_enum(rules, b, variants, q, depth) == decode_enum(rules, a, variants, p, depth),
    decreases remaining(a, p), depth, 3nat, 0nat, 0nat,
{
    let used = decode_enum(rules, a, variants, p, depth).used;
    lemma_same_part(a, p, b, q, used, 0, 1);
    let t = a.subrange(p as int, (p + 1) as int)[0] as int;
    if variants[t].fields is Some {
        lemma_same_part(a, p, b, q, used, 1, (used - 1) as nat);
        lemma_same_depth(rules, a, p, b, q, 1, depth);
        let left = depth_at(rules, a, p, p + 1, depth);
        lemma_fields_local(rules, a, p + 1, b, q + 1, variants[t].fields, left);
    }
}

proof fn lemma_body_local(
    rules: Rules,
    a: Seq<u8>,
    p: nat,
    b: Seq<u8>,
    q: nat,
    body: BodyModel,
    depth: nat,
)
    requires
        decode_body(rules, a, body, p, depth).result is Ok,
        same_bytes_at(a, p, b, q, decode_body(rules, a, body, p, depth).used),
    ensures
        decode_body(rules, b, body, q, depth) == decode_body(rules, a, body, p, depth),
    decreases remaining(a, p), depth, 4nat, 0nat, 0nat,
{
    match body {
        BodyModel::Struct { fields } => {
            lemma_fields_local(rules, a, p, b, q, fields, depth);
        },
        BodyModel::Enum { variants } => {
            lemma_enum_local(rules, a, p, b, q, variants, depth);
        },
        BodyModel::Type { alias } => {
            lemma_type_local(rules, a, p, b, q, alias, depth);
        },
    }
}

proof fn lemma_defined_local(
    rules: Rules,
    a: Seq<u8>,
    p: nat,
    b: Seq<u8>,
    q: nat,
    name: Seq<char>,
    depth: nat,
)
    requires
        decode_defined(rules, a, name, p, depth).result is Ok,
        same_bytes_at(a, p, b, q, decode_defined(rules, a, name, p, depth).used),
    ensures
        decode_defined(rules, b, name, q, depth) == decode_defined(rules, a, name, p, depth),
    decreases remaining(a, p), depth, 0nat, 0nat, 0nat,
{
    lemma_body_local(rules, a, p, b, q, rules.types[name], (depth - 1) as nat);
}

/// No byte that a value uses up can be cut off: without its end it does not
/// decode.
pub proof fn lemma_type_needs_all(
    rules: Rules,
    data: Seq<u8>,
    ty: TypeModel,
    pos: nat,
    depth: nat,
    len: nat,
)
    requires
        data.len() <= usize::MAX,
        decode_type(rules, data, ty, pos, depth).result is Ok,
        pos <= len < pos + decode_type(rules, data, ty, pos, depth).used,
    ensures
        decode_type(rules, data.take(len as int), ty, pos, depth).result is Err,
{
    let cut = data.take(len as int);
    let o = decode_type(rules, cut, ty, pos, depth);
    lemma_type_in_buffer(rules, data, ty, pos, depth);
    lemma_type_in_buffer(rules, cut, ty, pos, depth);
    if o.result is Ok {
        assert(cut.subrange(pos as int, (pos + o.used) as int) =~= data.subrange(
            pos as int,
            (pos + o.used) as int,
        ));
        lemma_type_local(rules, cut, pos, data, pos, ty, depth);
    }
}

/// No byte that fields use up can be cut off: without their end they do not
/// decode.
pub proof fn lemma_fields_need_all(
    rules: Rules,
    data: Seq<u8>,
    fields: Option<FieldsModel>,
    pos: nat,
    depth: nat,
    len: nat,
)
    requires
        data.len() <= usize::MAX,
        decode_fields(rules, data, fields, pos, depth).result is Ok,
        pos <= len < pos + decode_fields(rules, data, fields, pos, depth).used,
    ensures
        decode_fields(rules, data.take(len as int), fields, pos, depth).result is Err,
{
    let cut = data.take(len as int);
    let o = decode_fields(rules, cut, fields, pos, depth);
    lemma_fields_in_buffer(rules, data, fields, pos, depth);
    lemma_fields_in_buffer(rules, cut, fields, pos, depth);
    if o.result is Ok {
        assert(cut.subrange(pos as int, (pos + o.used) as int) =~= data.subrange(
            pos as int,
            (pos + o.used) as int,
        ));
        lemma_fields_local(rules, cut, pos, data, pos, fields, depth);
    }
}

} // verus!
