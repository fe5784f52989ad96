//! Everything that decodes is spelled by the bytes that it uses up.
use crate::borsh::{
    decode_body, decode_defined, decode_enum, decode_fields, decode_items, decode_named,
    decode_sint, decode_tuple, decode_type, decode_uint, guarded, height, read_prefixed, remaining,
};
use crate::cursor::{read, read_len};
use crate::encoding::{
    dict_of, encode_body, encode_defined, encode_enum, encode_fields, encode_items, encode_len,
    encode_named, encode_sint, encode_tuple, encode_type, encode_uint, lemma_le_int_back,
    lemma_le_nat_back, lemma_shown_list, lemma_shown_record, shown, shown_fields, shown_items,
    Datum,
};
use crate::guard::{endless, lemma_fields_guard_exact, lemma_type_guard_exact, plain};
use crate::idl::{BodyModel, FieldModel, FieldsModel, TypeModel, VariantModel};
use crate::numbers::{le_int, le_nat, lemma_le_nat_bound, pow256};
use vstd::prelude::*;
use vstd::utf8::decode_utf8_encode_utf8;

verus! {

proof fn lemma_items_prefix(
    types: Map<Seq<char>, BodyModel>,
    ty: TypeModel,
    a: Seq<Datum>,
    b: Seq<Datum>,
    n: nat,
    depth: nat,
)
    requires
        forall|i: int| 0 <= i < n ==> a[i] == b[i],
    ensures
        encode_items(types, ty, a, n, depth) == encode_items(types, ty, b, n, depth),
    decreases n,
{
    if n > 0 {
        lemma_items_prefix(types, ty, a, b, (n - 1) as nat, depth);
    }
}

proof fn lemma_tuple_prefix(
    types: Map<Seq<char>, BodyModel>,
    members: Seq<TypeModel>,
    a: Seq<Datum>,
    b: Seq<Datum>,
    n: nat,
    depth: nat,
)
    requires
        forall|i: int| 0 <= i < n ==> a[i] == b[i],
    ensures
        encode_tuple(types, members, a, n, depth) == encode_tuple(types, members, b, n, depth),
    decreases n,
{
    if n > 0 {
        lemma_tuple_prefix(types, members, a, b, (n - 1) as nat, depth);
    }
}

proof fn lemma_named_prefix(
    types: Map<Seq<char>, BodyModel>,
    fields: Seq<FieldModel>,
    a: Seq<(Seq<char>, Datum)>,
    b: Seq<(Seq<char>, Datum)>,
    n: nat,
    depth: nat,
)
    requires
        forall|i: int| 0 <= i < n ==> a[i] == b[i],
    ensures
        encode_named(types, fields, a, n, depth) == encode_named(types, fields, b, n, depth),
    decreases n,
{
    if n > 0 {
        lemma_named_prefix(types, fields, a, b, (n - 1) as nat, depth);
    }
}

/// `bytes` are the next `used` bytes of `data`, where `pos` lies within it.
spec fn taken(data: Seq<u8>, pos: nat, bytes: Seq<u8>, used: nat) -> bool {
    pos <= data.len() ==> {
        &&& pos + used <= data.len()
        &&& bytes == data.subrange(pos as int, (pos + used) as int)
    }
}

proof fn lemma_taken_nothing(data: Seq<u8>, pos: nat)
    ensures
        taken(data, pos, Seq::empty(), 0),
{
    if pos <= data.len() {
        assert(data.subrange(pos as int, pos as int) =~= Seq::empty());
    }
}

proof fn lemma_taken_parts(data: Seq<u8>, pos: nat, x: Seq<u8>, m: nat, y: Seq<u8>, n: nat)
    requires
        taken(data, pos, x, m),
        taken(data, pos + m, y, n),
    ensures
        taken(data, pos, x + y, m + n),
{
    if pos <= data.len() {
        assert(x + y =~= data.subrange(pos as int, (pos + m + n) as int));
    }
}

/// The value that the bytes at `pos` spell.
proof fn lemma_type_written(
    types: Map<Seq<char>, BodyModel>,
    data: Seq<u8>,
    ty: TypeModel,
    pos: nat,
    depth: nat,
) -> (d: Datum)
    requires
        decode_type(plain(types), data, ty, pos, depth).result is Ok,
    ensures
        encode_type(types, ty, d, depth) is Some,
        taken(
            data,
            pos,
            encode_type(types, ty, d, depth)->Some_0,
            decode_type(plain(types), data, ty, pos, depth).used,
        ),
        decode_type(plain(types), data, ty, pos, depth).result->Ok_0 == shown(d),
    decreases remaining(data, pos), depth, 1nat, height(ty), 0nat,
{
    let v = decode_type(plain(types), data, ty, pos, depth).result->Ok_0;
    match ty {
        TypeModel::Bool => {
            let byte = read(data, pos, 1).result->Ok_0;
            assert(seq![byte[0]] =~= byte);
            Datum::Bool(byte[0])
        },
        TypeModel::U8 => lemma_uint_written(data, pos, 1),
        TypeModel::I8 => lemma_sint_written(data, pos, 1),
        TypeModel::U16 => lemma_uint_written(data, pos, 2),
        TypeModel::I16 => lemma_sint_written(data, pos, 2),
        TypeModel::U32 => lemma_uint_written(data, pos, 4),
        TypeModel::I32 => lemma_sint_written(data, pos, 4),
        TypeModel::F32 => {
            let bytes = read(data, pos, 4).result->Ok_0;
            reveal_with_fuel(pow256, 5);
            lemma_le_nat_bound(bytes);
            lemma_le_nat_back(bytes);
            Datum::F32(v->F32_0)
        },
        TypeModel::U64 => lemma_uint_written(data, pos, 8),
        TypeModel::I64 => lemma_sint_written(data, pos, 8),
        TypeModel::F64 => {
            let bytes = read(data, pos, 8).result->Ok_0;
            reveal_with_fuel(pow256, 9);
            lemma_le_nat_bound(bytes);
            lemma_le_nat_back(bytes);
            Datum::F64(v->F64_0)
        },
        TypeModel::U128 => lemma_uint_written(data, pos, 16),
        TypeModel::I128 => lemma_sint_written(data, pos, 16),
        TypeModel::U256 => lemma_uint_written(data, pos, 32),
        TypeModel::I256 => lemma_sint_written(data, pos, 32),
        TypeModel::Bytes => {
            lemma_prefixed_written(data, pos);
            Datum::Bytes(v->Bytes_0)
        },
        TypeModel::String => {
            lemma_prefixed_written(data, pos);
            let n = read_len(data, pos).result->Ok_0;
            decode_utf8_encode_utf8(read(data, pos + 4, n).result->Ok_0);
            Datum::Text(v->Str_0)
        },
        TypeModel::Pubkey => Datum::Key(read(data, pos, 32).result->Ok_0),
        TypeModel::Option(inner) => {
            let byte = read(data, pos, 1).result->Ok_0;
            assert(seq![byte[0]] =~= byte);
            if byte[0] == 0 {
                Datum::Absent
            } else {
                let held = lemma_type_written(types, data, *inner, pos + 1, depth);
                lemma_taken_parts(
                    data,
                    pos,
                    byte,
                    1,
                    encode_type(types, *inner, held, depth)->Some_0,
                    decode_type(plain(types), data, *inner, pos + 1, depth).used,
                );
                Datum::Present { mark: byte[0], held: Box::new(held) }
            }
        },
        TypeModel::Vec(inner) => {
            let n = lemma_len_written(data, pos);
            let items = lemma_items_written(types, data, *inner, n, pos + 4, depth);
            lemma_shown_list(items);
            lemma_taken_parts(
                data,
                pos,
                encode_len(n)->Some_0,
                4,
                encode_items(types, *inner, items, n, depth)->Some_0,
                decode_items(plain(types), data, *inner, n, pos + 4, depth).used,
            );
            Datum::List(items)
        },
        TypeModel::Array(inner, len) => {
            let items = lemma_items_written(types, data, *inner, len->Value_0, pos, depth);
            lemma_shown_list(items);
            Datum::List(items)
        },
        TypeModel::Defined { name, .. } => lemma_defined_written(types, data, name, pos, depth),
        TypeModel::Generic(_) => Datum::Absent,
    }
}

proof fn lemma_uint_written(data: Seq<u8>, pos: nat, n: nat) -> (d: Datum)
    requires
        decode_uint(data, pos, n).result is Ok,
    ensures
        encode_uint(d, n) is Some,
        taken(data, pos, encode_uint(d, n)->Some_0, n),
        decode_uint(data, pos, n).result->Ok_0 == shown(d),
{
    let bytes = read(data, pos, n).result->Ok_0;
    lemma_le_nat_bound(bytes);
    lemma_le_nat_back(bytes);
    Datum::Int(le_nat(bytes) as int)
}

proof fn lemma_sint_written(data: Seq<u8>, pos: nat, n: nat) -> (d: Datum)
    requires
        n > 0,
        decode_sint(data, pos, n).result is Ok,
    ensures
        encode_sint(d, n) is Some,
        taken(data, pos, encode_sint(d, n)->Some_0, n),
        decode_sint(data, pos, n).result->Ok_0 == shown(d),
{
    let bytes = read(data, pos, n).result->Ok_0;
    lemma_le_nat_bound(bytes);
    lemma_le_int_back(bytes);
    Datum::Int(le_int(bytes))
}

proof fn lemma_len_written(data: Seq<u8>, pos: nat) -> (n: nat)
    requires
        read_len(data, pos).result is Ok,
    ensures
        read_len(data, pos).result->Ok_0 == n,
        encode_len(n) is Some,
        taken(data, pos, encode_len(n)->Some_0, 4),
{
    let bytes = read(data, pos, 4).result->Ok_0;
    lemma_le_nat_bound(bytes);
    lemma_le_nat_back(bytes);
    le_nat(bytes)
}

proof fn lemma_prefixed_written(data: Seq<u8>, pos: nat)
    requires
        read_prefixed(data, pos).result is Ok,
    ensures
        ({
            let o = read_prefixed(data, pos);
            let bytes = o.result->Ok_0;
            &&& encode_len(bytes.len()) is Some
            &&& taken(data, pos, encode_len(bytes.len())->Some_0 + bytes, o.used)
        }),
{
    let n = lemma_len_written(data, pos);
    let bytes = read(data, pos + 4, n).result->Ok_0;
    lemma_taken_parts(data, pos, encode_len(n)->Some_0, 4, bytes, n);
}

proof fn lemma_items_written(
    types: Map<Seq<char>, BodyModel>,
    data: Seq<u8>,
    ty: TypeModel,
    n: nat,
    pos: nat,
    depth: nat,
) -> (items: Seq<Datum>)
    requires
        decode_items(plain(types), data, ty, n, pos, depth).result is Ok,
    ensures
        items.len() == n,
        encode_items(types, ty, items, n, depth) is Some,
        taken(
            data,
            pos,
            encode_items(types, ty, items, n, depth)->Some_0,
            decode_items(plain(types), data, ty, n, pos, depth).used,
        ),
        decode_items(plain(types), data, ty, n, pos, depth).result->Ok_0 == shown_items(items),
    decreases remaining(data, pos), depth, 1nat, height(ty), n,
{
    if n == 0 {
        lemma_taken_nothing(data, pos);
        assert(shown_items(Seq::empty()) =~= Seq::empty());
        Seq::empty()
    } else {
        let m = (n - 1) as nat;
        let used = decode_items(plain(types), data, ty, m, pos, depth).used;
        let before = lemma_items_written(types, data, ty, m, pos, depth);
        let last = lemma_type_written(types, data, ty, pos + used, depth);
        let items = before.push(last);
        lemma_items_prefix(types, ty, before, items, m, depth);
        lemma_taken_parts(
            data,
            pos,
            encode_items(types, ty, before, m, depth)->Some_0,
            used,
            encode_type(types, ty, last, depth)->Some_0,
            decode_type(plain(types), data, ty, pos + used, depth).used,
        );
        assert(shown_items(items) =~= shown_items(before).push(shown(last)));
        items
    }
}

proof fn lemma_tuple_written(
    types: Map<Seq<char>, BodyModel>,
    data: Seq<u8>,
    members: Seq<TypeModel>,
    n: nat,
    pos: nat,
    depth: nat,
) -> (items: Seq<Datum>)
    requires
        decode_tuple(plain(types), data, members, n, pos, depth).result is Ok,
    ensures
        items.len() == n,
        encode_tuple(types, members, items, n, depth) is Some,
        taken(
            data,
            pos,
            encode_tuple(types, members, items, n, depth)->Some_0,
            decode_tuple(plain(types), data, members, n, pos, depth).used,
        ),
        decode_tuple(plain(types), data, members, n, pos, depth).result->Ok_0 == shown_items(
            items,
        ),
    decreases remaining(data, pos), depth, 2nat, n, 0nat,
{
    if n == 0 {
        lemma_taken_nothing(data, pos);
        assert(shown_items(Seq::empty()) =~= Seq::empty());
        Seq::empty()
    } else {
        let m = (n - 1) as nat;
        let used = decode_tuple(plain(types), data, members, m, pos, depth).used;
        let before = lemma_tuple_written(types, data, members, m, pos, depth);
        let last = lemma_type_written(types, data, members[n - 1], pos + used, depth);
        let items = before.push(last);
        lemma_tuple_prefix(types, members, before, items, m, depth);
        lemma_taken_parts(
            data,
            pos,
            encode_tuple(types, members, before, m, depth)->Some_0,
            used,
            encode_type(types, members[n - 1], last, depth)->Some_0,
            decode_type(plain(types), data, members[n - 1], pos + used, depth).used,
        );
        assert(shown_items(items) =~= shown_items(before).push(shown(last)));
        items
    }
}

proof fn lemma_named_written(
    types: Map<Seq<char>, BodyModel>,
    data: Seq<u8>,
    fields: Seq<FieldModel>,
    n: nat,
    pos: nat,
    depth: nat,
) -> (record: Seq<(Seq<char>, Datum)>)
    requires
        decode_named(plain(types), data, fields, n, pos, depth).result is Ok,
    ensures
        record.len() == n,
        encode_named(types, fields, record, n, depth) is Some,
        taken(
            data,
            pos,
            encode_named(types, fields, record, n, depth)->Some_0,
            decode_named(plain(types), data, fields, n, pos, depth).used,
        ),
        decode_named(plain(types), data, fields, n, pos, depth).result->Ok_0 == dict_of(
            shown_fields(record),
        ),
    decreases remaining(data, pos), depth, 2nat, n, 0nat,
{
    if n == 0 {
        lemma_taken_nothing(data, pos);
        assert(shown_fields(Seq::empty()) =~= Seq::empty());
        Seq::empty()
    } else {
        let m = (n - 1) as nat;
        let used = decode_named(plain(types), data, fields, m, pos, depth).used;
        let before = lemma_named_written(types, data, fields, m, pos, depth);
        let last = lemma_type_written(types, data, fields[n - 1].ty, pos + used, depth);
        let record = before.push((fields[n - 1].name, last));
        lemma_named_prefix(types, fields, before, record, m, depth);
        lemma_taken_parts(
            data,
            pos,
            encode_named(types, fields, before, m, depth)->Some_0,
            used,
            encode_type(types, fields[n - 1].ty, last, depth)->Some_0,
            decode_type(plain(types), data, fields[n - 1].ty, pos + used, depth).used,
        );
        assert(shown_fields(record).drop_last() =~= shown_fields(before));
        record
    }
}

proof fn lemma_fields_written(
    types: Map<Seq<char>, BodyModel>,
    data: Seq<u8>,
    fields: Option<FieldsModel>,
    pos: nat,
    depth: nat,
) -> (d: Datum)
    requires
        decode_fields(plain(types), data, fields, pos, depth).result is Ok,
    ensures
        encode_fields(types, fields, d, depth) is Some,
        taken(
            data,
            pos,
            encode_fields(types, fields, d, depth)->Some_0,
            decode_fields(plain(types), data, fields, pos, depth).used,
        ),
        decode_fields(plain(types), data, fields, pos, depth).result->Ok_0 == shown(d),
    decreases remaining(data, pos), depth, 3nat, 0nat, 0nat,
{
    match fields {
        None => {
            lemma_taken_nothing(data, pos);
            lemma_shown_record(Seq::empty());
            assert(shown_fields(Seq::empty()) =~= Seq::empty());
            Datum::Record(Seq::empty())
        },
        Some(FieldsModel::Named(named)) => {
            let record = lemma_named_written(types, data, named, named.len(), pos, depth);
            lemma_shown_record(record);
            Datum::Record(record)
        },
        Some(FieldsModel::Tuple(members)) => {
            let items = lemma_tuple_written(types, data, members, members.len(), pos, depth);
            lemma_shown_list(items);
            Datum::List(items)
        },
    }
}

proof fn lemma_enum_written(
    types: Map<Seq<char>, BodyModel>,
    data: Seq<u8>,
    variants: Seq<VariantModel>,
    pos: nat,
    depth: nat,
) -> (d: Datum)
    requires
        decode_enum(plain(types), data, variants, pos, depth).result is Ok,
    ensures
        encode_enum(types, variants, d, depth) is Some,
        taken(
            data,
            pos,
            encode_enum(types, variants, d, depth)->Some_0,
            decode_enum(plain(types), data, variants, pos, depth).used,
        ),
        decode_enum(plain(types), data, variants, pos, depth).result->Ok_0 == shown(d),
    decreases remaining(data, pos), depth, 3nat, 0nat, 0nat,
{
    let byte = read(data, pos, 1).result->Ok_0;
    assert(seq![byte[0]] =~= byte);
    let tag = byte[0] as nat;
    let name = variants[tag as int].name;
    match variants[tag as int].fields {
        None => Datum::Variant { tag, name, fields: None },
        Some(members) => {
            let inner = lemma_fields_written(types, data, Some(members), pos + 1, depth);
            lemma_taken_parts(
                data,
                pos,
                byte,
                1,
                encode_fields(types, Some(members), inner, depth)->Some_0,
                decode_fields(plain(types), data, Some(members), pos + 1, depth).used,
            );
            Datum::Variant { tag, name, fields: Some(Box::new(inner)) }
        },
    }
}

proof fn lemma_body_written(
    types: Map<Seq<char>, BodyModel>,
    data: Seq<u8>,
    body: BodyModel,
    pos: nat,
    depth: nat,
) -> (d: Datum)
    requires
        decode_body(plain(types), data, body, pos, depth).result is Ok,
    ensures
        encode_body(types, body, d, depth) is Some,
        taken(
            data,
            pos,
            encode_body(types, body, d, depth)->Some_0,
            decode_body(plain(types), data, body, pos, depth).used,
        ),
        decode_body(plain(types), data, body, pos, depth).result->Ok_0 == shown(d),
    decreases remaining(data, pos), depth, 4nat, 0nat, 0nat,
{
    match body {
        BodyModel::Struct { fields } => lemma_fields_written(types, data, fields, pos, depth),
        BodyModel::Enum { variants } => lemma_enum_written(types, data, variants, pos, depth),
        BodyModel::Type { alias } => lemma_type_written(types, data, alias, pos, depth),
    }
}

proof fn lemma_defined_written(
    types: Map<Seq<char>, BodyModel>,
    data: Seq<u8>,
    name: Seq<char>,
    pos: nat,
    depth: nat,
) -> (d: Datum)
    requires
        decode_defined(plain(types), data, name, pos, depth).result is Ok,
    ensures
        encode_defined(types, name, d, depth) is Some,
        taken(
            data,
            pos,
            encode_defined(types, name, d, depth)->Some_0,
            decode_defined(plain(types), data, name, pos, depth).used,
        ),
        decode_defined(plain(types), data, name, pos, depth).result->Ok_0 == shown(d),
    decreases remaining(data, pos), depth, 0nat, 0nat, 0nat,
{
    lemma_body_written(types, data, types[name], pos, (depth - 1) as nat)
}

/// Everything that decodes is what some value of the type looks like, and that
/// value can be written.
pub proof fn lemma_type_writable(
    types: Map<Seq<char>, BodyModel>,
    data: Seq<u8>,
    ty: TypeModel,
    pos: nat,
)
    requires
        types.dom().finite(),
        decode_type(guarded(types), data, ty, pos, types.dom().len()).result is Ok,
    ensures
        ({
            let v = decode_type(guarded(types), data, ty, pos, types.dom().len()).result->Ok_0;
            exists|d: Datum, depth: nat|
                (#[trigger] encode_type(types, ty, d, depth)) is Some && shown(d) == v
        }),
{
    lemma_type_guard_exact(types, data, ty, pos);
    let deep = choose|deep: nat|
        !endless(#[trigger] decode_type(plain(types), data, ty, pos, deep));
    let d = lemma_type_written(types, data, ty, pos, deep);
    assert(encode_type(types, ty, d, deep) is Some);
}

/// All fields that decode are what some value of them looks like, and that value
/// can be written.
pub proof fn lemma_fields_writable(
    types: Map<Seq<char>, BodyModel>,
    data: Seq<u8>,
    fields: Option<FieldsModel>,
    pos: nat,
)
    requires
        types.dom().finite(),
        decode_fields(guarded(types), data, fields, pos, types.dom().len()).result is Ok,
    ensures
        ({
            let o = decode_fields(guarded(types), data, fields, pos, types.dom().len());
            exists|d: Datum, depth: nat|
                (#[trigger] encode_fields(types, fields, d, depth)) is Some && shown(d)
                    == o.result->Ok_0
        }),
{
    lemma_fields_guard_exact(types, data, fields, pos);
    let deep = choose|deep: nat|
        !endless(#[trigger] decode_fields(plain(types), data, fields, pos, deep));
    let d = lemma_fields_written(types, data, fields, pos, deep);
    assert(encode_fields(types, fields, d, deep) is Some);
}

/// A value is read only from bytes that spell it: what has been used up is the
/// Borsh form of a value of the type, and that value is what came out.
pub proof fn lemma_type_spelled(
    types: Map<Seq<char>, BodyModel>,
    data: Seq<u8>,
    ty: TypeModel,
    pos: nat,
)
    requires
        types.dom().finite(),
        pos <= data.len(),
        decode_type(guarded(types), data, ty, pos, types.dom().len()).result is Ok,
    ensures
        ({
            let o = decode_type(guarded(types), data, ty, pos, types.dom().len());
            &&& pos + o.used <= data.len()
            &&& exists|d: Datum, depth: nat|
                (#[trigger] encode_type(types, ty, d, depth)) == Some(
                    data.subrange(pos as int, (pos + o.used) as int),
                ) && shown(d) == o.result->Ok_0
        }),
{
    lemma_type_guard_exact(types, data, ty, pos);
    let o = decode_type(guarded(types), data, ty, pos, types.dom().len());
    let deep = choose|deep: nat|
        !endless(#[trigger] decode_type(plain(types), data, ty, pos, deep));
    let d = lemma_type_written(types, data, ty, pos, deep);
    assert(encode_type(types, ty, d, deep) == Some(
        data.subrange(pos as int, (pos + o.used) as int),
    ));
}

/// Fields are read only from bytes that spell them: what has been used up is
/// their Borsh form, and what it spells is what came out.
pub proof fn lemma_fields_spelled(
    types: Map<Seq<char>, BodyModel>,
    data: Seq<u8>,
    fields: Option<FieldsModel>,
    pos: nat,
)
    requires
        types.dom().finite(),
        pos <= data.len(),
        decode_fields(guarded(types), data, fields, pos, types.dom().len()).result is Ok,
    ensures
        ({
            let o = decode_fields(guarded(types), data, fields, pos, types.dom().len());
            &&& pos + o.used <= data.len()
            &&& exists|d: Datum, depth: nat|
                (#[trigger] encode_fields(types, fields, d, depth)) == Some(
                    data.subrange(pos as int, (pos + o.used) as int),
                ) && shown(d) == o.result->Ok_0
        }),
{
    lemma_fields_guard_exact(types, data, fields, pos);
    let o = decode_fields(guarded(types), data, fields, pos, types.dom().len());
    let deep = choose|deep: nat|
        !endless(#[trigger] decode_fields(plain(types), data, fields, pos, deep));
    let d = lemma_fields_written(types, data, fields, pos, deep);
    assert(encode_fields(types, fields, d, deep) == Some(
        data.subrange(pos as int, (pos + o.used) as int),
    ));
}

} // verus!
