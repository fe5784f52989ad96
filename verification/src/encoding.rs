//! The Borsh bytes of typed values, and that decoding gives the values back.
use crate::base58::base58_text;
use crate::borsh::{
    decode_body, decode_defined, decode_enum, decode_fields, decode_items, decode_named,
    decode_sint, decode_tuple, decode_type, decode_uint, guarded, height, read_prefixed,
};
use crate::cursor::{read_len, Outcome};
use crate::guard::{lemma_fields_guard_exact, lemma_type_guard_exact, plain};
use crate::idl::{BodyModel, FieldModel, FieldsModel, LenModel, TypeModel, VariantModel};
use crate::numbers::{le_int, le_nat, lemma_le_nat_bound, pow256};
use crate::value::{dict_set, ValueModel};
use vstd::prelude::*;
use vstd::utf8::{encode_utf8, encode_utf8_decode_utf8, encode_utf8_valid_utf8};

verus! {

/// A value as it stands in Borsh bytes. It tells apart what looks alike once it
/// is decoded: an absent option from a present one that holds an absent one, a
/// variant from a later one of the same name, and two fields of one name.
pub enum Datum {
    /// A boolean as its byte. Programs write 0 or 1; any byte but 0 is true.
    Bool(u8),
    Int(int),
    F32(u32),
    F64(u64),
    Bytes(Seq<u8>),
    Text(Seq<char>),
    Key(Seq<u8>),
    Absent,
    /// A present option with its mark. Programs write 1; any byte but 0 will do.
    Present { mark: u8, held: Box<Datum> },
    /// The items of a vector or an array, or unnamed fields.
    List(Seq<Datum>),
    /// Named fields in their order; none where a struct has no fields.
    Record(Seq<(Seq<char>, Datum)>),
    /// The variant at `tag`, with its fields where it has any.
    Variant { tag: nat, name: Seq<char>, fields: Option<Box<Datum>> },
}

/// The dictionary after the entries have been set one after the other.
pub open spec fn dict_of(entries: Seq<(Seq<char>, ValueModel)>) -> Seq<(Seq<char>, ValueModel)>
    decreases entries.len(),
{
    if entries.len() == 0 {
        Seq::empty()
    } else {
        dict_set(dict_of(entries.drop_last()), entries.last().0, entries.last().1)
    }
}

/// What a value looks like once it is decoded: a public key is its base58 text,
/// a present option is what it holds, unnamed fields are a list and named ones a
/// dictionary, a variant without fields is its name, and one with fields a
/// dictionary from its name to them.
pub open spec fn shown(d: Datum) -> ValueModel
    decreases d,
{
    match d {
        Datum::Bool(byte) => ValueModel::Bool(byte != 0),
        Datum::Int(n) => ValueModel::Int(n),
        Datum::F32(bits) => ValueModel::F32(bits),
        Datum::F64(bits) => ValueModel::F64(bits),
        Datum::Bytes(bytes) => ValueModel::Bytes(bytes),
        Datum::Text(text) => ValueModel::Str(text),
        Datum::Key(key) => ValueModel::Str(base58_text(key)),
        Datum::Absent => ValueModel::Null,
        Datum::Present { held, .. } => shown(*held),
        Datum::List(items) => ValueModel::List(
            Seq::new(
                items.len(),
                |i: int|
                    if 0 <= i < items.len() {
                        shown(items[i])
                    } else {
                        ValueModel::Null
                    },
            ),
        ),
        Datum::Record(fields) => ValueModel::Dict(
            dict_of(
                Seq::new(
                    fields.len(),
                    |i: int|
                        if 0 <= i < fields.len() {
                            (fields[i].0, shown(fields[i].1))
                        } else {
                            (Seq::empty(), ValueModel::Null)
                        },
                ),
            ),
        ),
        Datum::Variant { name, fields, .. } => match fields {
            None => ValueModel::Str(name),
            Some(inner) => ValueModel::Dict(seq![(name, shown(*inner))]),
        },
    }
}

/// Each item as it looks once it is decoded.
pub open spec fn shown_items(items: Seq<Datum>) -> Seq<ValueModel> {
    items.map_values(|d: Datum| shown(d))
}

/// Each field as it looks once it is decoded.
pub open spec fn shown_fields(fields: Seq<(Seq<char>, Datum)>) -> Seq<(Seq<char>, ValueModel)> {
    fields.map_values(|f: (Seq<char>, Datum)| (f.0, shown(f.1)))
}

/// A list looks like the list of what its items look like.
pub(crate) proof fn lemma_shown_list(items: Seq<Datum>)
    ensures
        shown(Datum::List(items)) == ValueModel::List(shown_items(items)),
{
    assert(shown(Datum::List(items))->List_0 =~= shown_items(items));
}

/// Equal entries make equal dictionaries.
broadcast proof fn lemma_dict_of_same(
    x: Seq<(Seq<char>, ValueModel)>,
    y: Seq<(Seq<char>, ValueModel)>,
)
    requires
        x.len() == y.len(),
        forall|i: int| 0 <= i < x.len() ==> x[i] == y[i],
    ensures
        #[trigger] dict_of(x) == #[trigger] dict_of(y),
{
    assert(x =~= y);
}

/// A record looks like the dictionary of what its fields look like.
pub(crate) proof fn lemma_shown_record(fields: Seq<(Seq<char>, Datum)>)
    ensures
        shown(Datum::Record(fields)) == ValueModel::Dict(dict_of(shown_fields(fields))),
{
    broadcast use lemma_dict_of_same;

}

/// The lowest `len` digits of `n` in base 256, lowest first.
pub open spec fn le_bytes(n: nat, len: nat) -> Seq<u8>
    decreases len,
{
    if len == 0 {
        Seq::empty()
    } else {
        seq![(n % 256) as u8] + le_bytes(n / 256, (len - 1) as nat)
    }
}

/// The number that bytes stand for is the one that was written to them.
pub proof fn lemma_le_bytes(n: nat, len: nat)
    requires
        n < pow256(len),
    ensures
        le_bytes(n, len).len() == len,
        le_nat(le_bytes(n, len)) == n,
    decreases len,
{
    if len > 0 {
        lemma_le_bytes(n / 256, (len - 1) as nat);
        let bytes = le_bytes(n, len);
        assert(bytes.drop_first() =~= le_bytes(n / 256, (len - 1) as nat));
    }
}

/// The bytes that a number is written to are the ones that it was read from.
pub proof fn lemma_le_nat_back(bytes: Seq<u8>)
    ensures
        le_bytes(le_nat(bytes), bytes.len()) == bytes,
    decreases bytes.len(),
{
    if bytes.len() > 0 {
        let rest = bytes.drop_first();
        let n = le_nat(bytes);
        lemma_le_nat_back(rest);
        assert(n % 256 == bytes[0] as nat);
        assert(n / 256 == le_nat(rest));
        assert(bytes =~= seq![bytes[0]] + rest);
    } else {
        assert(bytes =~= Seq::empty());
    }
}

/// The bytes that a signed number is written to are the ones that it was read
/// from.
pub proof fn lemma_le_int_back(bytes: Seq<u8>)
    ensures
        le_int_bytes(le_int(bytes), bytes.len()) == bytes,
{
    lemma_le_nat_back(bytes);
    lemma_le_nat_bound(bytes);
}

/// The two's complement form of `n` in `len` bytes, lowest first.
pub open spec fn le_int_bytes(n: int, len: nat) -> Seq<u8> {
    le_bytes(
        if n < 0 {
            (n + pow256(len)) as nat
        } else {
            n as nat
        },
        len,
    )
}

/// The signed number that bytes stand for is the one that was written to them.
pub proof fn lemma_le_int_bytes(n: int, len: nat)
    requires
        len > 0,
        -pow256(len) <= 2 * n < pow256(len),
    ensures
        le_int_bytes(n, len).len() == len,
        le_int(le_int_bytes(n, len)) == n,
{
    let bits = if n < 0 {
        (n + pow256(len)) as nat
    } else {
        n as nat
    };
    lemma_le_bytes(bits, len);
    lemma_le_nat_bound(le_bytes(bits, len));
}

/// An unsigned integer of `n` bytes.
pub open spec fn encode_uint(d: Datum, n: nat) -> Option<Seq<u8>> {
    match d {
        Datum::Int(i) => if 0 <= i < pow256(n) {
            Some(le_bytes(i as nat, n))
        } else {
            None
        },
        _ => None,
    }
}

/// A two's complement integer of `n` bytes.
pub open spec fn encode_sint(d: Datum, n: nat) -> Option<Seq<u8>> {
    match d {
        Datum::Int(i) => if -pow256(n) <= 2 * i < pow256(n) {
            Some(le_int_bytes(i, n))
        } else {
            None
        },
        _ => None,
    }
}

/// A length in four bytes, if it fits.
pub open spec fn encode_len(n: nat) -> Option<Seq<u8>> {
    if n < pow256(4) {
        Some(le_bytes(n, 4))
    } else {
        None
    }
}

/// Both parts one after the other, if there are both.
pub open spec fn joined(first: Option<Seq<u8>>, second: Option<Seq<u8>>) -> Option<Seq<u8>> {
    match (first, second) {
        (Some(x), Some(y)) => Some(x + y),
        _ => None,
    }
}

/// The Borsh bytes of `d`, if it is a value of type `ty` whose definitions are
/// nested no deeper than `depth`.
pub open spec fn encode_type(
    types: Map<Seq<char>, BodyModel>,
    ty: TypeModel,
    d: Datum,
    depth: nat,
) -> Option<Seq<u8>>
    decreases depth, 1nat, height(ty), 0nat,
{
    match ty {
        TypeModel::Bool => match d {
            Datum::Bool(byte) => Some(seq![byte]),
            _ => None,
        },
        TypeModel::U8 => encode_uint(d, 1),
        TypeModel::I8 => encode_sint(d, 1),
        TypeModel::U16 => encode_uint(d, 2),
        TypeModel::I16 => encode_sint(d, 2),
        TypeModel::U32 => encode_uint(d, 4),
        TypeModel::I32 => encode_sint(d, 4),
        TypeModel::F32 => match d {
            Datum::F32(bits) => Some(le_bytes(bits as nat, 4)),
            _ => None,
        },
        TypeModel::U64 => encode_uint(d, 8),
        TypeModel::I64 => encode_sint(d, 8),
        TypeModel::F64 => match d {
            Datum::F64(bits) => Some(le_bytes(bits as nat, 8)),
            _ => None,
        },
        TypeModel::U128 => encode_uint(d, 16),
        TypeModel::I128 => encode_sint(d, 16),
        TypeModel::U256 => encode_uint(d, 32),
        TypeModel::I256 => encode_sint(d, 32),
        TypeModel::Bytes => match d {
            Datum::Bytes(bytes) => joined(encode_len(bytes.len()), Some(bytes)),
            _ => None,
        },
        TypeModel::String => match d {
            Datum::Text(text) => joined(
                encode_len(encode_utf8(text).len()),
                Some(encode_utf8(text)),
            ),
            _ => None,
        },
        TypeModel::Pubkey => match d {
            Datum::Key(key) => if key.len() == 32 {
                Some(key)
            } else {
                None
            },
            _ => None,
        },
        TypeModel::Option(inner) => match d {
            Datum::Absent => Some(seq![0u8]),
            Datum::Present { mark, held } => if mark != 0 {
                joined(Some(seq![mark]), encode_type(types, *inner, *held, depth))
            } else {
                None
            },
            _ => None,
        },
        TypeModel::Vec(inner) => match d {
            Datum::List(items) => joined(
                encode_len(items.len()),
                encode_items(types, *inner, items, items.len(), depth),
            ),
            _ => None,
        },
        TypeModel::Array(inner, len) => match (d, len) {
            (Datum::List(items), LenModel::Value(n)) => if items.len() == n {
                encode_items(types, *inner, items, n, depth)
            } else {
                None
            },
            _ => None,
        },
        TypeModel::Defined { name, generics } => if generics == 0 {
            encode_defined(types, name, d, depth)
        } else {
            None
        },
        TypeModel::Generic(_) => None,
    }
}

/// The first `n` of `items`, each of type `ty`.
pub open spec fn encode_items(
    types: Map<Seq<char>, BodyModel>,
    ty: TypeModel,
    items: Seq<Datum>,
    n: nat,
    depth: nat,
) -> Option<Seq<u8>>
    decreases depth, 1nat, height(ty), n,
{
    if n == 0 {
        Some(Seq::empty())
    } else {
        joined(
            encode_items(types, ty, items, (n - 1) as nat, depth),
            encode_type(types, ty, items[n - 1], depth),
        )
    }
}

/// The first `n` of `items` as the first of the unnamed fields `members`.
pub open spec fn encode_tuple(
    types: Map<Seq<char>, BodyModel>,
    members: Seq<TypeModel>,
    items: Seq<Datum>,
    n: nat,
    depth: nat,
) -> Option<Seq<u8>>
    decreases depth, 2nat, n, 0nat,
{
    if n == 0 {
        Some(Seq::empty())
    } else {
        joined(
            encode_tuple(types, members, items, (n - 1) as nat, depth),
            encode_type(types, members[n - 1], items[n - 1], depth),
        )
    }
}

/// The first `n` of `record` as the first of the named fields `fields`.
pub open spec fn encode_named(
    types: Map<Seq<char>, BodyModel>,
    fields: Seq<FieldModel>,
    record: Seq<(Seq<char>, Datum)>,
    n: nat,
    depth: nat,
) -> Option<Seq<u8>>
    decreases depth, 2nat, n, 0nat,
{
    if n == 0 {
        Some(Seq::empty())
    } else if record[n - 1].0 != fields[n - 1].name {
        None
    } else {
        joined(
            encode_named(types, fields, record, (n - 1) as nat, depth),
            encode_type(types, fields[n - 1].ty, record[n - 1].1, depth),
        )
    }
}

/// A value of fields: for named ones a record of just their names, in their
/// order; for unnamed ones a list of as many items.
pub open spec fn encode_fields(
    types: Map<Seq<char>, BodyModel>,
    fields: Option<FieldsModel>,
    d: Datum,
    depth: nat,
) -> Option<Seq<u8>>
    decreases depth, 3nat, 0nat, 0nat,
{
    match (fields, d) {
        (None, Datum::Record(record)) => if record.len() == 0 {
            Some(Seq::empty())
        } else {
            None
        },
        (Some(FieldsModel::Named(named)), Datum::Record(record)) => if record.len()
            == named.len() {
            encode_named(types, named, record, named.len(), depth)
        } else {
            None
        },
        (Some(FieldsModel::Tuple(members)), Datum::List(items)) => if items.len()
            == members.len() {
            encode_tuple(types, members, items, members.len(), depth)
        } else {
            None
        },
        _ => None,
    }
}

/// A value of an enum: a byte that is the position of a variant, then the
/// variant's fields where it has any.
pub open spec fn encode_enum(
    types: Map<Seq<char>, BodyModel>,
    variants: Seq<VariantModel>,
    d: Datum,
    depth: nat,
) -> Option<Seq<u8>>
    decreases depth, 3nat, 1nat, 0nat,
{
    match d {
        Datum::Variant { tag, name, fields } => if tag < variants.len() && tag < 256
            && variants[tag as int].name == name {
            match (variants[tag as int].fields, fields) {
                (None, None) => Some(seq![tag as u8]),
                (Some(members), Some(inner)) => joined(
                    Some(seq![tag as u8]),
                    encode_fields(types, Some(members), *inner, depth),
                ),
                _ => None,
            }
        } else {
            None
        },
        _ => None,
    }
}

/// A value of what a definition stands for.
pub open spec fn encode_body(
    types: Map<Seq<char>, BodyModel>,
    body: BodyModel,
    d: Datum,
    depth: nat,
) -> Option<Seq<u8>>
    decreases depth, 4nat, 0nat, 0nat,
{
    match body {
        BodyModel::Struct { fields } => encode_fields(types, fields, d, depth),
        BodyModel::Enum { variants } => encode_enum(types, variants, d, depth),
        BodyModel::Type { alias } => encode_type(types, alias, d, depth),
    }
}

/// A value of the definition called `name`.
pub open spec fn encode_defined(
    types: Map<Seq<char>, BodyModel>,
    name: Seq<char>,
    d: Datum,
    depth: nat,
) -> Option<Seq<u8>>
    decreases depth, 0nat, 0nat, 0nat,
{
    if types.dom().contains(name) && depth > 0 {
        encode_body(types, types[name], d, (depth - 1) as nat)
    } else {
        None
    }
}

/// `bytes` stand in `data` from `pos` on, and `data` is a buffer that fits in
/// memory.
pub open spec fn stands_at(data: Seq<u8>, pos: nat, bytes: Seq<u8>) -> bool {
    &&& pos + bytes.len() <= data.len() <= usize::MAX
    &&& data.subrange(pos as int, (pos + bytes.len()) as int) == bytes
}

proof fn lemma_stands_parts(data: Seq<u8>, pos: nat, x: Seq<u8>, y: Seq<u8>)
    requires
        stands_at(data, pos, x + y),
    ensures
        stands_at(data, pos, x),
        stands_at(data, pos + x.len(), y),
{
    let whole = data.subrange(pos as int, (pos + x.len() + y.len()) as int);
    assert(data.subrange(pos as int, (pos + x.len()) as int) =~= whole.take(x.len() as int));
    assert(data.subrange((pos + x.len()) as int, (pos + x.len() + y.len()) as int) =~= whole.skip(
        x.len() as int,
    ));
    assert((x + y).take(x.len() as int) =~= x);
    assert((x + y).skip(x.len() as int) =~= y);
}

/// The step that gives `v` and uses up `n` bytes.
pub open spec fn gives<T>(v: T, n: nat) -> Outcome<T> {
    Outcome { result: Ok(v), used: n }
}

proof fn lemma_uint_back(data: Seq<u8>, pos: nat, d: Datum, n: nat)
    requires
        encode_uint(d, n) is Some,
        stands_at(data, pos, encode_uint(d, n)->Some_0),
    ensures
        decode_uint(data, pos, n) == gives(shown(d), encode_uint(d, n)->Some_0.len()),
{
    lemma_le_bytes(d->Int_0 as nat, n);
}

proof fn lemma_sint_back(data: Seq<u8>, pos: nat, d: Datum, n: nat)
    requires
        n > 0,
        encode_sint(d, n) is Some,
        stands_at(data, pos, encode_sint(d, n)->Some_0),
    ensures
        decode_sint(data, pos, n) == gives(shown(d), encode_sint(d, n)->Some_0.len()),
{
    lemma_le_int_bytes(d->Int_0, n);
}

proof fn lemma_len_back(data: Seq<u8>, pos: nat, n: nat)
    requires
        encode_len(n) is Some,
        stands_at(data, pos, encode_len(n)->Some_0),
    ensures
        encode_len(n)->Some_0.len() == 4,
        read_len(data, pos) == gives(n, 4),
{
    lemma_le_bytes(n, 4);
}

proof fn lemma_prefixed_back(data: Seq<u8>, pos: nat, bytes: Seq<u8>)
    requires
        encode_len(bytes.len()) is Some,
        stands_at(data, pos, encode_len(bytes.len())->Some_0 + bytes),
    ensures
        read_prefixed(data, pos) == gives(
            bytes,
            (encode_len(bytes.len())->Some_0 + bytes).len(),
        ),
{
    lemma_stands_parts(data, pos, encode_len(bytes.len())->Some_0, bytes);
    lemma_len_back(data, pos, bytes.len());
}

proof fn lemma_type_back(
    types: Map<Seq<char>, BodyModel>,
    ty: TypeModel,
    d: Datum,
    depth: nat,
    data: Seq<u8>,
    pos: nat,
)
    requires
        encode_type(types, ty, d, depth) is Some,
        stands_at(data, pos, encode_type(types, ty, d, depth)->Some_0),
    ensures
        decode_type(plain(types), data, ty, pos, depth) == gives(
            shown(d),
            encode_type(types, ty, d, depth)->Some_0.len(),
        ),
    decreases depth, 1nat, height(ty), 0nat,
{
    match ty {
        TypeModel::Bool => {},
        TypeModel::U8 => lemma_uint_back(data, pos, d, 1),
        TypeModel::I8 => lemma_sint_back(data, pos, d, 1),
        TypeModel::U16 => lemma_uint_back(data, pos, d, 2),
        TypeModel::I16 => lemma_sint_back(data, pos, d, 2),
        TypeModel::U32 => lemma_uint_back(data, pos, d, 4),
        TypeModel::I32 => lemma_sint_back(data, pos, d, 4),
        TypeModel::F32 => {
            reveal_with_fuel(pow256, 5);
            lemma_le_bytes(d->F32_0 as nat, 4);
        },
        TypeModel::U64 => lemma_uint_back(data, pos, d, 8),
        TypeModel::I64 => lemma_sint_back(data, pos, d, 8),
        TypeModel::F64 => {
            reveal_with_fuel(pow256, 9);
            lemma_le_bytes(d->F64_0 as nat, 8);
        },
        TypeModel::U128 => lemma_uint_back(data, pos, d, 16),
        TypeModel::I128 => lemma_sint_back(data, pos, d, 16),
        TypeModel::U256 => lemma_uint_back(data, pos, d, 32),
        TypeModel::I256 => lemma_sint_back(data, pos, d, 32),
        TypeModel::Bytes => lemma_prefixed_back(data, pos, d->Bytes_0),
        TypeModel::String => {
            lemma_prefixed_back(data, pos, encode_utf8(d->Text_0));
            encode_utf8_valid_utf8(d->Text_0);
            encode_utf8_decode_utf8(d->Text_0);
        },
        TypeModel::Pubkey => {},
        TypeModel::Option(inner) => {
            if let Datum::Present { mark, held } = d {
                let rest = encode_type(types, *inner, *held, depth)->Some_0;
                lemma_stands_parts(data, pos, seq![mark], rest);
                lemma_type_back(types, *inner, *held, depth, data, pos + 1);
            }
        },
        TypeModel::Vec(inner) => {
            let items = d->List_0;
            let head = encode_len(items.len())->Some_0;
            let rest = encode_items(types, *inner, items, items.len(), depth)->Some_0;
            lemma_stands_parts(data, pos, head, rest);
            lemma_len_back(data, pos, items.len());
            lemma_items_back(types, *inner, items, items.len(), depth, data, pos + 4);
            assert(items.take(items.len() as int) =~= items);
            lemma_shown_list(items);
        },
        TypeModel::Array(inner, len) => {
            let items = d->List_0;
            lemma_items_back(types, *inner, items, items.len(), depth, data, pos);
            assert(items.take(items.len() as int) =~= items);
            lemma_shown_list(items);
        },
        TypeModel::Defined { name, generics } => {
            lemma_defined_back(types, name, d, depth, data, pos);
        },
        TypeModel::Generic(_) => {},
    }
}

proof fn lemma_items_back(
    types: Map<Seq<char>, BodyModel>,
    ty: TypeModel,
    items: Seq<Datum>,
    n: nat,
    depth: nat,
    data: Seq<u8>,
    pos: nat,
)
    requires
        n <= items.len(),
        encode_items(types, ty, items, n, depth) is Some,
        stands_at(data, pos, encode_items(types, ty, items, n, depth)->Some_0),
    ensures
        decode_items(plain(types), data, ty, n, pos, depth) == gives(
            shown_items(items.take(n as int)),
            encode_items(types, ty, items, n, depth)->Some_0.len(),
        ),
    decreases depth, 1nat, height(ty), n,
{
    if n > 0 {
        let m = (n - 1) as nat;
        let first = encode_items(types, ty, items, m, depth)->Some_0;
        let last = encode_type(types, ty, items[n - 1], depth)->Some_0;
        lemma_stands_parts(data, pos, first, last);
        lemma_items_back(types, ty, items, m, depth, data, pos);
        lemma_type_back(types, ty, items[n - 1], depth, data, pos + first.len());
        assert(shown_items(items.take(n as int)) =~= shown_items(items.take(m as int)).push(
            shown(items[n - 1]),
        ));
    } else {
        assert(shown_items(items.take(0)) =~= Seq::empty());
    }
}

proof fn lemma_tuple_back(
    types: Map<Seq<char>, BodyModel>,
    members: Seq<TypeModel>,
    items: Seq<Datum>,
    n: nat,
    depth: nat,
    data: Seq<u8>,
    pos: nat,
)
    requires
        n <= items.len(),
        encode_tuple(types, members, items, n, depth) is Some,
        stands_at(data, pos, encode_tuple(types, members, items, n, depth)->Some_0),
    ensures
        decode_tuple(plain(types), data, members, n, pos, depth) == gives(
            shown_items(items.take(n as int)),
            encode_tuple(types, members, items, n, depth)->Some_0.len(),
        ),
    decreases depth, 2nat, n, 0nat,
{
    if n > 0 {
        let m = (n - 1) as nat;
        let first = encode_tuple(types, members, items, m, depth)->Some_0;
        let last = encode_type(types, members[n - 1], items[n - 1], depth)->Some_0;
        lemma_stands_parts(data, pos, first, last);
        lemma_tuple_back(types, members, items, m, depth, data, pos);
        lemma_type_back(types, members[n - 1], items[n - 1], depth, data, pos + first.len());
        assert(shown_items(items.take(n as int)) =~= shown_items(items.take(m as int)).push(
            shown(items[n - 1]),
        ));
    } else {
        assert(shown_items(items.take(0)) =~= Seq::empty());
    }
}

proof fn lemma_named_back(
    types: Map<Seq<char>, BodyModel>,
    fields: Seq<FieldModel>,
    record: Seq<(Seq<char>, Datum)>,
    n: nat,
    depth: nat,
    data: Seq<u8>,
    pos: nat,
)
    requires
        n <= record.len(),
        encode_named(types, fields, record, n, depth) is Some,
        stands_at(data, pos, encode_named(types, fields, record, n, depth)->Some_0),
    ensures
        decode_named(plain(types), data, fields, n, pos, depth) == gives(
            dict_of(shown_fields(record.take(n as int))),
            encode_named(types, fields, record, n, depth)->Some_0.len(),
        ),
    decreases depth, 2nat, n, 0nat,
{
    let entries = shown_fields(record.take(n as int));
    if n > 0 {
        let m = (n - 1) as nat;
        let (name, d) = record[n - 1];
        let first = encode_named(types, fields, record, m, depth)->Some_0;
        let last = encode_type(types, fields[n - 1].ty, d, depth)->Some_0;
        lemma_stands_parts(data, pos, first, last);
        lemma_named_back(types, fields, record, m, depth, data, pos);
        lemma_type_back(types, fields[n - 1].ty, d, depth, data, pos + first.len());
        assert(entries.drop_last() =~= shown_fields(record.take(m as int)));
        assert(entries.last() == (name, shown(d)));
    } else {
        assert(entries =~= Seq::empty());
    }
}

proof fn lemma_fields_back(
    types: Map<Seq<char>, BodyModel>,
    fields: Option<FieldsModel>,
    d: Datum,
    depth: nat,
    data: Seq<u8>,
    pos: nat,
)
    requires
        encode_fields(types, fields, d, depth) is Some,
        stands_at(data, pos, encode_fields(types, fields, d, depth)->Some_0),
    ensures
        decode_fields(plain(types), data, fields, pos, depth) == gives(
            shown(d),
            encode_fields(types, fields, d, depth)->Some_0.len(),
        ),
    decreases depth, 3nat, 0nat, 0nat,
{
    match fields {
        None => {
            lemma_shown_record(d->Record_0);
            assert(shown_fields(d->Record_0) =~= Seq::empty());
        },
        Some(FieldsModel::Named(named)) => {
            let record = d->Record_0;
            lemma_named_back(types, named, record, named.len(), depth, data, pos);
            assert(record.take(record.len() as int) =~= record);
            lemma_shown_record(record);
        },
        Some(FieldsModel::Tuple(members)) => {
            let items = d->List_0;
            lemma_tuple_back(types, members, items, members.len(), depth, data, pos);
            assert(items.take(items.len() as int) =~= items);
            lemma_shown_list(items);
        },
    }
}

proof fn lemma_enum_back(
    types: Map<Seq<char>, BodyModel>,
    variants: Seq<VariantModel>,
    d: Datum,
    depth: nat,
    data: Seq<u8>,
    pos: nat,
)
    requires
        encode_enum(types, variants, d, depth) is Some,
        stands_at(data, pos, encode_enum(types, variants, d, depth)->Some_0),
    ensures
        decode_enum(plain(types), data, variants, pos, depth) == gives(
            shown(d),
            encode_enum(types, variants, d, depth)->Some_0.len(),
        ),
    decreases depth, 3nat, 1nat, 0nat,
{
    if let Datum::Variant { tag, name, fields } = d {
        if let Some(inner) = fields {
            let members = variants[tag as int].fields;
            let rest = encode_fields(types, members, *inner, depth)->Some_0;
            lemma_stands_parts(data, pos, seq![tag as u8], rest);
            lemma_fields_back(types, members, *inner, depth, data, pos + 1);
        }
    }
}

proof fn lemma_body_back(
    types: Map<Seq<char>, BodyModel>,
    body: BodyModel,
    d: Datum,
    depth: nat,
    data: Seq<u8>,
    pos: nat,
)
    requires
        encode_body(types, body, d, depth) is Some,
        stands_at(data, pos, encode_body(types, body, d, depth)->Some_0),
    ensures
        decode_body(plain(types), data, body, pos, depth) == gives(
            shown(d),
            encode_body(types, body, d, depth)->Some_0.len(),
        ),
    decreases depth, 4nat, 0nat, 0nat,
{
    match body {
        BodyModel::Struct { fields } => {
            lemma_fields_back(types, fields, d, depth, data, pos);
        },
        BodyModel::Enum { variants } => {
            lemma_enum_back(types, variants, d, depth, data, pos);
        },
        BodyModel::Type { alias } => {
            lemma_type_back(types, alias, d, depth, data, pos);
        },
    }
}

proof fn lemma_defined_back(
    types: Map<Seq<char>, BodyModel>,
    name: Seq<char>,
    d: Datum,
    depth: nat,
    data: Seq<u8>,
    pos: nat,
)
    requires
        encode_defined(types, name, d, depth) is Some,
        stands_at(data, pos, encode_defined(types, name, d, depth)->Some_0),
    ensures
        decode_defined(plain(types), data, name, pos, depth) == gives(
            shown(d),
            encode_defined(types, name, d, depth)->Some_0.len(),
        ),
    decreases depth, 0nat, 0nat, 0nat,
{
    lemma_body_back(types, types[name], d, (depth - 1) as nat, data, pos);
}

/// Decoding gives back the value that was written, wherever in a buffer its
/// Borsh bytes stand, and uses up just those bytes. This goes for every value of
/// every type, options that hold an absent option and variants of one name
/// among them.
pub proof fn lemma_type_round_trip(
    types: Map<Seq<char>, BodyModel>,
    ty: TypeModel,
    d: Datum,
    depth: nat,
    data: Seq<u8>,
    pos: nat,
)
    requires
        types.dom().finite(),
        encode_type(types, ty, d, depth) is Some,
        stands_at(data, pos, encode_type(types, ty, d, depth)->Some_0),
    ensures
        decode_type(guarded(types), data, ty, pos, types.dom().len()) == gives(
            shown(d),
            encode_type(types, ty, d, depth)->Some_0.len(),
        ),
{
    lemma_type_back(types, ty, d, depth, data, pos);
    lemma_type_guard_exact(types, data, ty, pos);
}

/// Decoding gives back the fields that were written, wherever in a buffer their
/// bytes stand, and uses up just those bytes.
pub proof fn lemma_fields_round_trip(
    types: Map<Seq<char>, BodyModel>,
    fields: Option<FieldsModel>,
    d: Datum,
    depth: nat,
    data: Seq<u8>,
    pos: nat,
)
    requires
        types.dom().finite(),
        encode_fields(types, fields, d, depth) is Some,
        stands_at(data, pos, encode_fields(types, fields, d, depth)->Some_0),
    ensures
        decode_fields(guarded(types), data, fields, pos, types.dom().len()) == gives(
            shown(d),
            encode_fields(types, fields, d, depth)->Some_0.len(),
        ),
{
    lemma_fields_back(types, fields, d, depth, data, pos);
    lemma_fields_guard_exact(types, data, fields, pos);
}

} // verus!
