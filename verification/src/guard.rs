//! The limit on nested definitions stops exactly the values that have no end.
use crate::borsh::{
    decode_body, decode_defined, decode_enum, decode_fields, decode_items, decode_named,
    decode_tuple, decode_type, depth_at, guarded, height, remaining, Rules,
};
use crate::cursor::{read_len, Outcome};
use crate::idl::{BodyModel, FieldModel, FieldsModel, LenModel, TypeModel, VariantModel};
use crate::progress::{lemma_items_in_buffer, lemma_named_in_buffer, lemma_tuple_in_buffer};
use vstd::prelude::*;

verus! {

/// Rules under which depth is never granted anew: decoding is plain recursion,
/// cut off at a depth.
pub open spec fn plain(types: Map<Seq<char>, BodyModel>) -> Rules {
    Rules { types, refill: None }
}

/// The step came to nothing because definitions were nested too deep.
pub open spec fn endless<T>(o: Outcome<T>) -> bool {
    o.result is Err && o.result->Err_0 is EndlessType
}

/// How deep definitions can get when `left` bytes remain and `depth` is left.
pub open spec fn reach(rules: Rules, left: nat, depth: nat) -> nat {
    match rules.refill {
        Some(n) => depth + left * n,
        None => depth,
    }
}

proof fn lemma_reach_step(rules: Rules, data: Seq<u8>, pos: nat, at: nat, depth: nat)
    requires
        pos <= at,
    ensures
        reach(rules, remaining(data, at), depth_at(rules, data, pos, at, depth)) <= reach(
            rules,
            remaining(data, pos),
            depth,
        ),
{
    let left = remaining(data, pos);
    let rest = remaining(data, at);
    if rest < left && rules.refill is Some {
        let n = rules.refill->Some_0;
        assert(n + rest * n <= left * n) by (nonlinear_arith)
            requires
                rest + 1 <= left,
        ;
    }
}

proof fn lemma_type_deep(
    rules: Rules,
    data: Seq<u8>,
    ty: TypeModel,
    pos: nat,
    depth: nat,
    deep: nat,
)
    requires
        deep >= reach(rules, remaining(data, pos), depth),
        !endless(decode_type(rules, data, ty, pos, depth)),
    ensures
        decode_type(plain(rules.types), data, ty, pos, deep) == decode_type(
            rules,
            data,
            ty,
            pos,
            depth,
        ),
    decreases remaining(data, pos), depth, 1nat, height(ty), 0nat,
{
    match ty {
        TypeModel::Option(inner) => {
            if pos + 1 <= data.len() && pos + 1 <= usize::MAX && data[pos as int] != 0 {
                lemma_reach_step(rules, data, pos, pos + 1, depth);
                let left = depth_at(rules, data, pos, pos + 1, depth);
                lemma_type_deep(rules, data, *inner, pos + 1, left, deep);
            }
        },
        TypeModel::Vec(inner) => {
            let head = read_len(data, pos);
            if head.result is Ok {
                lemma_reach_step(rules, data, pos, pos + 4, depth);
                let left = depth_at(rules, data, pos, pos + 4, depth);
                lemma_items_deep(rules, data, *inner, head.result->Ok_0, pos + 4, left, deep);
            }
        },
        TypeModel::Array(inner, LenModel::Value(n)) => {
            lemma_items_deep(rules, data, *inner, n, pos, depth, deep);
        },
        TypeModel::Defined { name, generics } => {
            if generics == 0 {
                lemma_defined_deep(rules, data, name, pos, depth, deep);
            }
        },
        _ => {},
    }
}

proof fn lemma_items_deep(
    rules: Rules,
    data: Seq<u8>,
    ty: TypeModel,
    n: nat,
    pos: nat,
    depth: nat,
    deep: nat,
)
    requires
        deep >= reach(rules, remaining(data, pos), depth),
        !endless(decode_items(rules, data, ty, n, pos, depth)),
    ensures
        decode_items(plain(rules.types), data, ty, n, pos, deep) == decode_items(
            rules,
            data,
            ty,
            n,
            pos,
            depth,
        ),
    decreases remaining(data, pos), depth, 1nat, height(ty), n,
{
    if n > 0 {
        let m = (n - 1) as nat;
        let before = decode_items(rules, data, ty, m, pos, depth);
        lemma_items_deep(rules, data, ty, m, pos, depth, deep);
        if before.result is Ok {
            let at = pos + before.used;
            lemma_reach_step(rules, data, pos, at, depth);
            lemma_type_deep(rules, data, ty, at, depth_at(rules, data, pos, at, depth), deep);
        }
    }
}

proof fn lemma_tuple_deep(
    rules: Rules,
    data: Seq<u8>,
    types: Seq<TypeModel>,
    n: nat,
    pos: nat,
    depth: nat,
    deep: nat,
)
    requires
        deep >= reach(rules, remaining(data, pos), depth),
        !endless(decode_tuple(rules, data, types, n, pos, depth)),
    ensures
        decode_tuple(plain(rules.types), data, types, n, pos, deep) == decode_tuple(
            rules,
            data,
            types,
            n,
            pos,
            depth,
        ),
    decreases remaining(data, pos), depth, 2nat, n, 0nat,
{
    if n > 0 {
        let m = (n - 1) as nat;
        let before = decode_tuple(rules, data, types, m, pos, depth);
        lemma_tuple_deep(rules, data, types, m, pos, depth, deep);
        if before.result is Ok {
            let at = pos + before.used;
            lemma_reach_step(rules, data, pos, at, depth);
            let left = depth_at(rules, data, pos, at, depth);
            lemma_type_deep(rules, data, types[n - 1], at, left, deep);
        }
    }
}

proof fn lemma_named_deep(
    rules: Rules,
    data: Seq<u8>,
    fields: Seq<FieldModel>,
    n: nat,
    pos: nat,
    depth: nat,
    deep: nat,
)
    requires
        deep >= reach(rules, remaining(data, pos), depth),
        !endless(decode_named(rules, data, fields, n, pos, depth)),
    ensures
        decode_named(plain(rules.types), data, fields, n, pos, deep) == decode_named(
            rules,
            data,
            fields,
            n,
            pos,
            depth,
        ),
    decreases remaining(data, pos), depth, 2nat, n, 0nat,
{
    if n > 0 {
        let m = (n - 1) as nat;
        let before = decode_named(rules, data, fields, m, pos, depth);
        lemma_named_deep(rules, data, fields, m, pos, depth, deep);
        if before.result is Ok {
            let at = pos + before.used;
            lemma_reach_step(rules, data, pos, at, depth);
            let left = depth_at(rules, data, pos, at, depth);
            lemma_type_deep(rules, data, fields[n - 1].ty, at, left, deep);
        }
    }
}

proof fn lemma_fields_deep(
    rules: Rules,
    data: Seq<u8>,
    fields: Option<FieldsModel>,
    pos: nat,
    depth: nat,
    deep: nat,
)
    requires
        deep >= reach(rules, remaining(data, pos), depth),
        !endless(decode_fields(rules, data, fields, pos, depth)),
    ensures
        decode_fields(plain(rules.types), data, fields, pos, deep) == decode_fields(
            rules,
            data,
            fields,
            pos,
            depth,
        ),
    decreases remaining(data, pos), depth, 3nat, 0nat, 0nat,
{
    match fields {
        None => {},
        Some(FieldsModel::Named(named)) => {
            lemma_named_deep(rules, data, named, named.len(), pos, depth, deep);
        },
        Some(FieldsModel::Tuple(types)) => {
            lemma_tuple_deep(rules, data, types, types.len(), pos, depth, deep);
        },
    }
}

proof fn lemma_enum_deep(
    rules: Rules,
    data: Seq<u8>,
    variants: Seq<VariantModel>,
    pos: nat,
    depth: nat,
    deep: nat,
)
    requires
        deep >= reach(rules, remaining(data, pos), depth),
        !endless(decode_enum(rules, data, variants, pos, depth)),
    ensures
        decode_enum(plain(rules.types), data, variants, pos, deep) == decode_enum(
            rules,
            data,
            variants,
            pos,
            depth,
        ),
    decreases remaining(data, pos), depth, 3nat, 0nat, 0nat,
{
    if pos + 1 <= data.len() && pos + 1 <= usize::MAX {
        let t = data[pos as int] as int;
        if t < variants.len() && variants[t].fields is Some {
            lemma_reach_step(rules, data, pos, pos + 1, depth);
            let left = depth_at(rules, data, pos, pos + 1, depth);
            lemma_fields_deep(rules, data, variants[t].fields, pos + 1, left, deep);
        }
    }
}

proof fn lemma_body_deep(
    rules: Rules,
    data: Seq<u8>,
    body: BodyModel,
    pos: nat,
    depth: nat,
    deep: nat,
)
    requires
        deep >= reach(rules, remaining(data, pos), depth),
        !endless(decode_body(rules, data, body, pos, depth)),
    ensures
        decode_body(plain(rules.types), data, body, pos, deep) == decode_body(
            rules,
            data,
            body,
            pos,
            depth,
        ),
    decreases remaining(data, pos), depth, 4nat, 0nat, 0nat,
{
    match body {
        BodyModel::Struct { fields } => {
            lemma_fields_deep(rules, data, fields, pos, depth, deep);
        },
        BodyModel::Enum { variants } => {
            lemma_enum_deep(rules, data, variants, pos, depth, deep);
        },
        BodyModel::Type { alias } => {
            lemma_type_deep(rules, data, alias, pos, depth, deep);
        },
    }
}

proof fn lemma_defined_deep(
    rules: Rules,
    data: Seq<u8>,
    name: Seq<char>,
    pos: nat,
    depth: nat,
    deep: nat,
)
    requires
        deep >= reach(rules, remaining(data, pos), depth),
        !endless(decode_defined(rules, data, name, pos, depth)),
    ensures
        decode_defined(plain(rules.types), data, name, pos, deep) == decode_defined(
            rules,
            data,
            name,
            pos,
            depth,
        ),
    decreases remaining(data, pos), depth, 0nat, 0nat, 0nat,
{
    if rules.types.dom().contains(name) && depth > 0 {
        let body = rules.types[name];
        lemma_body_deep(rules, data, body, pos, (depth - 1) as nat, (deep - 1) as nat);
    }
}

/// Every definition in `seen` is too deep to be decoded at `pos` within `deep`,
/// and `depth` is enough to enter each of the others once.
spec fn tight(
    types: Map<Seq<char>, BodyModel>,
    data: Seq<u8>,
    pos: nat,
    deep: nat,
    seen: Set<Seq<char>>,
    depth: nat,
) -> bool {
    &&& types.dom().finite()
    &&& seen.subset_of(types.dom())
    &&& seen.len() + depth >= types.dom().len()
    &&& forall|name: Seq<char>|
        seen.contains(name) ==> endless(
            #[trigger] decode_defined(plain(types), data, name, pos, deep),
        )
}

/// What has been seen at `pos` counts until a byte is used up.
spec fn seen_at(seen: Set<Seq<char>>, pos: nat, at: nat) -> Set<Seq<char>> {
    if at == pos {
        seen
    } else {
        Set::empty()
    }
}

proof fn lemma_tight_step(
    types: Map<Seq<char>, BodyModel>,
    data: Seq<u8>,
    pos: nat,
    at: nat,
    deep: nat,
    seen: Set<Seq<char>>,
    depth: nat,
)
    requires
        tight(types, data, pos, deep, seen, depth),
        pos <= at,
        at > pos ==> at <= data.len(),
    ensures
        tight(
            types,
            data,
            at,
            deep,
            seen_at(seen, pos, at),
            depth_at(guarded(types), data, pos, at, depth),
        ),
{
}

proof fn lemma_type_guarded(
    types: Map<Seq<char>, BodyModel>,
    data: Seq<u8>,
    ty: TypeModel,
    pos: nat,
    depth: nat,
    deep: nat,
    seen: Set<Seq<char>>,
)
    requires
        tight(types, data, pos, deep, seen, depth),
        !endless(decode_type(plain(types), data, ty, pos, deep)),
    ensures
        decode_type(guarded(types), data, ty, pos, depth) == decode_type(
            plain(types),
            data,
            ty,
            pos,
            deep,
        ),
    decreases remaining(data, pos), deep, 1nat, height(ty), 0nat,
{
    match ty {
        TypeModel::Option(inner) => {
            if pos + 1 <= data.len() && pos + 1 <= usize::MAX && data[pos as int] != 0 {
                lemma_tight_step(types, data, pos, pos + 1, deep, seen, depth);
                let left = depth_at(guarded(types), data, pos, pos + 1, depth);
                lemma_type_guarded(types, data, *inner, pos + 1, left, deep, Set::empty());
            }
        },
        TypeModel::Vec(inner) => {
            let head = read_len(data, pos);
            if head.result is Ok {
                let n = head.result->Ok_0;
                lemma_tight_step(types, data, pos, pos + 4, deep, seen, depth);
                let left = depth_at(guarded(types), data, pos, pos + 4, depth);
                lemma_items_guarded(types, data, *inner, n, pos + 4, left, deep, Set::empty());
            }
        },
        TypeModel::Array(inner, LenModel::Value(n)) => {
            lemma_items_guarded(types, data, *inner, n, pos, depth, deep, seen);
        },
        TypeModel::Defined { name, generics } => {
            if generics == 0 {
                lemma_defined_guarded(types, data, name, pos, depth, deep, seen);
            }
        },
        _ => {},
    }
}

proof fn lemma_items_guarded(
    types: Map<Seq<char>, BodyModel>,
    data: Seq<u8>,
    ty: TypeModel,
    n: nat,
    pos: nat,
    depth: nat,
    deep: nat,
    seen: Set<Seq<char>>,
)
    requires
        tight(types, data, pos, deep, seen, depth),
        !endless(decode_items(plain(types), data, ty, n, pos, deep)),
    ensures
        decode_items(guarded(types), data, ty, n, pos, depth) == decode_items(
            plain(types),
            data,
            ty,
            n,
            pos,
            deep,
        ),
    decreases remaining(data, pos), deep, 1nat, height(ty), n,
{
    if n > 0 {
        let m = (n - 1) as nat;
        let before = decode_items(plain(types), data, ty, m, pos, deep);
        lemma_items_guarded(types, data, ty, m, pos, depth, deep, seen);
        if before.result is Ok {
            let at = pos + before.used;
            lemma_items_in_buffer(plain(types), data, ty, m, pos, deep);
            lemma_tight_step(types, data, pos, at, deep, seen, depth);
            let left = depth_at(guarded(types), data, pos, at, depth);
            lemma_type_guarded(types, data, ty, at, left, deep, seen_at(seen, pos, at));
        }
    }
}

proof fn lemma_tuple_guarded(
    types: Map<Seq<char>, BodyModel>,
    data: Seq<u8>,
    members: Seq<TypeModel>,
    n: nat,
    pos: nat,
    depth: nat,
    deep: nat,
    seen: Set<Seq<char>>,
)
    requires
        tight(types, data, pos, deep, seen, depth),
        !endless(decode_tuple(plain(types), data, members, n, pos, deep)),
    ensures
        decode_tuple(guarded(types), data, members, n, pos, depth) == decode_tuple(
            plain(types),
            data,
            members,
            n,
            pos,
            deep,
        ),
    decreases remaining(data, pos), deep, 2nat, n, 0nat,
{
    if n > 0 {
        let m = (n - 1) as nat;
        let before = decode_tuple(plain(types), data, members, m, pos, deep);
        lemma_tuple_guarded(types, data, members, m, pos, depth, deep, seen);
        if before.result is Ok {
            let at = pos + before.used;
            lemma_tuple_in_buffer(plain(types), data, members, m, pos, deep);
            lemma_tight_step(types, data, pos, at, deep, seen, depth);
            let left = depth_at(guarded(types), data, pos, at, depth);
            let ty = members[n - 1];
            lemma_type_guarded(types, data, ty, at, left, deep, seen_at(seen, pos, at));
        }
    }
}

proof fn lemma_named_guarded(
    types: Map<Seq<char>, BodyModel>,
    data: Seq<u8>,
    fields: Seq<FieldModel>,
    n: nat,
    pos: nat,
    depth: nat,
    deep: nat,
    seen: Set<Seq<char>>,
)
    requires
        tight(types, data, pos, deep, seen, depth),
        !endless(decode_named(plain(types), data, fields, n, pos, deep)),
    ensures
        decode_named(guarded(types), data, fields, n, pos, depth) == decode_named(
            plain(types),
            data,
            fields,
            n,
            pos,
            deep,
        ),
    decreases remaining(data, pos), deep, 2nat, n, 0nat,
{
    if n > 0 {
        let m = (n - 1) as nat;
        let before = decode_named(plain(types), data, fields, m, pos, deep);
        lemma_named_guarded(types, data, fields, m, pos, depth, deep, seen);
        if before.result is Ok {
            let at = pos + before.used;
            lemma_named_in_buffer(plain(types), data, fields, m, pos, deep);
            lemma_tight_step(types, data, pos, at, deep, seen, depth);
            let left = depth_at(guarded(types), data, pos, at, depth);
            let ty = fields[n - 1].ty;
            lemma_type_guarded(types, data, ty, at, left, deep, seen_at(seen, pos, at));
        }
    }
}

proof fn lemma_fields_guarded(
    types: Map<Seq<char>, BodyModel>,
    data: Seq<u8>,
    fields: Option<FieldsModel>,
    pos: nat,
    depth: nat,
    deep: nat,
    seen: Set<Seq<char>>,
)
    requires
        tight(types, data, pos, deep, seen, depth),
        !endless(decode_fields(plain(types), data, fields, pos, deep)),
    ensures
        decode_fields(guarded(types), data, fields, pos, depth) == decode_fields(
            plain(types),
            data,
            fields,
            pos,
            deep,
        ),
    decreases remaining(data, pos), deep, 3nat, 0nat, 0nat,
{
    match fields {
        None => {},
        Some(FieldsModel::Named(named)) => {
            lemma_named_guarded(types, data, named, named.len(), pos, depth, deep, seen);
        },
        Some(FieldsModel::Tuple(members)) => {
            lemma_tuple_guarded(types, data, members, members.len(), pos, depth, deep, seen);
        },
    }
}

proof fn lemma_enum_guarded(
    types: Map<Seq<char>, BodyModel>,
    data: Seq<u8>,
    variants: Seq<VariantModel>,
    pos: nat,
    depth: nat,
    deep: nat,
    seen: Set<Seq<char>>,
)
    requires
        tight(types, data, pos, deep, seen, depth),
        !endless(decode_enum(plain(types), data, variants, pos, deep)),
    ensures
        decode_enum(guarded(types), data, variants, pos, depth) == decode_enum(
            plain(types),
            data,
            variants,
            pos,
            deep,
        ),
    decreases remaining(data, pos), deep, 3nat, 0nat, 0nat,
{
    if pos + 1 <= data.len() && pos + 1 <= usize::MAX {
        let t = data[pos as int] as int;
        if t < variants.len() && variants[t].fields is Some {
            let fields = variants[t].fields;
            lemma_tight_step(types, data, pos, pos + 1, deep, seen, depth);
            let left = depth_at(guarded(types), data, pos, pos + 1, depth);
            lemma_fields_guarded(types, data, fields, pos + 1, left, deep, Set::empty());
        }
    }
}

proof fn lemma_body_guarded(
    types: Map<Seq<char>, BodyModel>,
    data: Seq<u8>,
    body: BodyModel,
    pos: nat,
    depth: nat,
    deep: nat,
    seen: Set<Seq<char>>,
)
    requires
        tight(types, data, pos, deep, seen, depth),
        !endless(decode_body(plain(types), data, body, pos, deep)),
    ensures
        decode_body(guarded(types), data, body, pos, depth) == decode_body(
            plain(types),
            data,
            body,
            pos,
            deep,
        ),
    decreases remaining(data, pos), deep, 4nat, 0nat, 0nat,
{
    match body {
        BodyModel::Struct { fields } => {
            lemma_fields_guarded(types, data, fields, pos, depth, deep, seen);
        },
        BodyModel::Enum { variants } => {
            lemma_enum_guarded(types, data, variants, pos, depth, deep, seen);
        },
        BodyModel::Type { alias } => {
            lemma_type_guarded(types, data, alias, pos, depth, deep, seen);
        },
    }
}

proof fn lemma_defined_guarded(
    types: Map<Seq<char>, BodyModel>,
    data: Seq<u8>,
    name: Seq<char>,
    pos: nat,
    depth: nat,
    deep: nat,
    seen: Set<Seq<char>>,
)
    requires
        tight(types, data, pos, deep, seen, depth),
        !endless(decode_defined(plain(types), data, name, pos, deep)),
    ensures
        decode_defined(guarded(types), data, name, pos, depth) == decode_defined(
            plain(types),
            data,
            name,
            pos,
            deep,
        ),
    decreases remaining(data, pos), deep, 0nat, 0nat, 0nat,
{
    if types.dom().contains(name) {
        let less = (deep - 1) as nat;
        let wider = seen.insert(name);
        assert(!seen.contains(name));
        vstd::set_lib::lemma_len_subset(wider, types.dom());
        assert forall|other: Seq<char>| seen.contains(other) implies endless(
            #[trigger] decode_defined(plain(types), data, other, pos, less),
        ) by {
            if !endless(decode_defined(plain(types), data, other, pos, less)) {
                lemma_defined_deep(plain(types), data, other, pos, less, deep);
            }
        }
        if endless(decode_defined(plain(types), data, name, pos, less)) {
            // `deep` is the least depth at which `name` can be decoded here.
            assert(tight(types, data, pos, less, wider, (depth - 1) as nat));
            lemma_body_guarded(types, data, types[name], pos, (depth - 1) as nat, less, wider);
        } else {
            lemma_defined_deep(plain(types), data, name, pos, less, deep);
            lemma_defined_guarded(types, data, name, pos, depth, less, seen);
        }
    }
}

/// Decoding a value comes to `EndlessType` exactly where plain recursion would
/// not stop at any depth. Everywhere else it comes to what plain recursion comes
/// to at every depth that is enough.
pub proof fn lemma_type_guard_exact(
    types: Map<Seq<char>, BodyModel>,
    data: Seq<u8>,
    ty: TypeModel,
    pos: nat,
)
    requires
        types.dom().finite(),
    ensures
        ({
            let o = decode_type(guarded(types), data, ty, pos, types.dom().len());
            &&& endless(o) <==> forall|deep: nat|
                endless(#[trigger] decode_type(plain(types), data, ty, pos, deep))
            &&& forall|deep: nat|
                !endless(#[trigger] decode_type(plain(types), data, ty, pos, deep))
                    ==> decode_type(plain(types), data, ty, pos, deep) == o
        }),
{
    let depth = types.dom().len();
    assert forall|deep: nat|
        !endless(#[trigger] decode_type(plain(types), data, ty, pos, deep)) implies decode_type(
        plain(types),
        data,
        ty,
        pos,
        deep,
    ) == decode_type(guarded(types), data, ty, pos, depth) by {
        lemma_type_guarded(types, data, ty, pos, depth, deep, Set::empty());
    }
    if !endless(decode_type(guarded(types), data, ty, pos, depth)) {
        let deep = reach(guarded(types), remaining(data, pos), depth);
        lemma_type_deep(guarded(types), data, ty, pos, depth, deep);
        assert(!endless(decode_type(plain(types), data, ty, pos, deep)));
    }
}

/// Decoding fields comes to `EndlessType` exactly where plain recursion would
/// not stop at any depth. Everywhere else it comes to what plain recursion comes
/// to at every depth that is enough.
pub proof fn lemma_fields_guard_exact(
    types: Map<Seq<char>, BodyModel>,
    data: Seq<u8>,
    fields: Option<FieldsModel>,
    pos: nat,
)
    requires
        types.dom().finite(),
    ensures
        ({
            let o = decode_fields(guarded(types), data, fields, pos, types.dom().len());
            &&& endless(o) <==> forall|deep: nat|
                endless(#[trigger] decode_fields(plain(types), data, fields, pos, deep))
            &&& forall|deep: nat|
                !endless(#[trigger] decode_fields(plain(types), data, fields, pos, deep))
                    ==> decode_fields(plain(types), data, fields, pos, deep) == o
        }),
{
    let depth = types.dom().len();
    assert forall|deep: nat|
        !endless(
            #[trigger] decode_fields(plain(types), data, fields, pos, deep),
        ) implies decode_fields(plain(types), data, fields, pos, deep) == decode_fields(
        guarded(types),
        data,
        fields,
        pos,
        depth,
    ) by {
        lemma_fields_guarded(types, data, fields, pos, depth, deep, Set::empty());
    }
    if !endless(decode_fields(guarded(types), data, fields, pos, depth)) {
        let deep = reach(guarded(types), remaining(data, pos), depth);
        lemma_fields_deep(guarded(types), data, fields, pos, depth, deep);
        assert(!endless(decode_fields(plain(types), data, fields, pos, deep)));
    }
}

/// A name decodes to what its definition does; only where there is no end do the
/// two errors tell of different names.
pub proof fn lemma_defined_guard(
    types: Map<Seq<char>, BodyModel>,
    data: Seq<u8>,
    name: Seq<char>,
    pos: nat,
)
    requires
        types.dom().finite(),
        types.dom().contains(name),
    ensures
        ({
            let n = types.dom().len();
            let o = decode_defined(guarded(types), data, name, pos, n);
            let inner = match types[name] {
                BodyModel::Struct { fields } => decode_fields(guarded(types), data, fields, pos, n),
                BodyModel::Enum { variants } => decode_enum(guarded(types), data, variants, pos, n),
                BodyModel::Type { alias } => decode_type(guarded(types), data, alias, pos, n),
            };
            o == inner || endless(o) && endless(inner)
        }),
{
    let n = types.dom().len();
    let body = types[name];
    let left = remaining(data, pos);
    if !endless(decode_defined(guarded(types), data, name, pos, n)) {
        let deep = reach(guarded(types), left, (n - 1) as nat);
        lemma_body_deep(guarded(types), data, body, pos, (n - 1) as nat, deep);
        lemma_body_guarded(types, data, body, pos, n, deep, Set::empty());
    } else if !endless(decode_body(guarded(types), data, body, pos, n)) {
        let deep = reach(guarded(types), left, n);
        lemma_body_deep(guarded(types), data, body, pos, n, deep);
        lemma_defined_guarded(types, data, name, pos, n, deep + 1, Set::empty());
    }
}

} // verus!
