//! Reading an IDL with the `anchor_lang_idl` crate.
use crate::idl::{
    fields_model, ArrayLen, BodyModel, Event, EventModel, Field, FieldModel, Fields, FieldsModel,
    Idl, IdlModel, LenModel, Type, TypeBody, TypeDef, TypeDefModel, TypeModel, Variant,
    VariantModel,
};
use anchor_lang_idl::types;
use vstd::prelude::*;
use vstd::utf8::encode_utf8;

verus! {

/// Declares `IdlArrayLen` of `anchor_lang_idl`; its variants can be read.
#[verifier::external_type_specification]
pub struct ExIdlArrayLen(types::IdlArrayLen);

/// Declares `IdlGenericArg` of `anchor_lang_idl`. Only the number of generic
/// arguments is read, so what one holds stays hidden.
#[verifier::external_type_specification]
#[verifier::external_body]
pub struct ExIdlGenericArg(types::IdlGenericArg);

/// Declares `IdlType` of `anchor_lang_idl`; its variants can be read.
#[verifier::external_type_specification]
pub struct ExIdlType(types::IdlType);

/// Declares `IdlField` of `anchor_lang_idl`; its fields can be read.
#[verifier::external_type_specification]
pub struct ExIdlField(types::IdlField);

/// Declares `IdlDefinedFields` of `anchor_lang_idl`; its variants can be read.
#[verifier::external_type_specification]
pub struct ExIdlDefinedFields(types::IdlDefinedFields);

/// Declares `IdlEnumVariant` of `anchor_lang_idl`; its fields can be read.
#[verifier::external_type_specification]
pub struct ExIdlEnumVariant(types::IdlEnumVariant);

/// Declares `IdlTypeDefTy` of `anchor_lang_idl`; its variants can be read.
#[verifier::external_type_specification]
pub struct ExIdlTypeDefTy(types::IdlTypeDefTy);

/// Declares `IdlSerialization` of `anchor_lang_idl`, which is never looked into.
#[verifier::external_type_specification]
#[verifier::external_body]
pub struct ExIdlSerialization(types::IdlSerialization);

/// Declares `IdlRepr` of `anchor_lang_idl`, which is never looked into.
#[verifier::external_type_specification]
#[verifier::external_body]
pub struct ExIdlRepr(types::IdlRepr);

/// Declares `IdlTypeDefGeneric` of `anchor_lang_idl`, which is never looked into.
#[verifier::external_type_specification]
#[verifier::external_body]
pub struct ExIdlTypeDefGeneric(types::IdlTypeDefGeneric);

/// Declares `IdlTypeDef` of `anchor_lang_idl`; its fields can be read.
#[verifier::external_type_specification]
pub struct ExIdlTypeDef(types::IdlTypeDef);

/// Declares `IdlEvent` of `anchor_lang_idl`; its fields can be read.
#[verifier::external_type_specification]
pub struct ExIdlEvent(types::IdlEvent);

/// The length of an array type of the crate as a mathematical value.
pub open spec fn len_of(len: types::IdlArrayLen) -> LenModel {
    match len {
        types::IdlArrayLen::Generic(name) => LenModel::Generic(name@),
        types::IdlArrayLen::Value(n) => LenModel::Value(n as nat),
    }
}

/// A type expression of the crate as a mathematical value.
pub open spec fn type_of(ty: types::IdlType) -> TypeModel
    decreases ty,
{
    match ty {
        types::IdlType::Bool => TypeModel::Bool,
        types::IdlType::U8 => TypeModel::U8,
        types::IdlType::I8 => TypeModel::I8,
        types::IdlType::U16 => TypeModel::U16,
        types::IdlType::I16 => TypeModel::I16,
        types::IdlType::U32 => TypeModel::U32,
        types::IdlType::I32 => TypeModel::I32,
        types::IdlType::F32 => TypeModel::F32,
        types::IdlType::U64 => TypeModel::U64,
        types::IdlType::I64 => TypeModel::I64,
        types::IdlType::F64 => TypeModel::F64,
        types::IdlType::U128 => TypeModel::U128,
        types::IdlType::I128 => TypeModel::I128,
        types::IdlType::U256 => TypeModel::U256,
        types::IdlType::I256 => TypeModel::I256,
        types::IdlType::Bytes => TypeModel::Bytes,
        types::IdlType::String => TypeModel::String,
        types::IdlType::Pubkey => TypeModel::Pubkey,
        types::IdlType::Option(inner) => TypeModel::Option(Box::new(type_of(*inner))),
        types::IdlType::Vec(inner) => TypeModel::Vec(Box::new(type_of(*inner))),
        types::IdlType::Array(inner, len) => TypeModel::Array(
            Box::new(type_of(*inner)),
            len_of(len),
        ),
        types::IdlType::Defined { name, generics } => TypeModel::Defined {
            name: name@,
            generics: generics@.len(),
        },
        types::IdlType::Generic(name) => TypeModel::Generic(name@),
        _ => arbitrary(),
    }
}

/// A field of the crate as a mathematical value.
pub open spec fn field_of(field: types::IdlField) -> FieldModel {
    FieldModel { name: field.name@, ty: type_of(field.ty) }
}

/// Optional fields of the crate as a mathematical value.
pub open spec fn fields_of(fields: Option<types::IdlDefinedFields>) -> Option<FieldsModel> {
    match fields {
        None => None,
        Some(types::IdlDefinedFields::Named(named)) => Some(
            FieldsModel::Named(named@.map_values(|f: types::IdlField| field_of(f))),
        ),
        Some(types::IdlDefinedFields::Tuple(tuple)) => Some(
            FieldsModel::Tuple(tuple@.map_values(|t: types::IdlType| type_of(t))),
        ),
    }
}

/// An enum variant of the crate as a mathematical value.
pub open spec fn variant_of(variant: types::IdlEnumVariant) -> VariantModel {
    VariantModel { name: variant.name@, fields: fields_of(variant.fields) }
}

/// What a definition of the crate stands for, as a mathematical value.
pub open spec fn body_of(ty: types::IdlTypeDefTy) -> BodyModel {
    match ty {
        types::IdlTypeDefTy::Struct { fields } => BodyModel::Struct { fields: fields_of(fields) },
        types::IdlTypeDefTy::Enum { variants } => BodyModel::Enum {
            variants: variants@.map_values(|v: types::IdlEnumVariant| variant_of(v)),
        },
        types::IdlTypeDefTy::Type { alias } => BodyModel::Type { alias: type_of(alias) },
    }
}

/// The definitions and events of an IDL of the crate as a mathematical value.
pub open spec fn idl_of(defs: Seq<types::IdlTypeDef>, events: Seq<types::IdlEvent>) -> IdlModel {
    IdlModel {
        types: defs.map_values(
            |d: types::IdlTypeDef| TypeDefModel { name: d.name@, ty: body_of(d.ty) },
        ),
        events: events.map_values(
            |e: types::IdlEvent| EventModel { name: e.name@, discriminator: e.discriminator@ },
        ),
    }
}

/// A type expression keeps its kind, its parts, its names and its length when it
/// is taken over.
pub proof fn lemma_type_taken_over(ty: types::IdlType)
    ensures
        match ty {
            types::IdlType::Bool => type_of(ty) is Bool,
            types::IdlType::U8 => type_of(ty) is U8,
            types::IdlType::I8 => type_of(ty) is I8,
            types::IdlType::U16 => type_of(ty) is U16,
            types::IdlType::I16 => type_of(ty) is I16,
            types::IdlType::U32 => type_of(ty) is U32,
            types::IdlType::I32 => type_of(ty) is I32,
            types::IdlType::F32 => type_of(ty) is F32,
            types::IdlType::U64 => type_of(ty) is U64,
            types::IdlType::I64 => type_of(ty) is I64,
            types::IdlType::F64 => type_of(ty) is F64,
            types::IdlType::U128 => type_of(ty) is U128,
            types::IdlType::I128 => type_of(ty) is I128,
            types::IdlType::U256 => type_of(ty) is U256,
            types::IdlType::I256 => type_of(ty) is I256,
            types::IdlType::Bytes => type_of(ty) is Bytes,
            types::IdlType::String => type_of(ty) is String,
            types::IdlType::Pubkey => type_of(ty) is Pubkey,
            types::IdlType::Option(inner) => type_of(ty) == TypeModel::Option(
                Box::new(type_of(*inner)),
            ),
            types::IdlType::Vec(inner) => type_of(ty) == TypeModel::Vec(
                Box::new(type_of(*inner)),
            ),
            types::IdlType::Array(inner, types::IdlArrayLen::Value(n)) => type_of(ty)
                == TypeModel::Array(Box::new(type_of(*inner)), LenModel::Value(n as nat)),
            types::IdlType::Array(inner, types::IdlArrayLen::Generic(param)) => type_of(ty)
                == TypeModel::Array(Box::new(type_of(*inner)), LenModel::Generic(param@)),
            types::IdlType::Defined { name, generics } => type_of(ty) == (TypeModel::Defined {
                name: name@,
                generics: generics@.len(),
            }),
            types::IdlType::Generic(param) => type_of(ty) == TypeModel::Generic(param@),
            _ => true,
        },
{
}

/// Fields keep their number, their order, their names and their types when they
/// are taken over.
pub proof fn lemma_fields_taken_over(fields: Option<types::IdlDefinedFields>)
    ensures
        match fields {
            None => fields_of(fields) is None,
            Some(types::IdlDefinedFields::Named(named)) => {
                &&& fields_of(fields) matches Some(FieldsModel::Named(out))
                &&& out.len() == named@.len()
                &&& forall|i: int|
                    0 <= i < named@.len() ==> (#[trigger] out[i]).name == named@[i].name@
                        && out[i].ty == type_of(named@[i].ty)
            },
            Some(types::IdlDefinedFields::Tuple(tuple)) => {
                &&& fields_of(fields) matches Some(FieldsModel::Tuple(out))
                &&& out.len() == tuple@.len()
                &&& forall|i: int|
                    0 <= i < tuple@.len() ==> (#[trigger] out[i]) == type_of(tuple@[i])
            },
        },
{
}

/// A definition keeps its kind, and an enum its variants in their order, when it
/// is taken over.
pub proof fn lemma_body_taken_over(ty: types::IdlTypeDefTy)
    ensures
        match ty {
            types::IdlTypeDefTy::Struct { fields } => body_of(ty) == (BodyModel::Struct {
                fields: fields_of(fields),
            }),
            types::IdlTypeDefTy::Enum { variants } => {
                &&& body_of(ty) matches BodyModel::Enum { variants: out }
                &&& out.len() == variants@.len()
                &&& forall|i: int|
                    0 <= i < variants@.len() ==> (#[trigger] out[i]).name == variants@[i].name@
                        && out[i].fields == fields_of(variants@[i].fields)
            },
            types::IdlTypeDefTy::Type { alias } => body_of(ty) == (BodyModel::Type {
                alias: type_of(alias),
            }),
        },
{
}

/// An IDL keeps its definitions and its events, each in their order, when it is
/// taken over.
pub proof fn lemma_idl_taken_over(defs: Seq<types::IdlTypeDef>, events: Seq<types::IdlEvent>)
    ensures
        ({
            let idl = idl_of(defs, events);
            &&& idl.types.len() == defs.len()
            &&& forall|i: int|
                0 <= i < defs.len() ==> (#[trigger] idl.types[i]).name == defs[i].name@
                    && idl.types[i].ty == body_of(defs[i].ty)
            &&& idl.events.len() == events.len()
            &&& forall|i: int|
                0 <= i < events.len() ==> (#[trigger] idl.events[i]).name == events[i].name@
                    && idl.events[i].discriminator == events[i].discriminator@
        }),
{
}

/// What `convert_idl` makes of a JSON text on a machine whose largest `usize` is
/// `word`: an IDL, or the text of its error. The word size counts because array
/// lengths have to fit in a `usize`.
pub uninterp spec fn idl_of_json(json: Seq<u8>, word: nat) -> Result<IdlModel, Seq<char>>;

/// Calls `anchor_lang_idl::convert::convert_idl`, which parses an IDL of layout
/// `0.1.0` or of the older one, and hands out the definitions and events of what
/// it made, or the text of its error. Both depend on the JSON and the word size
/// alone.
#[verifier::external_body]
fn convert_idl(json: &[u8]) -> (r: Result<
    (Vec<types::IdlTypeDef>, Vec<types::IdlEvent>),
    String,
>)
    ensures
        match r {
            Ok(idl) => idl_of_json(json@, usize::MAX as nat) == Ok::<IdlModel, Seq<char>>(
                idl_of(idl.0@, idl.1@),
            ),
            Err(detail) => idl_of_json(json@, usize::MAX as nat) == Err::<IdlModel, Seq<char>>(
                detail@,
            ),
        },
{
    match anchor_lang_idl::convert::convert_idl(json) {
        Ok(idl) => Ok((idl.types, idl.events)),
        Err(e) => Err(e.to_string()),
    }
}

/// Takes a type expression over from the crate.
fn to_type(ty: &types::IdlType) -> (r: Type)
    ensures
        r@ == type_of(*ty),
        match *ty {
            types::IdlType::Bool => r is Bool,
            types::IdlType::U8 => r is U8,
            types::IdlType::I8 => r is I8,
            types::IdlType::U16 => r is U16,
            types::IdlType::I16 => r is I16,
            types::IdlType::U32 => r is U32,
            types::IdlType::I32 => r is I32,
            types::IdlType::F32 => r is F32,
            types::IdlType::U64 => r is U64,
            types::IdlType::I64 => r is I64,
            types::IdlType::F64 => r is F64,
            types::IdlType::U128 => r is U128,
            types::IdlType::I128 => r is I128,
            types::IdlType::U256 => r is U256,
            types::IdlType::I256 => r is I256,
            types::IdlType::Bytes => r is Bytes,
            types::IdlType::String => r is String,
            types::IdlType::Pubkey => r is Pubkey,
            types::IdlType::Option(inner) => r matches Type::Option(i) && i@ == type_of(*inner),
            types::IdlType::Vec(inner) => r matches Type::Vec(i) && i@ == type_of(*inner),
            types::IdlType::Array(inner, types::IdlArrayLen::Value(n)) => r matches Type::Array(
                i,
                ArrayLen::Value(m),
            ) && i@ == type_of(*inner) && m == n,
            types::IdlType::Array(
                inner,
                types::IdlArrayLen::Generic(param),
            ) => r matches Type::Array(i, ArrayLen::Generic(p)) && i@ == type_of(*inner) && p@
                == param@,
            types::IdlType::Defined { name, generics } => r matches Type::Defined {
                name: n,
                generics: g,
            } && n@ == name@ && g == generics@.len(),
            types::IdlType::Generic(param) => r matches Type::Generic(p) && p@ == param@,
            _ => true,
        },
    decreases ty,
{
    match ty {
        types::IdlType::Bool => Type::Bool,
        types::IdlType::U8 => Type::U8,
        types::IdlType::I8 => Type::I8,
        types::IdlType::U16 => Type::U16,
        types::IdlType::I16 => Type::I16,
        types::IdlType::U32 => Type::U32,
        types::IdlType::I32 => Type::I32,
        types::IdlType::F32 => Type::F32,
        types::IdlType::U64 => Type::U64,
        types::IdlType::I64 => Type::I64,
        types::IdlType::F64 => Type::F64,
        types::IdlType::U128 => Type::U128,
        types::IdlType::I128 => Type::I128,
        types::IdlType::U256 => Type::U256,
        types::IdlType::I256 => Type::I256,
        types::IdlType::Bytes => Type::Bytes,
        types::IdlType::String => Type::String,
        types::IdlType::Pubkey => Type::Pubkey,
        types::IdlType::Option(inner) => Type::Option(Box::new(to_type(inner))),
        types::IdlType::Vec(inner) => Type::Vec(Box::new(to_type(inner))),
        types::IdlType::Array(inner, len) => {
            let len = match len {
                types::IdlArrayLen::Generic(name) => ArrayLen::Generic(name.clone()),
                types::IdlArrayLen::Value(n) => ArrayLen::Value(*n),
            };
            Type::Array(Box::new(to_type(inner)), len)
        },
        types::IdlType::Defined { name, generics } => Type::Defined {
            name: name.clone(),
            generics: generics.len(),
        },
        types::IdlType::Generic(name) => Type::Generic(name.clone()),
        _ => vstd::pervasive::unreached(),
    }
}

/// Takes optional fields over from the crate.
fn to_fields(fields: &Option<types::IdlDefinedFields>) -> (r: Option<Fields>)
    ensures
        fields_model(r) == fields_of(*fields),
        match *fields {
            None => r is None,
            Some(types::IdlDefinedFields::Named(named)) => {
                &&& r matches Some(Fields::Named(out))
                &&& out@.len() == named@.len()
                &&& forall|i: int|
                    0 <= i < named@.len() ==> (#[trigger] out@[i]).name@ == named@[i].name@
                        && out@[i].ty@ == type_of(named@[i].ty)
            },
            Some(types::IdlDefinedFields::Tuple(tuple)) => {
                &&& r matches Some(Fields::Tuple(out))
                &&& out@.len() == tuple@.len()
                &&& forall|i: int|
                    0 <= i < tuple@.len() ==> (#[trigger] out@[i])@ == type_of(tuple@[i])
            },
        },
{
    match fields {
        None => None,
        Some(types::IdlDefinedFields::Named(named)) => {
            let mut out: Vec<Field> = Vec::new();
            let mut i: usize = 0;
            while i < named.len()
                invariant
                    i <= named@.len(),
                    out@.len() == i,
                    forall|k: int|
                        0 <= k < i ==> {
                            &&& (#[trigger] out@[k])@ == field_of(named@[k])
                            &&& out@[k].name@ == named@[k].name@
                            &&& out@[k].ty@ == type_of(named@[k].ty)
                        },
                decreases named@.len() - i,
            {
                out.push(Field { name: named[i].name.clone(), ty: to_type(&named[i].ty) });
                i = i + 1;
            }
            assert(out@.map_values(|f: Field| f@) =~= named@.map_values(
                |f: types::IdlField| field_of(f),
            ));
            Some(Fields::Named(out))
        },
        Some(types::IdlDefinedFields::Tuple(tuple)) => {
            let mut out: Vec<Type> = Vec::new();
            let mut i: usize = 0;
            while i < tuple.len()
                invariant
                    i <= tuple@.len(),
                    out@.len() == i,
                    forall|k: int| 0 <= k < i ==> (#[trigger] out@[k])@ == type_of(tuple@[k]),
                decreases tuple@.len() - i,
            {
                out.push(to_type(&tuple[i]));
                i = i + 1;
            }
            assert(out@.map_values(|t: Type| t@) =~= tuple@.map_values(
                |t: types::IdlType| type_of(t),
            ));
            Some(Fields::Tuple(out))
        },
    }
}

/// Takes what a definition stands for over from the crate.
fn to_body(ty: &types::IdlTypeDefTy) -> (r: TypeBody)
    ensures
        r@ == body_of(*ty),
        match *ty {
            types::IdlTypeDefTy::Struct { fields } => r matches TypeBody::Struct { fields: out }
                && fields_model(out) == fields_of(fields),
            types::IdlTypeDefTy::Enum { variants } => {
                &&& r matches TypeBody::Enum { variants: out }
                &&& out@.len() == variants@.len()
                &&& forall|i: int|
                    0 <= i < variants@.len() ==> (#[trigger] out@[i]).name@ == variants@[i].name@
                        && fields_model(out@[i].fields) == fields_of(variants@[i].fields)
            },
            types::IdlTypeDefTy::Type { alias } => r matches TypeBody::Type { alias: out } && out@
                == type_of(alias),
        },
{
    match ty {
        types::IdlTypeDefTy::Struct { fields } => TypeBody::Struct { fields: to_fields(fields) },
        types::IdlTypeDefTy::Enum { variants } => {
            let mut out: Vec<Variant> = Vec::new();
            let mut i: usize = 0;
            while i < variants.len()
                invariant
                    i <= variants@.len(),
                    out@.len() == i,
                    forall|k: int|
                        0 <= k < i ==> {
                            &&& (#[trigger] out@[k])@ == variant_of(variants@[k])
                            &&& out@[k].name@ == variants@[k].name@
                            &&& fields_model(out@[k].fields) == fields_of(variants@[k].fields)
                        },
                decreases variants@.len() - i,
            {
                let variant = &variants[i];
                out.push(
                    Variant { name: variant.name.clone(), fields: to_fields(&variant.fields) },
                );
                i = i + 1;
            }
            assert(out@.map_values(|v: Variant| v@) =~= variants@.map_values(
                |v: types::IdlEnumVariant| variant_of(v),
            ));
            TypeBody::Enum { variants: out }
        },
        types::IdlTypeDefTy::Type { alias } => TypeBody::Type { alias: to_type(alias) },
    }
}

/// Takes definitions and events over from the crate.
fn to_idl(defs: &Vec<types::IdlTypeDef>, events: &Vec<types::IdlEvent>) -> (r: Idl)
    ensures
        r@ == idl_of(defs@, events@),
        r.types@.len() == defs@.len(),
        forall|i: int|
            0 <= i < defs@.len() ==> (#[trigger] r.types@[i]).name@ == defs@[i].name@
                && r.types@[i].ty@ == body_of(defs@[i].ty),
        r.events@.len() == events@.len(),
        forall|i: int|
            0 <= i < events@.len() ==> (#[trigger] r.events@[i]).name@ == events@[i].name@
                && r.events@[i].discriminator@ == events@[i].discriminator@,
{
    let ghost model = idl_of(defs@, events@);
    let mut out_types: Vec<TypeDef> = Vec::new();
    let mut i: usize = 0;
    while i < defs.len()
        invariant
            i <= defs@.len(),
            model == idl_of(defs@, events@),
            out_types@.len() == i,
            forall|k: int|
                0 <= k < i ==> {
                    &&& (#[trigger] out_types@[k])@ == model.types[k]
                    &&& out_types@[k].name@ == defs@[k].name@
                    &&& out_types@[k].ty@ == body_of(defs@[k].ty)
                },
        decreases defs@.len() - i,
    {
        out_types.push(TypeDef { name: defs[i].name.clone(), ty: to_body(&defs[i].ty) });
        i = i + 1;
    }
    let mut out_events: Vec<Event> = Vec::new();
    let mut j: usize = 0;
    while j < events.len()
        invariant
            j <= events@.len(),
            model == idl_of(defs@, events@),
            out_events@.len() == j,
            forall|k: int|
                0 <= k < j ==> {
                    &&& (#[trigger] out_events@[k])@ == model.events[k]
                    &&& out_events@[k].name@ == events@[k].name@
                    &&& out_events@[k].discriminator@ == events@[k].discriminator@
                },
        decreases events@.len() - j,
    {
        let discriminator = vstd::slice::slice_to_vec(events[j].discriminator.as_slice());
        out_events.push(Event { name: events[j].name.clone(), discriminator });
        j = j + 1;
    }
    let idl = Idl { types: out_types, events: out_events };
    assert(idl@.types =~= model.types);
    assert(idl@.events =~= model.events);
    idl
}

/// Parses an IDL from JSON, or says in words why it cannot.
pub fn parse_idl(json: &str) -> (r: Result<Idl, String>)
    ensures
        ({
            let parsed = idl_of_json(encode_utf8(json@), usize::MAX as nat);
            match r {
                Ok(idl) => parsed == Ok::<IdlModel, Seq<char>>(idl@),
                Err(detail) => parsed == Err::<IdlModel, Seq<char>>(detail@),
            }
        }),
{
    match convert_idl(json.as_bytes()) {
        Ok(idl) => Ok(to_idl(&idl.0, &idl.1)),
        Err(detail) => Err(detail),
    }
}

} // verus!
