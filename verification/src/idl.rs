//! The part of an Anchor IDL that decoding reads: type definitions and events.
use vstd::prelude::*;

verus! {

/// Length of a fixed-size array type.
#[derive(Debug, PartialEq)]
pub enum ArrayLen {
    Generic(String),
    Value(usize),
}

/// A type expression of the IDL.
#[derive(Debug, PartialEq)]
pub enum Type {
    Bool,
    U8,
    I8,
    U16,
    I16,
    U32,
    I32,
    F32,
    U64,
    I64,
    F64,
    U128,
    I128,
    U256,
    I256,
    Bytes,
    String,
    Pubkey,
    Option(Box<Type>),
    Vec(Box<Type>),
    Array(Box<Type>, ArrayLen),
    /// A reference to a definition by name, with the number of generic
    /// arguments given to it.
    Defined { name: String, generics: usize },
    Generic(String),
}

/// A named field of a struct or of an enum variant.
#[derive(Debug, PartialEq)]
pub struct Field {
    pub name: String,
    pub ty: Type,
}

/// The fields of a struct or of an enum variant.
#[derive(Debug, PartialEq)]
pub enum Fields {
    Named(Vec<Field>),
    Tuple(Vec<Type>),
}

/// One variant of an enum.
#[derive(Debug, PartialEq)]
pub struct Variant {
    pub name: String,
    pub fields: Option<Fields>,
}

/// What a definition stands for.
#[derive(Debug, PartialEq)]
pub enum TypeBody {
    Struct { fields: Option<Fields> },
    Enum { variants: Vec<Variant> },
    Type { alias: Type },
}

/// A named type definition.
#[derive(Debug, PartialEq)]
pub struct TypeDef {
    pub name: String,
    pub ty: TypeBody,
}

/// An event: its name and the bytes that announce it in a log.
#[derive(Debug, PartialEq)]
pub struct Event {
    pub name: String,
    pub discriminator: Vec<u8>,
}

/// The type definitions and events of a program.
#[derive(Debug, PartialEq)]
pub struct Idl {
    pub types: Vec<TypeDef>,
    pub events: Vec<Event>,
}

/// Mathematical counterpart of [`ArrayLen`].
pub enum LenModel {
    Generic(Seq<char>),
    Value(nat),
}

/// Mathematical counterpart of [`Type`].
pub enum TypeModel {
    Bool,
    U8,
    I8,
    U16,
    I16,
    U32,
    I32,
    F32,
    U64,
    I64,
    F64,
    U128,
    I128,
    U256,
    I256,
    Bytes,
    String,
    Pubkey,
    Option(Box<TypeModel>),
    Vec(Box<TypeModel>),
    Array(Box<TypeModel>, LenModel),
    Defined { name: Seq<char>, generics: nat },
    Generic(Seq<char>),
}

/// Mathematical counterpart of [`Field`].
pub struct FieldModel {
    pub name: Seq<char>,
    pub ty: TypeModel,
}

/// Mathematical counterpart of [`Fields`].
pub enum FieldsModel {
    Named(Seq<FieldModel>),
    Tuple(Seq<TypeModel>),
}

/// Mathematical counterpart of [`Variant`].
pub struct VariantModel {
    pub name: Seq<char>,
    pub fields: Option<FieldsModel>,
}

/// Mathematical counterpart of [`TypeBody`].
pub enum BodyModel {
    Struct { fields: Option<FieldsModel> },
    Enum { variants: Seq<VariantModel> },
    Type { alias: TypeModel },
}

/// Mathematical counterpart of [`TypeDef`].
pub struct TypeDefModel {
    pub name: Seq<char>,
    pub ty: BodyModel,
}

/// Mathematical counterpart of [`Event`].
pub struct EventModel {
    pub name: Seq<char>,
    pub discriminator: Seq<u8>,
}

/// Mathematical counterpart of [`Idl`].
pub struct IdlModel {
    pub types: Seq<TypeDefModel>,
    pub events: Seq<EventModel>,
}

impl View for ArrayLen {
    type V = LenModel;

    open spec fn view(&self) -> LenModel {
        match *self {
            ArrayLen::Generic(name) => LenModel::Generic(name@),
            ArrayLen::Value(n) => LenModel::Value(n as nat),
        }
    }
}

impl Type {
    /// The type expression as a mathematical value.
    pub open spec fn model(self) -> TypeModel
        decreases self,
    {
        match self {
            Type::Bool => TypeModel::Bool,
            Type::U8 => TypeModel::U8,
            Type::I8 => TypeModel::I8,
            Type::U16 => TypeModel::U16,
            Type::I16 => TypeModel::I16,
            Type::U32 => TypeModel::U32,
            Type::I32 => TypeModel::I32,
            Type::F32 => TypeModel::F32,
            Type::U64 => TypeModel::U64,
            Type::I64 => TypeModel::I64,
            Type::F64 => TypeModel::F64,
            Type::U128 => TypeModel::U128,
            Type::I128 => TypeModel::I128,
            Type::U256 => TypeModel::U256,
            Type::I256 => TypeModel::I256,
            Type::Bytes => TypeModel::Bytes,
            Type::String => TypeModel::String,
            Type::Pubkey => TypeModel::Pubkey,
            Type::Option(inner) => TypeModel::Option(Box::new(inner.model())),
            Type::Vec(inner) => TypeModel::Vec(Box::new(inner.model())),
            Type::Array(inner, len) => TypeModel::Array(Box::new(inner.model()), len@),
            Type::Defined { name, generics } => TypeModel::Defined {
                name: name@,
                generics: generics as nat,
            },
            Type::Generic(name) => TypeModel::Generic(name@),
        }
    }
}

impl View for Type {
    type V = TypeModel;

    open spec fn view(&self) -> TypeModel {
        self.model()
    }
}

impl View for Field {
    type V = FieldModel;

    open spec fn view(&self) -> FieldModel {
        FieldModel { name: self.name@, ty: self.ty@ }
    }
}

impl View for Fields {
    type V = FieldsModel;

    open spec fn view(&self) -> FieldsModel {
        match *self {
            Fields::Named(fields) => FieldsModel::Named(
                fields@.map_values(|f: Field| f@),
            ),
            Fields::Tuple(types) => FieldsModel::Tuple(
                types@.map_values(|t: Type| t@),
            ),
        }
    }
}

/// Optional fields as a mathematical value.
pub open spec fn fields_model(fields: Option<Fields>) -> Option<FieldsModel> {
    match fields {
        Some(f) => Some(f@),
        None => None,
    }
}

impl View for Variant {
    type V = VariantModel;

    open spec fn view(&self) -> VariantModel {
        VariantModel { name: self.name@, fields: fields_model(self.fields) }
    }
}

impl View for TypeBody {
    type V = BodyModel;

    open spec fn view(&self) -> BodyModel {
        match *self {
            TypeBody::Struct { fields } => BodyModel::Struct { fields: fields_model(fields) },
            TypeBody::Enum { variants } => BodyModel::Enum {
                variants: variants@.map_values(|v: Variant| v@),
            },
            TypeBody::Type { alias } => BodyModel::Type { alias: alias@ },
        }
    }
}

impl View for TypeDef {
    type V = TypeDefModel;

    open spec fn view(&self) -> TypeDefModel {
        TypeDefModel { name: self.name@, ty: self.ty@ }
    }
}

impl View for Event {
    type V = EventModel;

    open spec fn view(&self) -> EventModel {
        EventModel { name: self.name@, discriminator: self.discriminator@ }
    }
}

impl View for Idl {
    type V = IdlModel;

    open spec fn view(&self) -> IdlModel {
        IdlModel {
            types: self.types@.map_values(|d: TypeDef| d@),
            events: self.events@.map_values(|e: Event| e@),
        }
    }
}

/// The model of a type expression has its kind, its parts, its names and its
/// length.
pub proof fn lemma_type_view(ty: Type)
    ensures
        match ty {
            Type::Bool => ty@ is Bool,
            Type::U8 => ty@ is U8,
            Type::I8 => ty@ is I8,
            Type::U16 => ty@ is U16,
            Type::I16 => ty@ is I16,
            Type::U32 => ty@ is U32,
            Type::I32 => ty@ is I32,
            Type::F32 => ty@ is F32,
            Type::U64 => ty@ is U64,
            Type::I64 => ty@ is I64,
            Type::F64 => ty@ is F64,
            Type::U128 => ty@ is U128,
            Type::I128 => ty@ is I128,
            Type::U256 => ty@ is U256,
            Type::I256 => ty@ is I256,
            Type::Bytes => ty@ is Bytes,
            Type::String => ty@ is String,
            Type::Pubkey => ty@ is Pubkey,
            Type::Option(inner) => ty@ == TypeModel::Option(Box::new(inner@)),
            Type::Vec(inner) => ty@ == TypeModel::Vec(Box::new(inner@)),
            Type::Array(inner, ArrayLen::Value(n)) => ty@ == TypeModel::Array(
                Box::new(inner@),
                LenModel::Value(n as nat),
            ),
            Type::Array(inner, ArrayLen::Generic(param)) => ty@ == TypeModel::Array(
                Box::new(inner@),
                LenModel::Generic(param@),
            ),
            Type::Defined { name, generics } => ty@ == (TypeModel::Defined {
                name: name@,
                generics: generics as nat,
            }),
            Type::Generic(param) => ty@ == TypeModel::Generic(param@),
        },
{
}

/// The model of fields has as many fields, in the same order, each with its name
/// and its type.
pub proof fn lemma_fields_view(fields: Option<Fields>)
    ensures
        match fields {
            None => fields_model(fields) is None,
            Some(Fields::Named(named)) => {
                &&& fields_model(fields) matches Some(FieldsModel::Named(out))
                &&& out.len() == named@.len()
                &&& forall|i: int|
                    0 <= i < named@.len() ==> (#[trigger] out[i]).name == named@[i].name@
                        && out[i].ty == named@[i].ty@
            },
            Some(Fields::Tuple(tuple)) => {
                &&& fields_model(fields) matches Some(FieldsModel::Tuple(out))
                &&& out.len() == tuple@.len()
                &&& forall|i: int| 0 <= i < tuple@.len() ==> (#[trigger] out[i]) == tuple@[i]@
            },
        },
{
}

/// The model of a definition is of its kind; that of an enum has as many
/// variants, in the same order, each with its name and its fields.
pub proof fn lemma_body_view(body: TypeBody)
    ensures
        match body {
            TypeBody::Struct { fields } => body@ == (BodyModel::Struct {
                fields: fields_model(fields),
            }),
            TypeBody::Enum { variants } => {
                &&& body@ matches BodyModel::Enum { variants: out }
                &&& out.len() == variants@.len()
                &&& forall|i: int|
                    0 <= i < variants@.len() ==> (#[trigger] out[i]).name == variants@[i].name@
                        && out[i].fields == fields_model(variants@[i].fields)
            },
            TypeBody::Type { alias } => body@ == (BodyModel::Type { alias: alias@ }),
        },
{
}

/// The model of an IDL has its definitions and its events, each in their order.
pub proof fn lemma_idl_view(idl: Idl)
    ensures
        idl@.types.len() == idl.types@.len(),
        forall|i: int|
            0 <= i < idl.types@.len() ==> (#[trigger] idl@.types[i]).name == idl.types@[i].name@
                && idl@.types[i].ty == idl.types@[i].ty@,
        idl@.events.len() == idl.events@.len(),
        forall|i: int|
            0 <= i < idl.events@.len() ==> (#[trigger] idl@.events[i]).name
                == idl.events@[i].name@ && idl@.events[i].discriminator
                == idl.events@[i].discriminator@,
{
}

} // verus!
