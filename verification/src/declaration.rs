//! Stringless encoded declarations: every name in them is an [`Identifier`] into the name
//! table they were parsed against. Each type has a mathematical model, its view.

use vstd::prelude::*;

use crate::names::Identifier;

verus! {

broadcast use vstd::std_specs::vec::group_vec_axioms;

/// What a declaration declares.
#[derive(Clone, Copy, Debug, PartialEq, Eq, Structural)]
pub enum DeclarationRole {
    DataType,
    InterfaceInput,
    InterfaceOutput,
}

/// Whether a declaration is visible outside its unit.
#[derive(Clone, Copy, Debug, PartialEq, Eq, Structural)]
pub enum Visibility {
    Public,
    Private,
}

/// A reference to a type, as it stands in a field, a variant's payload or a newtype.
/// `projection` is the wire tag of a type application's projection, one byte wide; a value
/// application's `value` is an unsigned 64-bit integer. The fingerprint folds both at
/// exactly these widths (the tag as one byte, the value as eight little-endian bytes), so a
/// document format with wider projections or values would need a different fold.
#[derive(Debug)]
pub enum EncodedReference {
    String,
    Integer,
    Boolean,
    Bytes,
    Plain(Identifier),
    SingleTypeApplication { projection: u8, argument: Box<EncodedReference> },
    MultiTypeApplication { projection: u8, arguments: Vec<EncodedReference> },
    ValueApplication { projection: u8, value: u64 },
}

/// The model of an [`EncodedReference`].
pub enum ReferenceModel {
    String,
    Integer,
    Boolean,
    Bytes,
    Plain(Identifier),
    SingleTypeApplication { projection: u8, argument: Box<ReferenceModel> },
    MultiTypeApplication { projection: u8, arguments: Seq<ReferenceModel> },
    ValueApplication { projection: u8, value: u64 },
}

pub open spec fn reference_view(r: EncodedReference) -> ReferenceModel
    decreases r,
{
    match r {
        EncodedReference::String => ReferenceModel::String,
        EncodedReference::Integer => ReferenceModel::Integer,
        EncodedReference::Boolean => ReferenceModel::Boolean,
        EncodedReference::Bytes => ReferenceModel::Bytes,
        EncodedReference::Plain(id) => ReferenceModel::Plain(id),
        EncodedReference::SingleTypeApplication { projection, argument } => {
            ReferenceModel::SingleTypeApplication {
                projection,
                argument: Box::new(reference_view(*argument)),
            }
        },
        EncodedReference::MultiTypeApplication { projection, arguments } => {
            proof {
                assert(decreases_to!(arguments => arguments@));
            }
            ReferenceModel::MultiTypeApplication {
                projection,
                arguments: references_view(arguments@),
            }
        },
        EncodedReference::ValueApplication { projection, value } => {
            ReferenceModel::ValueApplication { projection, value }
        },
    }
}

pub open spec fn references_view(s: Seq<EncodedReference>) -> Seq<ReferenceModel>
    decreases s,
{
    if s.len() == 0 {
        Seq::empty()
    } else {
        references_view(s.drop_last()).push(reference_view(s.last()))
    }
}

impl View for EncodedReference {
    type V = ReferenceModel;

    open spec fn view(&self) -> ReferenceModel {
        reference_view(*self)
    }
}

pub proof fn lemma_references_view(s: Seq<EncodedReference>)
    ensures
        references_view(s).len() == s.len(),
        forall|i: int| 0 <= i < s.len() ==> #[trigger] references_view(s)[i] == s[i]@,
    decreases s.len(),
{
    if s.len() > 0 {
        lemma_references_view(s.drop_last());
    }
}

pub proof fn lemma_references_view_push(s: Seq<EncodedReference>, r: EncodedReference)
    ensures
        references_view(s.push(r)) == references_view(s).push(r@),
{
    assert(s.push(r).drop_last() =~= s);
}

/// A field of a struct.
#[derive(Debug)]
pub struct EncodedField {
    pub identifier: Identifier,
    pub reference: EncodedReference,
}

pub struct FieldModel {
    pub identifier: Identifier,
    pub reference: ReferenceModel,
}

impl View for EncodedField {
    type V = FieldModel;

    open spec fn view(&self) -> FieldModel {
        FieldModel { identifier: self.identifier, reference: self.reference@ }
    }
}

/// A variant of an enumeration, with its payload where it has one.
#[derive(Debug)]
pub struct EncodedVariant {
    pub identifier: Identifier,
    pub payload: Option<EncodedReference>,
}

pub struct VariantModel {
    pub identifier: Identifier,
    pub payload: Option<ReferenceModel>,
}

pub open spec fn payload_view(p: Option<EncodedReference>) -> Option<ReferenceModel> {
    match p {
        Some(r) => Some(r@),
        None => None,
    }
}

impl View for EncodedVariant {
    type V = VariantModel;

    open spec fn view(&self) -> VariantModel {
        VariantModel { identifier: self.identifier, payload: payload_view(self.payload) }
    }
}

/// A newtype: a name for one reference.
#[derive(Debug)]
pub struct EncodedNewtype {
    pub identifier: Identifier,
    pub reference: EncodedReference,
}

/// A struct: a name and its fields in order.
#[derive(Debug)]
pub struct EncodedStruct {
    pub identifier: Identifier,
    pub fields: Vec<EncodedField>,
}

/// An enumeration: a name and its variants in order.
#[derive(Debug)]
pub struct EncodedEnum {
    pub identifier: Identifier,
    pub variants: Vec<EncodedVariant>,
}

/// The body of a declaration.
#[derive(Debug)]
pub enum EncodedType {
    Newtype(EncodedNewtype),
    Struct(EncodedStruct),
    Enumeration(EncodedEnum),
}

pub enum TypeModel {
    Newtype { identifier: Identifier, reference: ReferenceModel },
    Struct { identifier: Identifier, fields: Seq<FieldModel> },
    Enumeration { identifier: Identifier, variants: Seq<VariantModel> },
}

impl TypeModel {
    /// The declared name.
    pub open spec fn identifier(self) -> Identifier {
        match self {
            TypeModel::Newtype { identifier, .. } => identifier,
            TypeModel::Struct { identifier, .. } => identifier,
            TypeModel::Enumeration { identifier, .. } => identifier,
        }
    }

    /// The same body, declared under `identifier`.
    pub open spec fn with_identifier(self, identifier: Identifier) -> TypeModel {
        match self {
            TypeModel::Newtype { reference, .. } => TypeModel::Newtype { identifier, reference },
            TypeModel::Struct { fields, .. } => TypeModel::Struct { identifier, fields },
            TypeModel::Enumeration { variants, .. } => TypeModel::Enumeration { identifier, variants },
        }
    }
}

impl View for EncodedType {
    type V = TypeModel;

    open spec fn view(&self) -> TypeModel {
        match self {
            EncodedType::Newtype(n) => TypeModel::Newtype {
                identifier: n.identifier,
                reference: n.reference@,
            },
            EncodedType::Struct(s) => TypeModel::Struct {
                identifier: s.identifier,
                fields: s.fields@.map_values(|f: EncodedField| f@),
            },
            EncodedType::Enumeration(e) => TypeModel::Enumeration {
                identifier: e.identifier,
                variants: e.variants@.map_values(|v: EncodedVariant| v@),
            },
        }
    }
}

/// One declaration: its role, visibility and body.
#[derive(Debug)]
pub struct EncodedDeclaration {
    pub role: DeclarationRole,
    pub visibility: Visibility,
    pub value: EncodedType,
}

pub struct DeclarationModel {
    pub role: DeclarationRole,
    pub visibility: Visibility,
    pub value: TypeModel,
}

impl View for EncodedDeclaration {
    type V = DeclarationModel;

    open spec fn view(&self) -> DeclarationModel {
        DeclarationModel { role: self.role, visibility: self.visibility, value: self.value@ }
    }
}

impl EncodedDeclaration {
    /// A data-type declaration.
    pub fn new(visibility: Visibility, value: EncodedType) -> (d: EncodedDeclaration)
        ensures
            d@ == (DeclarationModel {
                role: DeclarationRole::DataType,
                visibility,
                value: value@,
            }),
    {
        EncodedDeclaration { role: DeclarationRole::DataType, visibility, value }
    }

    /// An interface declaration in `role`. This model of the encoded document carries no
    /// visibility for interface declarations: they are always public, and that is the
    /// visibility their fingerprint and their re-stamped form carry.
    pub fn interface(role: DeclarationRole, value: EncodedType) -> (d: EncodedDeclaration)
        ensures
            d@ == (DeclarationModel { role, visibility: Visibility::Public, value: value@ }),
    {
        EncodedDeclaration { role, visibility: Visibility::Public, value }
    }

    /// The declared name.
    pub fn identifier(&self) -> (id: Identifier)
        ensures
            id == self@.value.identifier(),
    {
        match &self.value {
            EncodedType::Newtype(n) => n.identifier,
            EncodedType::Struct(s) => s.identifier,
            EncodedType::Enumeration(e) => e.identifier,
        }
    }
}

/// The declarations of one Ethos unit, in parse order.
#[derive(Debug)]
pub struct EncodedEthos {
    pub declarations: Vec<EncodedDeclaration>,
}

impl View for EncodedEthos {
    type V = Seq<DeclarationModel>;

    open spec fn view(&self) -> Seq<DeclarationModel> {
        self.declarations@.map_values(|d: EncodedDeclaration| d@)
    }
}

} // verus!
