//! The structural fingerprint of a declaration: the ordered input that the identity
//! hasher folds for it. Every name in it is its resolved spelling, never a raw identifier,
//! so the fingerprint is a function of the declared structure.

use vstd::prelude::*;

use crate::declaration::{DeclarationModel, DeclarationRole, FieldModel, ReferenceModel, TypeModel, VariantModel, Visibility};
use crate::names::{spec_resolve, Identifier, NameTableError};

verus! {

/// One update of the identity hasher: bytes taken as they are, or bytes framed by their
/// length.
#[derive(Clone, Debug, PartialEq, Eq)]
pub enum HashInput {
    Raw(Vec<u8>),
    LengthPrefixed(Vec<u8>),
}

pub enum HashInputModel {
    Raw(Seq<u8>),
    LengthPrefixed(Seq<u8>),
}

impl View for HashInput {
    type V = HashInputModel;

    open spec fn view(&self) -> HashInputModel {
        match self {
            HashInput::Raw(b) => HashInputModel::Raw(b@),
            HashInput::LengthPrefixed(b) => HashInputModel::LengthPrefixed(b@),
        }
    }
}

/// The updates fed to the identity hasher, in order.
#[derive(Debug)]
pub struct ShapeTranscript {
    pub inputs: Vec<HashInput>,
}

impl View for ShapeTranscript {
    type V = Seq<HashInputModel>;

    open spec fn view(&self) -> Seq<HashInputModel> {
        self.inputs@.map_values(|h: HashInput| h@)
    }
}

impl ShapeTranscript {
    /// A transcript with no update yet.
    pub fn unprimed() -> (t: ShapeTranscript)
        ensures
            t@ == Seq::<HashInputModel>::empty(),
    {
        let t = ShapeTranscript { inputs: Vec::new() };
        assert(t@ =~= Seq::<HashInputModel>::empty());
        t
    }

    /// Feeds `bytes` as they are.
    pub fn update_raw(&mut self, bytes: &[u8])
        ensures
            final(self)@ == old(self)@.push(HashInputModel::Raw(bytes@)),
    {
        let v = vstd::slice::slice_to_vec(bytes);
        self.inputs.push(HashInput::Raw(v));
        assert(self@ =~= old(self)@.push(HashInputModel::Raw(bytes@)));
    }

    /// Feeds `bytes` framed by their length.
    pub fn update_length_prefixed(&mut self, bytes: &[u8])
        ensures
            final(self)@ == old(self)@.push(HashInputModel::LengthPrefixed(bytes@)),
    {
        let v = vstd::slice::slice_to_vec(bytes);
        self.inputs.push(HashInput::LengthPrefixed(v));
        assert(self@ =~= old(self)@.push(HashInputModel::LengthPrefixed(bytes@)));
    }
}

/// The UTF-8 bytes of a spelling.
pub open spec fn spelling_bytes(spelling: Seq<char>) -> Seq<u8> {
    vstd::utf8::encode_utf8(spelling)
}

/// The little-endian bytes of `x`.
pub open spec fn le_bytes(x: u64) -> Seq<u8> {
    seq![
        x as u8,
        (x >> 8u64) as u8,
        (x >> 16u64) as u8,
        (x >> 24u64) as u8,
        (x >> 32u64) as u8,
        (x >> 40u64) as u8,
        (x >> 48u64) as u8,
        (x >> 56u64) as u8,
    ]
}

/// The little-endian bytes of `x`.
pub fn to_le_bytes(x: u64) -> (b: [u8; 8])
    ensures
        b@ == le_bytes(x),
{
    let b = [
        x as u8,
        (x >> 8u64) as u8,
        (x >> 16u64) as u8,
        (x >> 24u64) as u8,
        (x >> 32u64) as u8,
        (x >> 40u64) as u8,
        (x >> 48u64) as u8,
        (x >> 56u64) as u8,
    ];
    assert(b@ =~= le_bytes(x));
    b
}

/// `prefix` in front of what `rest` holds, or `rest`'s error.
pub open spec fn prepend(prefix: Seq<HashInputModel>, rest: Result<Seq<HashInputModel>, NameTableError>) -> Result<Seq<HashInputModel>, NameTableError> {
    match rest {
        Ok(t) => Ok(prefix + t),
        Err(e) => Err(e),
    }
}

/// What `first` then `second` give: `first`'s error, else `second`'s, else both in order.
pub open spec fn then(first: Result<Seq<HashInputModel>, NameTableError>, second: Result<Seq<HashInputModel>, NameTableError>) -> Result<Seq<HashInputModel>, NameTableError> {
    match first {
        Err(e) => Err(e),
        Ok(a) => prepend(a, second),
    }
}

/// The update that a resolved name contributes, or the name's resolution error.
pub open spec fn fold_name(names: Seq<Seq<char>>, id: Identifier) -> Result<Seq<HashInputModel>, NameTableError> {
    match spec_resolve(names, id) {
        Ok(s) => Ok(seq![HashInputModel::LengthPrefixed(spelling_bytes(s))]),
        Err(e) => Err(e),
    }
}

pub open spec fn raw1(a: u8) -> HashInputModel {
    HashInputModel::Raw(seq![a])
}

pub open spec fn raw2(a: u8, b: u8) -> HashInputModel {
    HashInputModel::Raw(seq![a, b])
}

/// The fold of a reference: a tag per kind of reference, then its resolved name, its
/// arguments or its value.
pub open spec fn fold_reference_spec(names: Seq<Seq<char>>, r: ReferenceModel) -> Result<Seq<HashInputModel>, NameTableError>
    decreases r,
{
    match r {
        ReferenceModel::String => Ok(seq![raw1(0)]),
        ReferenceModel::Integer => Ok(seq![raw1(1)]),
        ReferenceModel::Boolean => Ok(seq![raw1(2)]),
        ReferenceModel::Bytes => Ok(seq![raw1(3)]),
        ReferenceModel::Plain(id) => prepend(seq![raw1(4)], fold_name(names, id)),
        ReferenceModel::SingleTypeApplication { projection, argument } => prepend(
            seq![raw2(5, projection)],
            fold_reference_spec(names, *argument),
        ),
        ReferenceModel::MultiTypeApplication { projection, arguments } => prepend(
            seq![raw2(6, projection), HashInputModel::Raw(le_bytes(arguments.len() as u64))],
            fold_references_spec(names, arguments),
        ),
        ReferenceModel::ValueApplication { projection, value } => Ok(
            seq![raw2(7, projection), HashInputModel::Raw(le_bytes(value))],
        ),
    }
}

/// The folds of `s`'s references, in order; the first error stops it.
pub open spec fn fold_references_spec(names: Seq<Seq<char>>, s: Seq<ReferenceModel>) -> Result<Seq<HashInputModel>, NameTableError>
    decreases s,
{
    if s.len() == 0 {
        Ok(Seq::empty())
    } else {
        then(fold_reference_spec(names, s[0]), fold_references_spec(names, s.drop_first()))
    }
}

/// The fold of a field: its resolved name, then its reference.
pub open spec fn fold_field_spec(names: Seq<Seq<char>>, f: FieldModel) -> Result<Seq<HashInputModel>, NameTableError> {
    then(fold_name(names, f.identifier), fold_reference_spec(names, f.reference))
}

/// The fold of a variant: its resolved name, then 1 and its payload, or 0.
pub open spec fn fold_variant_spec(names: Seq<Seq<char>>, v: VariantModel) -> Result<Seq<HashInputModel>, NameTableError> {
    then(
        fold_name(names, v.identifier),
        match v.payload {
            Some(r) => prepend(seq![raw1(1)], fold_reference_spec(names, r)),
            None => Ok(seq![raw1(0)]),
        },
    )
}

pub open spec fn fold_fields_spec(names: Seq<Seq<char>>, s: Seq<FieldModel>) -> Result<Seq<HashInputModel>, NameTableError>
    decreases s.len(),
{
    if s.len() == 0 {
        Ok(Seq::empty())
    } else {
        then(fold_field_spec(names, s[0]), fold_fields_spec(names, s.drop_first()))
    }
}

pub open spec fn fold_variants_spec(names: Seq<Seq<char>>, s: Seq<VariantModel>) -> Result<Seq<HashInputModel>, NameTableError>
    decreases s.len(),
{
    if s.len() == 0 {
        Ok(Seq::empty())
    } else {
        then(fold_variant_spec(names, s[0]), fold_variants_spec(names, s.drop_first()))
    }
}

/// The update that a name feeds before its resolution is known to succeed: its spelling
/// where it resolves, nothing where it fails.
pub open spec fn fed_name(names: Seq<Seq<char>>, id: Identifier) -> Seq<HashInputModel> {
    match spec_resolve(names, id) {
        Ok(s) => seq![HashInputModel::LengthPrefixed(spelling_bytes(s))],
        Err(_) => Seq::empty(),
    }
}

/// What folding a reference feeds the hasher, whether or not the fold succeeds: the nodes
/// before the first name that fails to resolve, that name's tag, and nothing after. Nothing
/// fed is taken back.
pub open spec fn fed_reference(names: Seq<Seq<char>>, r: ReferenceModel) -> Seq<HashInputModel>
    decreases r,
{
    match r {
        ReferenceModel::String => seq![raw1(0)],
        ReferenceModel::Integer => seq![raw1(1)],
        ReferenceModel::Boolean => seq![raw1(2)],
        ReferenceModel::Bytes => seq![raw1(3)],
        ReferenceModel::Plain(id) => seq![raw1(4)] + fed_name(names, id),
        ReferenceModel::SingleTypeApplication { projection, argument } => seq![raw2(5, projection)]
            + fed_reference(names, *argument),
        ReferenceModel::MultiTypeApplication { projection, arguments } => seq![
            raw2(6, projection),
            HashInputModel::Raw(le_bytes(arguments.len() as u64)),
        ] + fed_references(names, arguments),
        ReferenceModel::ValueApplication { projection, value } => seq![
            raw2(7, projection),
            HashInputModel::Raw(le_bytes(value)),
        ],
    }
}

/// What folding `s`'s references in order feeds: each one's feed, up to and including the
/// first that fails.
pub open spec fn fed_references(names: Seq<Seq<char>>, s: Seq<ReferenceModel>) -> Seq<HashInputModel>
    decreases s,
{
    if s.len() == 0 {
        Seq::empty()
    } else {
        fed_reference(names, s[0]) + if fold_reference_spec(names, s[0]) is Ok {
            fed_references(names, s.drop_first())
        } else {
            Seq::empty()
        }
    }
}

/// What folding a field feeds: nothing where its name fails to resolve, else its spelling
/// and its reference's feed.
pub open spec fn fed_field(names: Seq<Seq<char>>, f: FieldModel) -> Seq<HashInputModel> {
    if spec_resolve(names, f.identifier) is Ok {
        fed_name(names, f.identifier) + fed_reference(names, f.reference)
    } else {
        Seq::empty()
    }
}

/// What folding a variant feeds: nothing where its name fails to resolve, else its
/// spelling, then 1 and its payload's feed, or 0.
pub open spec fn fed_variant(names: Seq<Seq<char>>, v: VariantModel) -> Seq<HashInputModel> {
    if spec_resolve(names, v.identifier) is Ok {
        fed_name(names, v.identifier) + match v.payload {
            Some(r) => seq![raw1(1)] + fed_reference(names, r),
            None => seq![raw1(0)],
        }
    } else {
        Seq::empty()
    }
}

/// Where a reference folds, what it feeds is its fold.
pub proof fn lemma_fed_reference(names: Seq<Seq<char>>, r: ReferenceModel)
    ensures
        fold_reference_spec(names, r) is Ok ==> fed_reference(names, r)
            == fold_reference_spec(names, r)->Ok_0,
    decreases r,
{
    match r {
        ReferenceModel::SingleTypeApplication { projection, argument } => {
            lemma_fed_reference(names, *argument);
        },
        ReferenceModel::MultiTypeApplication { projection, arguments } => {
            lemma_fed_references(names, arguments);
        },
        _ => {},
    }
}

/// Where references fold, what they feed is their fold.
pub proof fn lemma_fed_references(names: Seq<Seq<char>>, s: Seq<ReferenceModel>)
    ensures
        fold_references_spec(names, s) is Ok ==> fed_references(names, s)
            == fold_references_spec(names, s)->Ok_0,
    decreases s,
{
    if s.len() > 0 {
        lemma_fed_reference(names, s[0]);
        lemma_fed_references(names, s.drop_first());
    }
}

pub open spec fn role_tag(role: DeclarationRole) -> u8 {
    match role {
        DeclarationRole::DataType => 0,
        DeclarationRole::InterfaceInput => 1,
        DeclarationRole::InterfaceOutput => 2,
    }
}

pub open spec fn visibility_tag(visibility: Visibility) -> u8 {
    match visibility {
        Visibility::Public => 0,
        Visibility::Private => 1,
    }
}

/// The structural fingerprint input of a declaration: role and visibility, then a tag per
/// kind of body and the body's fold, counts first.
pub open spec fn declared_shape_spec(names: Seq<Seq<char>>, d: DeclarationModel) -> Result<Seq<HashInputModel>, NameTableError> {
    prepend(
        seq![raw2(role_tag(d.role), visibility_tag(d.visibility))],
        match d.value {
            TypeModel::Newtype { reference, .. } => prepend(
                seq![raw1(0)],
                fold_reference_spec(names, reference),
            ),
            TypeModel::Struct { fields, .. } => prepend(
                seq![raw1(1), HashInputModel::Raw(le_bytes(fields.len() as u64))],
                fold_fields_spec(names, fields),
            ),
            TypeModel::Enumeration { variants, .. } => prepend(
                seq![raw1(2), HashInputModel::Raw(le_bytes(variants.len() as u64))],
                fold_variants_spec(names, variants),
            ),
        },
    )
}

/// The bind-or-mint key of a declaration: the bytes of its resolved name.
pub open spec fn declared_key_spec(names: Seq<Seq<char>>, d: DeclarationModel) -> Result<Seq<u8>, NameTableError> {
    match spec_resolve(names, d.value.identifier()) {
        Ok(s) => Ok(spelling_bytes(s)),
        Err(e) => Err(e),
    }
}

} // verus!
