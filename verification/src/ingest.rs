//! One parsed Ethos unit and the authority-bound path from it: compute one declared
//! identity per declaration, and build the canonical universe assignment from the
//! authority's reply.

use vstd::prelude::*;

use crate::declaration::{
    lemma_references_view,
    lemma_references_view_push,
    EncodedEnum,
    EncodedNewtype,
    EncodedStruct,
    FieldModel,
    ReferenceModel,
    VariantModel,
    DeclarationModel,
    DeclarationRole,
    Visibility,
    EncodedDeclaration,
    EncodedEthos,
    EncodedField,
    EncodedReference,
    EncodedType,
    EncodedVariant,
    references_view,
};
use crate::error::{AuthorityIngestError, IngestErrorModel};
use crate::identity::{BoundIdentities, DeclaredIdentity, DeclaredIdentityModel, DeclaredKey, DeclaredShape, IdentityIntent};
use crate::names::{spec_resolve, Identifier, IdentifierNamespace, Name, NameTable, NameTableError};
use crate::sort::sort_by_local;
use crate::universe::{
    assign_from,
    assign_one_spec,
    assign_spec,
    build_spec,
    canonical_from,
    canonical_spec,
    lemma_order_resolvable,
    locals_of,
    members_from,
    occupied_locals,
    seat_builtins,
    AssignedKind,
    AssignedMember,
    MemberModel,
    UniverseAssignment,
};
use crate::restamp::{
    restamp_declaration_spec,
    restamp_fields_table,
    restamp_identifier_table,
    restamp_reference_table,
    restamp_references_table,
    restamp_type_table,
    restamp_variants_table,
    restamp_fields_spec,
    restamp_identifier_spec,
    restamp_reference_spec,
    restamp_references_spec,
    restamp_type_spec,
    restamp_variants_spec,
    stamped_after,
};
use crate::shape::{
    declared_key_spec,
    declared_shape_spec,
    fold_field_spec,
    fold_fields_spec,
    fold_reference_spec,
    fold_references_spec,
    fold_variant_spec,
    fold_variants_spec,
    fed_field,
    fed_reference,
    fed_references,
    fed_variant,
    lemma_fed_reference,
    le_bytes,
    raw1,
    raw2,
    spelling_bytes,
    to_le_bytes,
    HashInputModel,
    ShapeTranscript,
};

verus! {

broadcast use vstd::std_specs::vec::group_vec_axioms;

/// One Ethos unit parsed from a single front end: its stringless declarations and the
/// name space they were parsed against.
#[derive(Debug)]
pub struct ParsedEthos {
    ethos: EncodedEthos,
    names: NameTable,
}

pub struct ParsedEthosModel {
    pub declarations: Seq<DeclarationModel>,
    pub names: Seq<Seq<char>>,
}

impl View for ParsedEthos {
    type V = ParsedEthosModel;

    closed spec fn view(&self) -> ParsedEthosModel {
        ParsedEthosModel { declarations: self.ethos@, names: self.names@ }
    }
}

/// `done` in front of what `rest` holds, or `rest`'s error.
pub open spec fn prefixed<T, E>(done: Seq<T>, rest: Result<Seq<T>, E>) -> Result<Seq<T>, E> {
    match rest {
        Ok(t) => Ok(done + t),
        Err(e) => Err(e),
    }
}

/// The identities of declarations `i..`, in parse order; the first failing declaration's
/// error.
pub open spec fn identities_from(names: Seq<Seq<char>>, decls: Seq<DeclarationModel>, i: int) -> Result<Seq<DeclaredIdentityModel>, IngestErrorModel>
    decreases decls.len() - i,
{
    if i >= decls.len() {
        Ok(Seq::empty())
    } else {
        match declared_key_spec(names, decls[i]) {
            Err(e) => Err(IngestErrorModel::Names(e)),
            Ok(key) => match declared_shape_spec(names, decls[i]) {
                Err(e) => Err(IngestErrorModel::Names(e)),
                Ok(shape) => match identities_from(names, decls, i + 1) {
                    Err(e) => Err(e),
                    Ok(rest) => Ok(
                        seq![DeclaredIdentityModel { key, shape, intent: IdentityIntent::MintOrBind }]
                            + rest,
                    ),
                },
            },
        }
    }
}

/// The bind-or-mint declaration set of `p`: one identity per declaration, in parse order.
pub open spec fn declared_identities_spec(p: ParsedEthosModel) -> Result<Seq<DeclaredIdentityModel>, IngestErrorModel> {
    identities_from(p.names, p.declarations, 0)
}

impl ParsedEthos {
    /// The unit made of `ethos` and the name table it was parsed against.
    pub fn from_parts(ethos: EncodedEthos, names: NameTable) -> (p: ParsedEthos)
        ensures
            p@ == (ParsedEthosModel { declarations: ethos@, names: names@ }),
    {
        ParsedEthos { ethos, names }
    }

    pub fn ethos(&self) -> (e: &EncodedEthos)
        ensures
            e@ == self@.declarations,
    {
        &self.ethos
    }

    pub fn names(&self) -> (n: &NameTable)
        ensures
            n@ == self@.names,
    {
        &self.names
    }

    fn fold_reference(&self, hasher: &mut ShapeTranscript, reference: &EncodedReference) -> (r: Result<(), NameTableError>)
        ensures
            match fold_reference_spec(self@.names, reference@) {
                Ok(t) => r is Ok && final(hasher)@ == old(hasher)@ + t,
                Err(e) => r == Err::<(), NameTableError>(e),
            },
            final(hasher)@ == old(hasher)@ + fed_reference(self@.names, reference@),
        decreases reference,
    {
        let ghost h0 = hasher@;
        match reference {
            EncodedReference::String => {
                let tag = [0u8];
                hasher.update_raw(&tag);
                assert(tag@ =~= seq![0u8]);
                assert(hasher@ =~= h0 + seq![raw1(0)]);
            },
            EncodedReference::Integer => {
                let tag = [1u8];
                hasher.update_raw(&tag);
                assert(tag@ =~= seq![1u8]);
                assert(hasher@ =~= h0 + seq![raw1(1)]);
            },
            EncodedReference::Boolean => {
                let tag = [2u8];
                hasher.update_raw(&tag);
                assert(tag@ =~= seq![2u8]);
                assert(hasher@ =~= h0 + seq![raw1(2)]);
            },
            EncodedReference::Bytes => {
                let tag = [3u8];
                hasher.update_raw(&tag);
                assert(tag@ =~= seq![3u8]);
                assert(hasher@ =~= h0 + seq![raw1(3)]);
            },
            EncodedReference::Plain(identifier) => {
                let tag = [4u8];
                hasher.update_raw(&tag);
                assert(tag@ =~= seq![4u8]);
                let name = match self.names.resolve(*identifier) {
                    Ok(name) => name,
                    Err(e) => {
                        assert(hasher@ =~= h0 + (seq![raw1(4)] + Seq::<HashInputModel>::empty()));
                        return Err(e);
                    },
                };
                let bytes = name.as_str().as_bytes();
                hasher.update_length_prefixed(bytes);
                assert(bytes@ == spelling_bytes(name@));
                assert(hasher@ =~= h0 + (seq![raw1(4)] + seq![
                    HashInputModel::LengthPrefixed(spelling_bytes(name@)),
                ]));
            },
            EncodedReference::SingleTypeApplication { projection, argument } => {
                let tag = [5u8, *projection];
                hasher.update_raw(&tag);
                assert(tag@ =~= seq![5u8, *projection]);
                let ghost h1 = hasher@;
                let r = self.fold_reference(hasher, argument);
                proof {
                    if let Ok(t) = fold_reference_spec(self@.names, argument@) {
                        assert(hasher@ =~= h0 + (seq![raw2(5, *projection)] + t));
                    }
                    assert(hasher@ =~= h0 + (seq![raw2(5, *projection)] + fed_reference(self@.names, argument@)));
                }
                return r;
            },
            EncodedReference::MultiTypeApplication { projection, arguments } => {
                let tag = [6u8, *projection];
                hasher.update_raw(&tag);
                assert(tag@ =~= seq![6u8, *projection]);
                let count = to_le_bytes(arguments.len() as u64);
                hasher.update_raw(&count);
                let ghost args = references_view(arguments@);
                let ghost h1 = hasher@;
                let ghost head = seq![
                    raw2(6, *projection),
                    HashInputModel::Raw(le_bytes(arguments@.len() as u64)),
                ];
                assert(h1 =~= h0 + head);
                let ghost mut done = Seq::<HashInputModel>::empty();
                proof {
                    lemma_references_view(arguments@);
                    assert(args.skip(0) =~= args);
                    assert(hasher@ =~= h1 + done);
                    match fold_references_spec(self@.names, args) {
                        Ok(x) => {
                            assert(done + x =~= x);
                        },
                        Err(_) => {},
                    }
                }
                let mut i: usize = 0;
                while i < arguments.len()
                    invariant
                        0 <= i <= arguments.len(),
                        *reference == (EncodedReference::MultiTypeApplication {
                            projection: *projection,
                            arguments: *arguments,
                        }),
                        args == references_view(arguments@),
                        args.len() == arguments@.len(),
                        forall|k: int| 0 <= k < arguments@.len() ==> #[trigger] args[k] == arguments@[k]@,
                        hasher@ == h1 + done,
                        h0 == old(hasher)@,
                        h1 == h0 + head,
                        head == seq![
                            raw2(6, *projection),
                            HashInputModel::Raw(le_bytes(arguments@.len() as u64)),
                        ],
                        fold_references_spec(self@.names, args) == prefixed(
                            done,
                            fold_references_spec(self@.names, args.skip(i as int)),
                        ),
                        fed_references(self@.names, args) == done + fed_references(
                            self@.names,
                            args.skip(i as int),
                        ),
                    decreases arguments.len() - i,
                {
                    let ghost rest = args.skip(i as int);
                    assert(rest[0] == arguments@[i as int]@);
                    assert(rest.drop_first() =~= args.skip(i + 1));
                    proof {
                        vstd::std_specs::vec::axiom_vec_index_decreases(*arguments, i as int);
                        assert(decreases_to!(*arguments => arguments[i as int]));
                    }
                    let ghost hi = hasher@;
                    match self.fold_reference(hasher, &arguments[i]) {
                        Ok(()) => {},
                        Err(e) => {
                            assert(fold_references_spec(self@.names, rest) == Err::<Seq<HashInputModel>, NameTableError>(e));
                            proof {
                                let f = fed_reference(self@.names, rest[0]);
                                assert(fed_references(self@.names, rest) =~= f);
                                assert(hasher@ =~= h0 + (head + (done + f)));
                                assert(fed_references(self@.names, args) == done + f);
                                assert(fed_reference(self@.names, reference@) == head + fed_references(self@.names, args));
                                assert(hasher@ == h0 + fed_reference(self@.names, reference@));
                            }
                            return Err(e);
                        },
                    }
                    proof {
                        let t = fold_reference_spec(self@.names, arguments@[i as int]@)->Ok_0;
                        lemma_fed_reference(self@.names, rest[0]);
                        assert(fed_references(self@.names, rest) == t + fed_references(self@.names, args.skip(i + 1)));
                        assert(done + (t + fed_references(self@.names, args.skip(i + 1))) =~= (done + t) + fed_references(self@.names, args.skip(i + 1)));
                        assert(hasher@ =~= h1 + (done + t));
                        match fold_references_spec(self@.names, args.skip(i + 1)) {
                            Ok(x) => {
                                assert(done + (t + x) =~= (done + t) + x);
                            },
                            Err(_) => {},
                        }
                        done = done + t;
                    }
                    i = i + 1;
                }
                proof {
                    assert(args.skip(i as int).len() == 0);
                    assert(done + Seq::<HashInputModel>::empty() =~= done);
                    assert(fed_references(self@.names, args) == done);
                    assert(hasher@ =~= h0 + (seq![
                        raw2(6, *projection),
                        HashInputModel::Raw(le_bytes(arguments@.len() as u64)),
                    ] + done));
                }
            },
            EncodedReference::ValueApplication { projection, value } => {
                let tag = [7u8, *projection];
                hasher.update_raw(&tag);
                assert(tag@ =~= seq![7u8, *projection]);
                let bytes = to_le_bytes(*value);
                hasher.update_raw(&bytes);
                assert(hasher@ =~= h0 + seq![
                    raw2(7, *projection),
                    HashInputModel::Raw(le_bytes(*value)),
                ]);
            },
        }
        Ok(())
    }

    fn fold_field(&self, hasher: &mut ShapeTranscript, field: &EncodedField) -> (r: Result<(), NameTableError>)
        ensures
            match fold_field_spec(self@.names, field@) {
                Ok(t) => r is Ok && final(hasher)@ == old(hasher)@ + t,
                Err(e) => r == Err::<(), NameTableError>(e),
            },
            final(hasher)@ == old(hasher)@ + fed_field(self@.names, field@),
    {
        let ghost h0 = hasher@;
        let name = match self.names.resolve(field.identifier) {
            Ok(name) => name,
            Err(e) => {
                assert(hasher@ =~= h0 + fed_field(self@.names, field@));
                return Err(e);
            },
        };
        let bytes = name.as_str().as_bytes();
        hasher.update_length_prefixed(bytes);
        let ghost h1 = hasher@;
        let r = self.fold_reference(hasher, &field.reference);
        proof {
            if let Ok(t) = fold_reference_spec(self@.names, field.reference@) {
                assert(hasher@ =~= h0 + (seq![HashInputModel::LengthPrefixed(spelling_bytes(name@))] + t));
            }
            assert(hasher@ =~= h0 + (seq![HashInputModel::LengthPrefixed(spelling_bytes(name@))]
                + fed_reference(self@.names, field.reference@)));
        }
        r
    }

    fn fold_variant(&self, hasher: &mut ShapeTranscript, variant: &EncodedVariant) -> (r: Result<(), NameTableError>)
        ensures
            match fold_variant_spec(self@.names, variant@) {
                Ok(t) => r is Ok && final(hasher)@ == old(hasher)@ + t,
                Err(e) => r == Err::<(), NameTableError>(e),
            },
            final(hasher)@ == old(hasher)@ + fed_variant(self@.names, variant@),
    {
        let ghost h0 = hasher@;
        let name = match self.names.resolve(variant.identifier) {
            Ok(name) => name,
            Err(e) => {
                assert(hasher@ =~= h0 + fed_variant(self@.names, variant@));
                return Err(e);
            },
        };
        let bytes = name.as_str().as_bytes();
        hasher.update_length_prefixed(bytes);
        let ghost h1 = hasher@;
        let ghost n = seq![HashInputModel::LengthPrefixed(spelling_bytes(name@))];
        assert(h1 =~= h0 + n);
        match &variant.payload {
            Some(reference) => {
                let tag = [1u8];
                hasher.update_raw(&tag);
                assert(tag@ =~= seq![1u8]);
                let r = self.fold_reference(hasher, reference);
                proof {
                    if let Ok(t) = fold_reference_spec(self@.names, reference@) {
                        assert(hasher@ =~= h0 + (n + (seq![raw1(1)] + t)));
                    }
                    assert(hasher@ =~= h0 + (n + (seq![raw1(1)] + fed_reference(self@.names, reference@))));
                }
                r
            },
            None => {
                let tag = [0u8];
                hasher.update_raw(&tag);
                assert(tag@ =~= seq![0u8]);
                assert(hasher@ =~= h0 + (n + seq![raw1(0)]));
                Ok(())
            },
        }
    }

    /// Folds `fields` in order.
    fn fold_fields(&self, hasher: &mut ShapeTranscript, fields: &Vec<EncodedField>) -> (r: Result<(), NameTableError>)
        ensures
            match fold_fields_spec(self@.names, fields@.map_values(|f: EncodedField| f@)) {
                Ok(t) => r is Ok && final(hasher)@ == old(hasher)@ + t,
                Err(e) => r == Err::<(), NameTableError>(e),
            },
    {
        let ghost fs = fields@.map_values(|f: EncodedField| f@);
        let ghost h1 = hasher@;
        let ghost mut done = Seq::<HashInputModel>::empty();
        proof {
            assert(fs.skip(0) =~= fs);
            assert(hasher@ =~= h1 + done);
            if let Ok(x) = fold_fields_spec(self@.names, fs) {
                assert(done + x =~= x);
            }
        }
        let mut i: usize = 0;
        while i < fields.len()
            invariant
                0 <= i <= fields.len(),
                fs == fields@.map_values(|f: EncodedField| f@),
                hasher@ == h1 + done,
                fold_fields_spec(self@.names, fs) == prefixed(
                    done,
                    fold_fields_spec(self@.names, fs.skip(i as int)),
                ),
            decreases fields.len() - i,
        {
            let ghost rest = fs.skip(i as int);
            assert(rest[0] == fields@[i as int]@);
            assert(rest.drop_first() =~= fs.skip(i + 1));
            match self.fold_field(hasher, &fields[i]) {
                Ok(()) => {},
                Err(e) => {
                    assert(fold_fields_spec(self@.names, rest) == Err::<Seq<HashInputModel>, NameTableError>(e));
                    return Err(e);
                },
            }
            proof {
                let t = fold_field_spec(self@.names, fields@[i as int]@)->Ok_0;
                assert(hasher@ =~= h1 + (done + t));
                if let Ok(x) = fold_fields_spec(self@.names, fs.skip(i + 1)) {
                    assert(done + (t + x) =~= (done + t) + x);
                }
                done = done + t;
            }
            i = i + 1;
        }
        proof {
            assert(fs.skip(i as int).len() == 0);
            assert(done + Seq::<HashInputModel>::empty() =~= done);
        }
        Ok(())
    }

    /// Folds `variants` in order.
    fn fold_variants(&self, hasher: &mut ShapeTranscript, variants: &Vec<EncodedVariant>) -> (r: Result<(), NameTableError>)
        ensures
            match fold_variants_spec(self@.names, variants@.map_values(|v: EncodedVariant| v@)) {
                Ok(t) => r is Ok && final(hasher)@ == old(hasher)@ + t,
                Err(e) => r == Err::<(), NameTableError>(e),
            },
    {
        let ghost vs = variants@.map_values(|v: EncodedVariant| v@);
        let ghost h1 = hasher@;
        let ghost mut done = Seq::<HashInputModel>::empty();
        proof {
            assert(vs.skip(0) =~= vs);
            assert(hasher@ =~= h1 + done);
            if let Ok(x) = fold_variants_spec(self@.names, vs) {
                assert(done + x =~= x);
            }
        }
        let mut i: usize = 0;
        while i < variants.len()
            invariant
                0 <= i <= variants.len(),
                vs == variants@.map_values(|v: EncodedVariant| v@),
                hasher@ == h1 + done,
                fold_variants_spec(self@.names, vs) == prefixed(
                    done,
                    fold_variants_spec(self@.names, vs.skip(i as int)),
                ),
            decreases variants.len() - i,
        {
            let ghost rest = vs.skip(i as int);
            assert(rest[0] == variants@[i as int]@);
            assert(rest.drop_first() =~= vs.skip(i + 1));
            match self.fold_variant(hasher, &variants[i]) {
                Ok(()) => {},
                Err(e) => {
                    assert(fold_variants_spec(self@.names, rest) == Err::<Seq<HashInputModel>, NameTableError>(e));
                    return Err(e);
                },
            }
            proof {
                let t = fold_variant_spec(self@.names, variants@[i as int]@)->Ok_0;
                assert(hasher@ =~= h1 + (done + t));
                if let Ok(x) = fold_variants_spec(self@.names, vs.skip(i + 1)) {
                    assert(done + (t + x) =~= (done + t) + x);
                }
                done = done + t;
            }
            i = i + 1;
        }
        proof {
            assert(vs.skip(i as int).len() == 0);
            assert(done + Seq::<HashInputModel>::empty() =~= done);
        }
        Ok(())
    }

    /// The structural fingerprint of one declaration, resolved through the name space so it
    /// is a function of the declared structure rather than of raw identifiers.
    fn declared_shape(&self, declaration: &EncodedDeclaration) -> (r: Result<DeclaredShape, AuthorityIngestError>)
        ensures
            match declared_shape_spec(self@.names, declaration@) {
                Ok(t) => r matches Ok(shape) && shape@ == t,
                Err(e) => r matches Err(x) && x@ == IngestErrorModel::Names(e),
            },
    {
        let role_tag: u8 = match declaration.role {
            DeclarationRole::DataType => 0,
            DeclarationRole::InterfaceInput => 1,
            DeclarationRole::InterfaceOutput => 2,
        };
        let visibility_tag: u8 = match declaration.visibility {
            Visibility::Public => 0,
            Visibility::Private => 1,
        };
        let mut hasher = ShapeTranscript::unprimed();
        let head = [role_tag, visibility_tag];
        hasher.update_raw(&head);
        assert(head@ =~= seq![role_tag, visibility_tag]);
        let ghost h0 = hasher@;
        assert(h0 =~= seq![raw2(role_tag, visibility_tag)]);
        match &declaration.value {
            EncodedType::Newtype(newtype) => {
                let tag = [0u8];
                hasher.update_raw(&tag);
                assert(tag@ =~= seq![0u8]);
                match self.fold_reference(&mut hasher, &newtype.reference) {
                    Ok(()) => {},
                    Err(e) => {
                        return Err(AuthorityIngestError::Names(e));
                    },
                }
                proof {
                    let t = fold_reference_spec(self@.names, newtype.reference@)->Ok_0;
                    assert(hasher@ =~= h0 + (seq![raw1(0)] + t));
                }
            },
            EncodedType::Struct(structure) => {
                let tag = [1u8];
                hasher.update_raw(&tag);
                assert(tag@ =~= seq![1u8]);
                let count = to_le_bytes(structure.fields.len() as u64);
                hasher.update_raw(&count);
                let ghost h1 = hasher@;
                match self.fold_fields(&mut hasher, &structure.fields) {
                    Ok(()) => {},
                    Err(e) => {
                        return Err(AuthorityIngestError::Names(e));
                    },
                }
                proof {
                    let fs = structure.fields@.map_values(|f: EncodedField| f@);
                    let t = fold_fields_spec(self@.names, fs)->Ok_0;
                    assert(hasher@ =~= h0 + (seq![
                        raw1(1),
                        HashInputModel::Raw(le_bytes(fs.len() as u64)),
                    ] + t));
                }
            },
            EncodedType::Enumeration(enumeration) => {
                let tag = [2u8];
                hasher.update_raw(&tag);
                assert(tag@ =~= seq![2u8]);
                let count = to_le_bytes(enumeration.variants.len() as u64);
                hasher.update_raw(&count);
                let ghost h1 = hasher@;
                match self.fold_variants(&mut hasher, &enumeration.variants) {
                    Ok(()) => {},
                    Err(e) => {
                        return Err(AuthorityIngestError::Names(e));
                    },
                }
                proof {
                    let vs = enumeration.variants@.map_values(|v: EncodedVariant| v@);
                    let t = fold_variants_spec(self@.names, vs)->Ok_0;
                    assert(hasher@ =~= h0 + (seq![
                        raw1(2),
                        HashInputModel::Raw(le_bytes(vs.len() as u64)),
                    ] + t));
                }
            },
        }
        let shape = DeclaredShape(hasher.inputs);
        assert(shape@ == hasher@);
        Ok(shape)
    }

    /// The declared key of one declaration: the bytes of its resolved name.
    fn declared_key(&self, declaration: &EncodedDeclaration) -> (r: Result<DeclaredKey, AuthorityIngestError>)
        ensures
            match declared_key_spec(self@.names, declaration@) {
                Ok(k) => r matches Ok(key) && key@ == k,
                Err(e) => r matches Err(x) && x@ == IngestErrorModel::Names(e),
            },
    {
        let name = match self.names.resolve(declaration.identifier()) {
            Ok(name) => name,
            Err(e) => {
                return Err(AuthorityIngestError::Names(e));
            },
        };
        let bytes = vstd::slice::slice_to_vec(name.as_str().as_bytes());
        Ok(DeclaredKey(bytes))
    }

    /// The bind-or-mint declaration set for this unit: one identity per declaration, keyed
    /// by resolved declared name, fingerprinted by resolved structural shape, all
    /// `MintOrBind`, in parse order.
    pub fn declared_identities(&self) -> (r: Result<Vec<DeclaredIdentity>, AuthorityIngestError>)
        ensures
            match declared_identities_spec(self@) {
                Ok(ids) => r matches Ok(v) && v@.map_values(|d: DeclaredIdentity| d@) == ids,
                Err(e) => r matches Err(x) && x@ == e,
            },
    {
        let decls = &self.ethos.declarations;
        let ghost ds = self@.declarations;
        let ghost n = self@.names;
        let mut out: Vec<DeclaredIdentity> = Vec::new();
        let mut i: usize = 0;
        proof {
            assert(out@.map_values(|d: DeclaredIdentity| d@) =~= Seq::<DeclaredIdentityModel>::empty());
            if let Ok(x) = identities_from(n, ds, 0) {
                assert(Seq::<DeclaredIdentityModel>::empty() + x =~= x);
            }
        }
        while i < decls.len()
            invariant
                0 <= i <= decls.len(),
                ds == self@.declarations,
                n == self@.names,
                ds == decls@.map_values(|d: EncodedDeclaration| d@),
                declared_identities_spec(self@) == prefixed(
                    out@.map_values(|d: DeclaredIdentity| d@),
                    identities_from(n, ds, i as int),
                ),
            decreases decls.len() - i,
        {
            assert(ds[i as int] == decls@[i as int]@);
            let key = match self.declared_key(&decls[i]) {
                Ok(key) => key,
                Err(e) => {
                    return Err(e);
                },
            };
            let shape = match self.declared_shape(&decls[i]) {
                Ok(shape) => shape,
                Err(e) => {
                    return Err(e);
                },
            };
            let ghost before = out@.map_values(|d: DeclaredIdentity| d@);
            let identity = DeclaredIdentity { key, shape, intent: IdentityIntent::MintOrBind };
            out.push(identity);
            proof {
                let m = identity@;
                assert(out@.map_values(|d: DeclaredIdentity| d@) =~= before + seq![m]);
                if let Ok(x) = identities_from(n, ds, i + 1) {
                    assert(before + (seq![m] + x) =~= (before + seq![m]) + x);
                }
            }
            i = i + 1;
        }
        proof {
            let done = out@.map_values(|d: DeclaredIdentity| d@);
            assert(done + Seq::<DeclaredIdentityModel>::empty() =~= done);
        }
        Ok(out)
    }

    fn restamp_identifier(&self, identifier: Identifier, names: &mut NameTable) -> (r: Result<Identifier, AuthorityIngestError>)
        ensures
            final(names)@ == restamp_identifier_table(self@.names, old(names)@, identifier),
            match restamp_identifier_spec(self@.names, old(names)@, identifier) {
                Ok((id, d)) => r == Ok::<Identifier, AuthorityIngestError>(id) && final(names)@ == d,
                Err(e) => r matches Err(x) && x@ == IngestErrorModel::Names(e),
            },
    {
        let spelling = match self.names.resolve(identifier) {
            Ok(name) => Name { spelling: name.spelling.clone() },
            Err(e) => {
                return Err(AuthorityIngestError::Names(e));
            },
        };
        Ok(names.intern(spelling))
    }

    fn restamp_reference(&self, reference: &EncodedReference, names: &mut NameTable) -> (r: Result<EncodedReference, AuthorityIngestError>)
        ensures
            final(names)@ == restamp_reference_table(self@.names, old(names)@, reference@),
            match restamp_reference_spec(self@.names, old(names)@, reference@) {
                Ok((m, d)) => r matches Ok(x) && x@ == m && final(names)@ == d,
                Err(e) => r matches Err(x) && x@ == IngestErrorModel::Names(e),
            },
        decreases reference,
    {
        match reference {
            EncodedReference::String => Ok(EncodedReference::String),
            EncodedReference::Integer => Ok(EncodedReference::Integer),
            EncodedReference::Boolean => Ok(EncodedReference::Boolean),
            EncodedReference::Bytes => Ok(EncodedReference::Bytes),
            EncodedReference::Plain(identifier) => {
                match self.restamp_identifier(*identifier, names) {
                    Ok(id) => Ok(EncodedReference::Plain(id)),
                    Err(e) => Err(e),
                }
            },
            EncodedReference::SingleTypeApplication { projection, argument } => {
                match self.restamp_reference(argument, names) {
                    Ok(a) => Ok(
                        EncodedReference::SingleTypeApplication {
                            projection: *projection,
                            argument: Box::new(a),
                        },
                    ),
                    Err(e) => Err(e),
                }
            },
            EncodedReference::MultiTypeApplication { projection, arguments } => {
                let ghost args = references_view(arguments@);
                let ghost d0 = names@;
                let mut out: Vec<EncodedReference> = Vec::new();
                proof {
                    lemma_references_view(arguments@);
                    assert(args.skip(0) =~= args);
                    assert(references_view(out@) =~= Seq::<ReferenceModel>::empty());
                    if let Ok((x, d)) = restamp_references_spec(self@.names, d0, args) {
                        assert(Seq::<ReferenceModel>::empty() + x =~= x);
                    }
                }
                let mut i: usize = 0;
                while i < arguments.len()
                    invariant
                        0 <= i <= arguments.len(),
                        *reference == (EncodedReference::MultiTypeApplication {
                            projection: *projection,
                            arguments: *arguments,
                        }),
                        args == references_view(arguments@),
                        args.len() == arguments@.len(),
                        forall|k: int| 0 <= k < arguments@.len() ==> #[trigger] args[k] == arguments@[k]@,
                        d0 == old(names)@,
                        restamp_references_spec(self@.names, d0, args) == stamped_after(
                            references_view(out@),
                            restamp_references_spec(self@.names, names@, args.skip(i as int)),
                        ),
                        restamp_references_table(self@.names, d0, args) == restamp_references_table(
                            self@.names,
                            names@,
                            args.skip(i as int),
                        ),
                    decreases arguments.len() - i,
                {
                    let ghost rest = args.skip(i as int);
                    let ghost di = names@;
                    assert(rest[0] == arguments@[i as int]@);
                    assert(rest.drop_first() =~= args.skip(i + 1));
                    proof {
                        vstd::std_specs::vec::axiom_vec_index_decreases(*arguments, i as int);
                    }
                    let a = match self.restamp_reference(&arguments[i], names) {
                        Ok(a) => a,
                        Err(e) => {
                            return Err(e);
                        },
                    };
                    let ghost before = references_view(out@);
                    let ghost out_before = out@;
                    let ghost ga = a;
                    out.push(a);
                    proof {
                        lemma_references_view_push(out_before, ga);
                        assert(out@ == out_before.push(ga));
                        assert(references_view(out@) == before.push(ga@));
                        if let Ok((x, d)) = restamp_references_spec(self@.names, names@, args.skip(i + 1)) {
                            assert(before + (seq![ga@] + x) =~= before.push(ga@) + x);
                        }
                    }
                    i = i + 1;
                }
                proof {
                    assert(args.skip(i as int).len() == 0);
                    assert(references_view(out@) + Seq::<ReferenceModel>::empty() =~= references_view(out@));
                }
                Ok(EncodedReference::MultiTypeApplication { projection: *projection, arguments: out })
            },
            EncodedReference::ValueApplication { projection, value } => Ok(
                EncodedReference::ValueApplication { projection: *projection, value: *value },
            ),
        }
    }

    /// Re-stamps `fields` in order: each field's name, then its reference.
    fn restamp_fields(&self, fields: &Vec<EncodedField>, names: &mut NameTable) -> (r: Result<Vec<EncodedField>, AuthorityIngestError>)
        ensures
            final(names)@ == restamp_fields_table(self@.names, old(names)@, fields@.map_values(|f: EncodedField| f@)),
            match restamp_fields_spec(self@.names, old(names)@, fields@.map_values(|f: EncodedField| f@)) {
                Ok((m, d)) => r matches Ok(v) && v@.map_values(|f: EncodedField| f@) == m && final(names)@ == d,
                Err(e) => r matches Err(x) && x@ == IngestErrorModel::Names(e),
            },
    {
        let ghost fs = fields@.map_values(|f: EncodedField| f@);
        let ghost d0 = names@;
        let mut out: Vec<EncodedField> = Vec::new();
        proof {
            assert(fs.skip(0) =~= fs);
            assert(out@.map_values(|f: EncodedField| f@) =~= Seq::<FieldModel>::empty());
            if let Ok((x, d)) = restamp_fields_spec(self@.names, d0, fs) {
                assert(Seq::<FieldModel>::empty() + x =~= x);
            }
        }
        let mut i: usize = 0;
        while i < fields.len()
            invariant
                0 <= i <= fields.len(),
                fs == fields@.map_values(|f: EncodedField| f@),
                d0 == old(names)@,
                restamp_fields_table(self@.names, d0, fs) == restamp_fields_table(
                    self@.names,
                    names@,
                    fs.skip(i as int),
                ),
                restamp_fields_spec(self@.names, d0, fs) == stamped_after(
                    out@.map_values(|f: EncodedField| f@),
                    restamp_fields_spec(self@.names, names@, fs.skip(i as int)),
                ),
            decreases fields.len() - i,
        {
            let ghost rest = fs.skip(i as int);
            assert(rest[0] == fields@[i as int]@);
            assert(rest.drop_first() =~= fs.skip(i + 1));
            let identifier = match self.restamp_identifier(fields[i].identifier, names) {
                Ok(id) => id,
                Err(e) => {
                    return Err(e);
                },
            };
            let reference = match self.restamp_reference(&fields[i].reference, names) {
                Ok(r) => r,
                Err(e) => {
                    return Err(e);
                },
            };
            let ghost before = out@.map_values(|f: EncodedField| f@);
            let field = EncodedField { identifier, reference };
            let ghost gf = field@;
            out.push(field);
            proof {
                assert(out@.map_values(|f: EncodedField| f@) =~= before.push(gf));
                if let Ok((x, d)) = restamp_fields_spec(self@.names, names@, fs.skip(i + 1)) {
                    assert(before + (seq![gf] + x) =~= before.push(gf) + x);
                }
            }
            i = i + 1;
        }
        proof {
            assert(fs.skip(i as int).len() == 0);
            let done = out@.map_values(|f: EncodedField| f@);
            assert(done + Seq::<FieldModel>::empty() =~= done);
        }
        Ok(out)
    }

    /// Re-stamps `variants` in order: each variant's name, then its payload.
    fn restamp_variants(&self, variants: &Vec<EncodedVariant>, names: &mut NameTable) -> (r: Result<Vec<EncodedVariant>, AuthorityIngestError>)
        ensures
            final(names)@ == restamp_variants_table(self@.names, old(names)@, variants@.map_values(|v: EncodedVariant| v@)),
            match restamp_variants_spec(self@.names, old(names)@, variants@.map_values(|v: EncodedVariant| v@)) {
                Ok((m, d)) => r matches Ok(v) && v@.map_values(|x: EncodedVariant| x@) == m && final(names)@ == d,
                Err(e) => r matches Err(x) && x@ == IngestErrorModel::Names(e),
            },
    {
        let ghost vs = variants@.map_values(|v: EncodedVariant| v@);
        let ghost d0 = names@;
        let mut out: Vec<EncodedVariant> = Vec::new();
        proof {
            assert(vs.skip(0) =~= vs);
            assert(out@.map_values(|v: EncodedVariant| v@) =~= Seq::<VariantModel>::empty());
            if let Ok((x, d)) = restamp_variants_spec(self@.names, d0, vs) {
                assert(Seq::<VariantModel>::empty() + x =~= x);
            }
        }
        let mut i: usize = 0;
        while i < variants.len()
            invariant
                0 <= i <= variants.len(),
                vs == variants@.map_values(|v: EncodedVariant| v@),
                d0 == old(names)@,
                restamp_variants_table(self@.names, d0, vs) == restamp_variants_table(
                    self@.names,
                    names@,
                    vs.skip(i as int),
                ),
                restamp_variants_spec(self@.names, d0, vs) == stamped_after(
                    out@.map_values(|v: EncodedVariant| v@),
                    restamp_variants_spec(self@.names, names@, vs.skip(i as int)),
                ),
            decreases variants.len() - i,
        {
            let ghost rest = vs.skip(i as int);
            assert(rest[0] == variants@[i as int]@);
            assert(rest.drop_first() =~= vs.skip(i + 1));
            let identifier = match self.restamp_identifier(variants[i].identifier, names) {
                Ok(id) => id,
                Err(e) => {
                    return Err(e);
                },
            };
            let payload = match &variants[i].payload {
                Some(reference) => match self.restamp_reference(reference, names) {
                    Ok(r) => Some(r),
                    Err(e) => {
                        return Err(e);
                    },
                },
                None => None,
            };
            let ghost before = out@.map_values(|v: EncodedVariant| v@);
            let variant = EncodedVariant { identifier, payload };
            let ghost gv = variant@;
            out.push(variant);
            proof {
                assert(out@.map_values(|v: EncodedVariant| v@) =~= before.push(gv));
                if let Ok((x, d)) = restamp_variants_spec(self@.names, names@, vs.skip(i + 1)) {
                    assert(before + (seq![gv] + x) =~= before.push(gv) + x);
                }
            }
            i = i + 1;
        }
        proof {
            assert(vs.skip(i as int).len() == 0);
            let done = out@.map_values(|v: EncodedVariant| v@);
            assert(done + Seq::<VariantModel>::empty() =~= done);
        }
        Ok(out)
    }

    fn restamp_type(&self, value: &EncodedType, identifier: Identifier, names: &mut NameTable) -> (r: Result<EncodedType, AuthorityIngestError>)
        ensures
            final(names)@ == restamp_type_table(self@.names, old(names)@, value@),
            match restamp_type_spec(self@.names, old(names)@, value@, identifier) {
                Ok((m, d)) => r matches Ok(x) && x@ == m && final(names)@ == d,
                Err(e) => r matches Err(x) && x@ == IngestErrorModel::Names(e),
            },
    {
        match value {
            EncodedType::Newtype(newtype) => {
                match self.restamp_reference(&newtype.reference, names) {
                    Ok(reference) => Ok(EncodedType::Newtype(EncodedNewtype { identifier, reference })),
                    Err(e) => Err(e),
                }
            },
            EncodedType::Struct(structure) => {
                match self.restamp_fields(&structure.fields, names) {
                    Ok(fields) => Ok(EncodedType::Struct(EncodedStruct { identifier, fields })),
                    Err(e) => Err(e),
                }
            },
            EncodedType::Enumeration(enumeration) => {
                match self.restamp_variants(&enumeration.variants, names) {
                    Ok(variants) => Ok(EncodedType::Enumeration(EncodedEnum { identifier, variants })),
                    Err(e) => Err(e),
                }
            },
        }
    }

    fn restamp_declaration(&self, declaration: &EncodedDeclaration, identifier: Identifier, names: &mut NameTable) -> (r: Result<EncodedDeclaration, AuthorityIngestError>)
        ensures
            final(names)@ == restamp_type_table(self@.names, old(names)@, declaration@.value),
            match restamp_declaration_spec(self@.names, old(names)@, declaration@, identifier) {
                Ok((m, d)) => r matches Ok(x) && x@ == m && final(names)@ == d,
                Err(e) => r matches Err(x) && x@ == IngestErrorModel::Names(e),
            },
    {
        let value = match self.restamp_type(&declaration.value, identifier, names) {
            Ok(value) => value,
            Err(e) => {
                return Err(e);
            },
        };
        match declaration.role {
            DeclarationRole::DataType => Ok(EncodedDeclaration::new(declaration.visibility, value)),
            DeclarationRole::InterfaceInput | DeclarationRole::InterfaceOutput => Ok(
                EncodedDeclaration::interface(declaration.role, value),
            ),
        }
    }

    /// Each declaration's local, paired with its position, in parse order.
    fn assign_locals(&self, bound: &BoundIdentities) -> (r: Result<Vec<(u16, usize)>, AuthorityIngestError>)
        ensures
            match assign_spec(self@.names, self@.declarations, bound@) {
                Ok(p) => r matches Ok(v) && v@ == p,
                Err(e) => r matches Err(x) && x@ == e,
            },
    {
        let decls = &self.ethos.declarations;
        let ghost ds = self@.declarations;
        let ghost n = self@.names;
        let ghost b = bound@;
        let mut assigned: Vec<(u16, usize)> = Vec::new();
        let mut i: usize = 0;
        proof {
            if let Ok(x) = assign_from(n, ds, b, 0) {
                assert(assigned@ + x =~= x);
            }
        }
        while i < decls.len()
            invariant
                0 <= i <= decls.len(),
                ds == self@.declarations,
                n == self@.names,
                b == bound@,
                ds == decls@.map_values(|d: EncodedDeclaration| d@),
                assign_spec(n, ds, b) == prefixed(assigned@, assign_from(n, ds, b, i as int)),
            decreases decls.len() - i,
        {
            assert(ds[i as int] == decls@[i as int]@);
            let key = match self.declared_key(&decls[i]) {
                Ok(key) => key,
                Err(e) => {
                    return Err(e);
                },
            };
            let identity = match bound.find(&key) {
                Some(identity) => identity,
                None => {
                    return Err(AuthorityIngestError::UnboundDeclaration(key.0));
                },
            };
            if identity > 0xFFFF {
                return Err(AuthorityIngestError::AssignedIdentityOutOfRange(identity));
            }
            let ghost before = assigned@;
            assigned.push((identity as u16, i));
            proof {
                if let Ok(x) = assign_from(n, ds, b, i + 1) {
                    assert(before + (seq![(identity as u16, i)] + x) =~= assigned@ + x);
                }
            }
            i = i + 1;
        }
        proof {
            assert(assigned@ + Seq::<(u16, usize)>::empty() =~= assigned@);
        }
        Ok(assigned)
    }

    /// The declarations' names at `order`, interned in that order in a fresh table.
    fn canonical_names(&self, order: &Vec<(u16, usize)>) -> (r: (Vec<Identifier>, NameTable))
        requires
            forall|j: int| 0 <= j < order@.len() ==> (#[trigger] order@[j]).1 < self@.declarations.len()
                && spec_resolve(self@.names, self@.declarations[order@[j].1 as int].value.identifier()) is Ok,
        ensures
            r.0@.len() == order@.len(),
            (r.0@, r.1@) == canonical_spec(self@.names, self@.declarations, order@),
    {
        let decls = &self.ethos.declarations;
        let ghost ds = self@.declarations;
        let ghost n = self@.names;
        let ghost ov = order@;
        let mut names = NameTable::new(IdentifierNamespace::Schema);
        let mut canonical: Vec<Identifier> = Vec::new();
        let mut k: usize = 0;
        proof {
            let c = canonical_from(n, ds, ov, 0, names@);
            assert(canonical@ + c.0 =~= c.0);
        }
        while k < order.len()
            invariant
                0 <= k <= order.len(),
                ov == order@,
                ds == self@.declarations,
                n == self@.names,
                ds == decls@.map_values(|d: EncodedDeclaration| d@),
                forall|j: int| 0 <= j < ov.len() ==> (#[trigger] ov[j]).1 < ds.len()
                    && spec_resolve(n, ds[ov[j].1 as int].value.identifier()) is Ok,
                canonical@.len() == k,
                canonical_spec(n, ds, ov) == (
                    canonical@ + canonical_from(n, ds, ov, k as int, names@).0,
                    canonical_from(n, ds, ov, k as int, names@).1,
                ),
            decreases order.len() - k,
        {
            let position = order[k].1;
            assert(ov[k as int].1 < ds.len());
            assert(ds[position as int] == decls@[position as int]@);
            let spelling = match self.names.resolve(decls[position].identifier()) {
                Ok(name) => Name { spelling: name.spelling.clone() },
                Err(e) => {
                    assert(false);
                    Name { spelling: String::new() }
                },
            };
            let identifier = names.intern(spelling);
            let ghost before = canonical@;
            canonical.push(identifier);
            proof {
                let next = canonical_from(n, ds, ov, k + 1, names@);
                assert(before + (seq![identifier] + next.0) =~= canonical@ + next.0);
            }
            k = k + 1;
        }
        proof {
            assert(canonical@ + Seq::<Identifier>::empty() =~= canonical@);
        }
        (canonical, names)
    }

    /// One member per entry of `order`: the declaration at that position re-stamped under
    /// its canonical name.
    fn restamp_members(&self, order: &Vec<(u16, usize)>, canonical: &Vec<Identifier>, names: &mut NameTable) -> (r: Result<Vec<AssignedMember>, AuthorityIngestError>)
        requires
            canonical@.len() == order@.len(),
            forall|j: int| 0 <= j < order@.len() ==> (#[trigger] order@[j]).1 < self@.declarations.len(),
        ensures
            match members_from(self@.names, self@.declarations, order@, canonical@, 0, old(names)@) {
                Ok((ms, d)) => r matches Ok(v) && v@.map_values(|m: AssignedMember| m@) == ms && final(names)@ == d,
                Err(e) => r matches Err(x) && x@ == IngestErrorModel::Names(e),
            },
    {
        let decls = &self.ethos.declarations;
        let ghost ds = self@.declarations;
        let ghost n = self@.names;
        let ghost ov = order@;
        let ghost cv = canonical@;
        let ghost t0 = names@;
        let mut members: Vec<AssignedMember> = Vec::new();
        let mut k: usize = 0;
        proof {
            assert(members@.map_values(|m: AssignedMember| m@) =~= Seq::<MemberModel>::empty());
            if let Ok((x, d)) = members_from(n, ds, ov, cv, 0, t0) {
                assert(Seq::<MemberModel>::empty() + x =~= x);
            }
        }
        while k < order.len()
            invariant
                0 <= k <= order.len(),
                ov == order@,
                cv == canonical@,
                cv.len() == ov.len(),
                ds == self@.declarations,
                n == self@.names,
                t0 == old(names)@,
                ds == decls@.map_values(|d: EncodedDeclaration| d@),
                forall|j: int| 0 <= j < ov.len() ==> (#[trigger] ov[j]).1 < ds.len(),
                members_from(n, ds, ov, cv, 0, t0) == stamped_after(
                    members@.map_values(|m: AssignedMember| m@),
                    members_from(n, ds, ov, cv, k as int, names@),
                ),
            decreases order.len() - k,
        {
            let position = order[k].1;
            assert(ov[k as int].1 < ds.len());
            assert(ds[position as int] == decls@[position as int]@);
            let declaration = match self.restamp_declaration(&decls[position], canonical[k], names) {
                Ok(d) => d,
                Err(e) => {
                    return Err(e);
                },
            };
            let ghost before = members@.map_values(|m: AssignedMember| m@);
            let member = AssignedMember {
                local: order[k].0,
                identifier: canonical[k],
                kind: AssignedKind::Declaration(declaration),
            };
            let ghost gm = member@;
            members.push(member);
            proof {
                assert(members@.map_values(|m: AssignedMember| m@) =~= before.push(gm));
                if let Ok((x, d)) = members_from(n, ds, ov, cv, k + 1, names@) {
                    assert(before + (seq![gm] + x) =~= before.push(gm) + x);
                }
            }
            k = k + 1;
        }
        proof {
            let done = members@.map_values(|m: AssignedMember| m@);
            assert(done + Seq::<MemberModel>::empty() =~= done);
        }
        Ok(members)
    }

    /// Builds the canonical universe assignment from the authority's reply: one member per
    /// declaration at the authority's local identity, sorted by local; declaration names are
    /// interned first in that order, then each body is re-stamped positionally; then the
    /// scalar priors integer, string, boolean and bytes are seated in the highest unused
    /// locals.
    pub fn build_universe(&self, bound: &BoundIdentities) -> (r: Result<UniverseAssignment, AuthorityIngestError>)
        ensures
            match build_spec(self@.names, self@.declarations, bound@) {
                Ok(u) => r matches Ok(x) && x@ == u,
                Err(e) => r matches Err(x) && x@ == e,
            },
    {
        let ghost ds = self@.declarations;
        let ghost n = self@.names;
        let ghost b = bound@;
        let assigned = match self.assign_locals(bound) {
            Ok(a) => a,
            Err(e) => {
                return Err(e);
            },
        };
        let count = self.ethos.declarations.len();
        assert(ds.len() == count);
        let order = sort_by_local(&assigned);
        proof {
            lemma_order_resolvable(n, ds, b);
        }
        let (canonical, mut names) = self.canonical_names(&order);
        let mut members = match self.restamp_members(&order, &canonical, &mut names) {
            Ok(m) => m,
            Err(e) => {
                return Err(e);
            },
        };
        let mut occupied = occupied_locals(&members);
        match seat_builtins(&mut occupied, &mut members, &mut names) {
            Ok(()) => {},
            Err(e) => {
                return Err(e);
            },
        }
        Ok(UniverseAssignment { members, names })
    }
}

} // verus!
