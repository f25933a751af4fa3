//! Which declarations resolve against a name table: every identifier they use names an
//! entry. Resolution is the only thing the fold and the re-stamp can fail on.

use vstd::prelude::*;

use crate::declaration::{DeclarationModel, FieldModel, ReferenceModel, TypeModel, VariantModel};
use crate::names::{Identifier, NameTableError};
use crate::restamp::{
    restamp_declaration_spec,
    restamp_field_spec,
    restamp_fields_spec,
    restamp_identifier_spec,
    restamp_variant_spec,
    restamp_reference_spec,
    restamp_references_spec,
    restamp_type_spec,
    restamp_variants_spec,
};
use crate::shape::{
    declared_key_spec,
    declared_shape_spec,
    fold_fields_spec,
    fold_reference_spec,
    fold_references_spec,
    fold_variants_spec,
};

verus! {

/// `id` names an entry of `names`.
pub open spec fn names_entry(names: Seq<Seq<char>>, id: Identifier) -> bool {
    id.index < names.len()
}

/// Every identifier in `r` names an entry of `names`.
pub open spec fn reference_resolves(names: Seq<Seq<char>>, r: ReferenceModel) -> bool
    decreases r,
{
    match r {
        ReferenceModel::Plain(id) => names_entry(names, id),
        ReferenceModel::SingleTypeApplication { argument, .. } => reference_resolves(names, *argument),
        ReferenceModel::MultiTypeApplication { arguments, .. } => references_resolve(names, arguments),
        _ => true,
    }
}

pub open spec fn references_resolve(names: Seq<Seq<char>>, s: Seq<ReferenceModel>) -> bool
    decreases s,
{
    s.len() == 0 || (reference_resolves(names, s[0]) && references_resolve(names, s.drop_first()))
}

/// Every field's name and every identifier of its reference name entries of `names`.
pub open spec fn fields_resolve(names: Seq<Seq<char>>, s: Seq<FieldModel>) -> bool {
    forall|i: int|
        0 <= i < s.len() ==> names_entry(names, #[trigger] s[i].identifier) && reference_resolves(
            names,
            s[i].reference,
        )
}

/// Every variant's name and every identifier of its payload name entries of `names`.
pub open spec fn variants_resolve(names: Seq<Seq<char>>, s: Seq<VariantModel>) -> bool {
    forall|i: int|
        0 <= i < s.len() ==> names_entry(names, #[trigger] s[i].identifier) && (s[i].payload matches Some(
            r,
        ) ==> reference_resolves(names, r))
}

/// Every identifier in the body `t`, its own name aside, names an entry of `names`.
pub open spec fn body_resolves(names: Seq<Seq<char>>, t: TypeModel) -> bool {
    match t {
        TypeModel::Newtype { reference, .. } => reference_resolves(names, reference),
        TypeModel::Struct { fields, .. } => fields_resolve(names, fields),
        TypeModel::Enumeration { variants, .. } => variants_resolve(names, variants),
    }
}

/// Every identifier in `d`, its own name included, names an entry of `names`.
pub open spec fn declaration_resolves(names: Seq<Seq<char>>, d: DeclarationModel) -> bool {
    names_entry(names, d.value.identifier()) && body_resolves(names, d.value)
}

/// A reference whose identifiers resolve folds.
pub proof fn lemma_reference_folds(names: Seq<Seq<char>>, r: ReferenceModel)
    requires
        reference_resolves(names, r),
    ensures
        fold_reference_spec(names, r) is Ok,
    decreases r,
{
    match r {
        ReferenceModel::SingleTypeApplication { argument, .. } => {
            lemma_reference_folds(names, *argument);
        },
        ReferenceModel::MultiTypeApplication { arguments, .. } => {
            lemma_references_fold(names, arguments);
        },
        _ => {},
    }
}

pub proof fn lemma_references_fold(names: Seq<Seq<char>>, s: Seq<ReferenceModel>)
    requires
        references_resolve(names, s),
    ensures
        fold_references_spec(names, s) is Ok,
    decreases s,
{
    if s.len() > 0 {
        lemma_reference_folds(names, s[0]);
        lemma_references_fold(names, s.drop_first());
    }
}

proof fn lemma_fields_fold(names: Seq<Seq<char>>, s: Seq<FieldModel>)
    requires
        fields_resolve(names, s),
    ensures
        fold_fields_spec(names, s) is Ok,
    decreases s.len(),
{
    if s.len() > 0 {
        assert(names_entry(names, s[0].identifier));
        lemma_reference_folds(names, s[0].reference);
        assert forall|i: int| 0 <= i < s.drop_first().len() implies names_entry(
            names,
            #[trigger] s.drop_first()[i].identifier,
        ) && reference_resolves(names, s.drop_first()[i].reference) by {
            assert(names_entry(names, s[i + 1].identifier));
        }
        lemma_fields_fold(names, s.drop_first());
    }
}

proof fn lemma_variants_fold(names: Seq<Seq<char>>, s: Seq<VariantModel>)
    requires
        variants_resolve(names, s),
    ensures
        fold_variants_spec(names, s) is Ok,
    decreases s.len(),
{
    if s.len() > 0 {
        assert(names_entry(names, s[0].identifier));
        if let Some(r) = s[0].payload {
            lemma_reference_folds(names, r);
        }
        assert forall|i: int| 0 <= i < s.drop_first().len() implies names_entry(
            names,
            #[trigger] s.drop_first()[i].identifier,
        ) && (s.drop_first()[i].payload matches Some(r) ==> reference_resolves(names, r)) by {
            assert(names_entry(names, s[i + 1].identifier));
        }
        lemma_variants_fold(names, s.drop_first());
    }
}

/// A declaration whose identifiers resolve has a key and a fingerprint.
pub proof fn lemma_declaration_identified(names: Seq<Seq<char>>, d: DeclarationModel)
    requires
        declaration_resolves(names, d),
    ensures
        declared_key_spec(names, d) is Ok,
        declared_shape_spec(names, d) is Ok,
{
    match d.value {
        TypeModel::Newtype { reference, .. } => lemma_reference_folds(names, reference),
        TypeModel::Struct { fields, .. } => lemma_fields_fold(names, fields),
        TypeModel::Enumeration { variants, .. } => lemma_variants_fold(names, variants),
    }
}

/// A reference whose identifiers resolve in `src` re-stamps against any target table.
pub proof fn lemma_reference_restamps(src: Seq<Seq<char>>, dst: Seq<Seq<char>>, r: ReferenceModel)
    requires
        reference_resolves(src, r),
    ensures
        restamp_reference_spec(src, dst, r) is Ok,
    decreases r,
{
    match r {
        ReferenceModel::SingleTypeApplication { argument, .. } => {
            lemma_reference_restamps(src, dst, *argument);
        },
        ReferenceModel::MultiTypeApplication { arguments, .. } => {
            lemma_references_restamp(src, dst, arguments);
        },
        _ => {},
    }
}

pub proof fn lemma_references_restamp(src: Seq<Seq<char>>, dst: Seq<Seq<char>>, s: Seq<ReferenceModel>)
    requires
        references_resolve(src, s),
    ensures
        restamp_references_spec(src, dst, s) is Ok,
    decreases s,
{
    if s.len() > 0 {
        lemma_reference_restamps(src, dst, s[0]);
        let d1 = restamp_reference_spec(src, dst, s[0])->Ok_0.1;
        lemma_references_restamp(src, d1, s.drop_first());
    }
}

proof fn lemma_fields_restamp(src: Seq<Seq<char>>, dst: Seq<Seq<char>>, s: Seq<FieldModel>)
    requires
        fields_resolve(src, s),
    ensures
        restamp_fields_spec(src, dst, s) is Ok,
    decreases s.len(),
{
    if s.len() > 0 {
        assert(names_entry(src, s[0].identifier));
        let d0 = restamp_identifier_spec(src, dst, s[0].identifier)->Ok_0.1;
        lemma_reference_restamps(src, d0, s[0].reference);
        let d1 = restamp_field_spec(src, dst, s[0])->Ok_0.1;
        assert forall|i: int| 0 <= i < s.drop_first().len() implies names_entry(
            src,
            #[trigger] s.drop_first()[i].identifier,
        ) && reference_resolves(src, s.drop_first()[i].reference) by {
            assert(names_entry(src, s[i + 1].identifier));
        }
        lemma_fields_restamp(src, d1, s.drop_first());
    }
}

proof fn lemma_variants_restamp(src: Seq<Seq<char>>, dst: Seq<Seq<char>>, s: Seq<VariantModel>)
    requires
        variants_resolve(src, s),
    ensures
        restamp_variants_spec(src, dst, s) is Ok,
    decreases s.len(),
{
    if s.len() > 0 {
        assert(names_entry(src, s[0].identifier));
        let d0 = restamp_identifier_spec(src, dst, s[0].identifier)->Ok_0.1;
        if let Some(r) = s[0].payload {
            lemma_reference_restamps(src, d0, r);
        }
        let d1 = restamp_variant_spec(src, dst, s[0])->Ok_0.1;
        assert forall|i: int| 0 <= i < s.drop_first().len() implies names_entry(
            src,
            #[trigger] s.drop_first()[i].identifier,
        ) && (s.drop_first()[i].payload matches Some(r) ==> reference_resolves(src, r)) by {
            assert(names_entry(src, s[i + 1].identifier));
        }
        lemma_variants_restamp(src, d1, s.drop_first());
    }
}

/// A declaration whose body's identifiers resolve in `src` re-stamps against any target
/// table, under any name.
pub proof fn lemma_declaration_restamps(src: Seq<Seq<char>>, dst: Seq<Seq<char>>, d: DeclarationModel, identifier: Identifier)
    requires
        body_resolves(src, d.value),
    ensures
        restamp_declaration_spec(src, dst, d, identifier) is Ok,
{
    match d.value {
        TypeModel::Newtype { reference, .. } => lemma_reference_restamps(src, dst, reference),
        TypeModel::Struct { fields, .. } => lemma_fields_restamp(src, dst, fields),
        TypeModel::Enumeration { variants, .. } => lemma_variants_restamp(src, dst, variants),
    }
    assert(restamp_type_spec(src, dst, d.value, identifier) is Ok);
}

/// `e` reports an identifier that names no entry of `names`.
pub open spec fn reports_unresolved(names: Seq<Seq<char>>, e: NameTableError) -> bool {
    match e {
        NameTableError::UnknownIdentifier(id) => !names_entry(names, id),
    }
}

/// A fold fails only on an identifier that names no entry.
pub proof fn lemma_reference_fold_error(names: Seq<Seq<char>>, r: ReferenceModel)
    ensures
        fold_reference_spec(names, r) matches Err(e) ==> reports_unresolved(names, e),
    decreases r,
{
    match r {
        ReferenceModel::SingleTypeApplication { argument, .. } => {
            lemma_reference_fold_error(names, *argument);
        },
        ReferenceModel::MultiTypeApplication { arguments, .. } => {
            lemma_references_fold_error(names, arguments);
        },
        _ => {},
    }
}

pub proof fn lemma_references_fold_error(names: Seq<Seq<char>>, s: Seq<ReferenceModel>)
    ensures
        fold_references_spec(names, s) matches Err(e) ==> reports_unresolved(names, e),
    decreases s,
{
    if s.len() > 0 {
        lemma_reference_fold_error(names, s[0]);
        lemma_references_fold_error(names, s.drop_first());
    }
}

proof fn lemma_fields_fold_error(names: Seq<Seq<char>>, s: Seq<FieldModel>)
    ensures
        fold_fields_spec(names, s) matches Err(e) ==> reports_unresolved(names, e),
    decreases s.len(),
{
    if s.len() > 0 {
        lemma_reference_fold_error(names, s[0].reference);
        lemma_fields_fold_error(names, s.drop_first());
    }
}

proof fn lemma_variants_fold_error(names: Seq<Seq<char>>, s: Seq<VariantModel>)
    ensures
        fold_variants_spec(names, s) matches Err(e) ==> reports_unresolved(names, e),
    decreases s.len(),
{
    if s.len() > 0 {
        if let Some(r) = s[0].payload {
            lemma_reference_fold_error(names, r);
        }
        lemma_variants_fold_error(names, s.drop_first());
    }
}

/// A declaration's key or fingerprint fails only on an identifier that names no entry.
pub proof fn lemma_declaration_identity_error(names: Seq<Seq<char>>, d: DeclarationModel)
    ensures
        declared_key_spec(names, d) matches Err(e) ==> reports_unresolved(names, e),
        declared_shape_spec(names, d) matches Err(e) ==> reports_unresolved(names, e),
{
    match d.value {
        TypeModel::Newtype { reference, .. } => lemma_reference_fold_error(names, reference),
        TypeModel::Struct { fields, .. } => lemma_fields_fold_error(names, fields),
        TypeModel::Enumeration { variants, .. } => lemma_variants_fold_error(names, variants),
    }
}

/// A re-stamp fails only on an identifier that names no entry of the source table.
pub proof fn lemma_reference_restamp_error(src: Seq<Seq<char>>, dst: Seq<Seq<char>>, r: ReferenceModel)
    ensures
        restamp_reference_spec(src, dst, r) matches Err(e) ==> reports_unresolved(src, e),
    decreases r,
{
    match r {
        ReferenceModel::SingleTypeApplication { argument, .. } => {
            lemma_reference_restamp_error(src, dst, *argument);
        },
        ReferenceModel::MultiTypeApplication { arguments, .. } => {
            lemma_references_restamp_error(src, dst, arguments);
        },
        _ => {},
    }
}

pub proof fn lemma_references_restamp_error(src: Seq<Seq<char>>, dst: Seq<Seq<char>>, s: Seq<ReferenceModel>)
    ensures
        restamp_references_spec(src, dst, s) matches Err(e) ==> reports_unresolved(src, e),
    decreases s,
{
    if s.len() > 0 {
        lemma_reference_restamp_error(src, dst, s[0]);
        if let Ok((_, d1)) = restamp_reference_spec(src, dst, s[0]) {
            lemma_references_restamp_error(src, d1, s.drop_first());
        }
    }
}

proof fn lemma_fields_restamp_error(src: Seq<Seq<char>>, dst: Seq<Seq<char>>, s: Seq<FieldModel>)
    ensures
        restamp_fields_spec(src, dst, s) matches Err(e) ==> reports_unresolved(src, e),
    decreases s.len(),
{
    if s.len() > 0 {
        if let Ok((_, d0)) = restamp_identifier_spec(src, dst, s[0].identifier) {
            lemma_reference_restamp_error(src, d0, s[0].reference);
        }
        if let Ok((_, d1)) = restamp_field_spec(src, dst, s[0]) {
            lemma_fields_restamp_error(src, d1, s.drop_first());
        }
    }
}

proof fn lemma_variants_restamp_error(src: Seq<Seq<char>>, dst: Seq<Seq<char>>, s: Seq<VariantModel>)
    ensures
        restamp_variants_spec(src, dst, s) matches Err(e) ==> reports_unresolved(src, e),
    decreases s.len(),
{
    if s.len() > 0 {
        if let Ok((_, d0)) = restamp_identifier_spec(src, dst, s[0].identifier) {
            if let Some(r) = s[0].payload {
                lemma_reference_restamp_error(src, d0, r);
            }
        }
        if let Ok((_, d1)) = restamp_variant_spec(src, dst, s[0]) {
            lemma_variants_restamp_error(src, d1, s.drop_first());
        }
    }
}

/// A declaration's re-stamp fails only on an identifier that names no entry of the source
/// table.
pub proof fn lemma_declaration_restamp_error(src: Seq<Seq<char>>, dst: Seq<Seq<char>>, d: DeclarationModel, identifier: Identifier)
    ensures
        restamp_declaration_spec(src, dst, d, identifier) matches Err(e) ==> reports_unresolved(src, e),
{
    match d.value {
        TypeModel::Newtype { reference, .. } => lemma_reference_restamp_error(src, dst, reference),
        TypeModel::Struct { fields, .. } => lemma_fields_restamp_error(src, dst, fields),
        TypeModel::Enumeration { variants, .. } => lemma_variants_restamp_error(src, dst, variants),
    }
}

} // verus!
