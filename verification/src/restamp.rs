//! Re-stamping: a declaration parsed against one name table, rewritten against another by
//! resolving each identifier to its spelling and interning that spelling in the other table,
//! walking the declaration positionally. Also: when two declarations, each read against its
//! own table, declare the same content.

use vstd::prelude::*;

use crate::declaration::{
    DeclarationModel,
    DeclarationRole,
    FieldModel,
    ReferenceModel,
    TypeModel,
    VariantModel,
    Visibility,
};
use crate::names::{lemma_intern, lemma_intern_grows, spec_intern, spec_resolve, distinct_spellings, Identifier, NameTableError};

verus! {

/// A re-stamped value with the target table after it, or the first resolution error.
pub type Stamped<T> = Result<(T, Seq<Seq<char>>), NameTableError>;

/// `done` in front of the re-stamped sequence `rest` holds, or `rest`'s error.
pub open spec fn stamped_after<T>(done: Seq<T>, rest: Stamped<Seq<T>>) -> Stamped<Seq<T>> {
    match rest {
        Ok((t, d)) => Ok((done + t, d)),
        Err(e) => Err(e),
    }
}

/// Resolves `id` against `src` and interns its spelling in `dst`.
pub open spec fn restamp_identifier_spec(src: Seq<Seq<char>>, dst: Seq<Seq<char>>, id: Identifier) -> Stamped<Identifier> {
    match spec_resolve(src, id) {
        Ok(s) => Ok((spec_intern(dst, s).1, spec_intern(dst, s).0)),
        Err(e) => Err(e),
    }
}

pub open spec fn restamp_reference_spec(src: Seq<Seq<char>>, dst: Seq<Seq<char>>, r: ReferenceModel) -> Stamped<ReferenceModel>
    decreases r,
{
    match r {
        ReferenceModel::Plain(id) => match restamp_identifier_spec(src, dst, id) {
            Ok((nid, d)) => Ok((ReferenceModel::Plain(nid), d)),
            Err(e) => Err(e),
        },
        ReferenceModel::SingleTypeApplication { projection, argument } => match restamp_reference_spec(src, dst, *argument) {
            Ok((a, d)) => Ok(
                (ReferenceModel::SingleTypeApplication { projection, argument: Box::new(a) }, d),
            ),
            Err(e) => Err(e),
        },
        ReferenceModel::MultiTypeApplication { projection, arguments } => match restamp_references_spec(src, dst, arguments) {
            Ok((a, d)) => Ok((ReferenceModel::MultiTypeApplication { projection, arguments: a }, d)),
            Err(e) => Err(e),
        },
        _ => Ok((r, dst)),
    }
}

/// Re-stamps `s`'s references in order; the first error stops it.
pub open spec fn restamp_references_spec(src: Seq<Seq<char>>, dst: Seq<Seq<char>>, s: Seq<ReferenceModel>) -> Stamped<Seq<ReferenceModel>>
    decreases s,
{
    if s.len() == 0 {
        Ok((Seq::empty(), dst))
    } else {
        match restamp_reference_spec(src, dst, s[0]) {
            Ok((x, d1)) => match restamp_references_spec(src, d1, s.drop_first()) {
                Ok((rest, d2)) => Ok((seq![x] + rest, d2)),
                Err(e) => Err(e),
            },
            Err(e) => Err(e),
        }
    }
}

/// A field: its name first, then its reference.
pub open spec fn restamp_field_spec(src: Seq<Seq<char>>, dst: Seq<Seq<char>>, f: FieldModel) -> Stamped<FieldModel> {
    match restamp_identifier_spec(src, dst, f.identifier) {
        Ok((id, d1)) => match restamp_reference_spec(src, d1, f.reference) {
            Ok((r, d2)) => Ok((FieldModel { identifier: id, reference: r }, d2)),
            Err(e) => Err(e),
        },
        Err(e) => Err(e),
    }
}

pub open spec fn restamp_fields_spec(src: Seq<Seq<char>>, dst: Seq<Seq<char>>, s: Seq<FieldModel>) -> Stamped<Seq<FieldModel>>
    decreases s.len(),
{
    if s.len() == 0 {
        Ok((Seq::empty(), dst))
    } else {
        match restamp_field_spec(src, dst, s[0]) {
            Ok((x, d1)) => match restamp_fields_spec(src, d1, s.drop_first()) {
                Ok((rest, d2)) => Ok((seq![x] + rest, d2)),
                Err(e) => Err(e),
            },
            Err(e) => Err(e),
        }
    }
}

/// A payload, where there is one.
pub open spec fn restamp_payload_spec(src: Seq<Seq<char>>, dst: Seq<Seq<char>>, p: Option<ReferenceModel>) -> Stamped<Option<ReferenceModel>> {
    match p {
        Some(r) => match restamp_reference_spec(src, dst, r) {
            Ok((x, d)) => Ok((Some(x), d)),
            Err(e) => Err(e),
        },
        None => Ok((None, dst)),
    }
}

/// A variant: its name first, then its payload.
pub open spec fn restamp_variant_spec(src: Seq<Seq<char>>, dst: Seq<Seq<char>>, v: VariantModel) -> Stamped<VariantModel> {
    match restamp_identifier_spec(src, dst, v.identifier) {
        Ok((id, d1)) => match restamp_payload_spec(src, d1, v.payload) {
            Ok((p, d2)) => Ok((VariantModel { identifier: id, payload: p }, d2)),
            Err(e) => Err(e),
        },
        Err(e) => Err(e),
    }
}

pub open spec fn restamp_variants_spec(src: Seq<Seq<char>>, dst: Seq<Seq<char>>, s: Seq<VariantModel>) -> Stamped<Seq<VariantModel>>
    decreases s.len(),
{
    if s.len() == 0 {
        Ok((Seq::empty(), dst))
    } else {
        match restamp_variant_spec(src, dst, s[0]) {
            Ok((x, d1)) => match restamp_variants_spec(src, d1, s.drop_first()) {
                Ok((rest, d2)) => Ok((seq![x] + rest, d2)),
                Err(e) => Err(e),
            },
            Err(e) => Err(e),
        }
    }
}

/// A body, named `identifier` in the target table.
pub open spec fn restamp_type_spec(src: Seq<Seq<char>>, dst: Seq<Seq<char>>, value: TypeModel, identifier: Identifier) -> Stamped<TypeModel> {
    match value {
        TypeModel::Newtype { reference, .. } => match restamp_reference_spec(src, dst, reference) {
            Ok((r, d)) => Ok((TypeModel::Newtype { identifier, reference: r }, d)),
            Err(e) => Err(e),
        },
        TypeModel::Struct { fields, .. } => match restamp_fields_spec(src, dst, fields) {
            Ok((f, d)) => Ok((TypeModel::Struct { identifier, fields: f }, d)),
            Err(e) => Err(e),
        },
        TypeModel::Enumeration { variants, .. } => match restamp_variants_spec(src, dst, variants) {
            Ok((v, d)) => Ok((TypeModel::Enumeration { identifier, variants: v }, d)),
            Err(e) => Err(e),
        },
    }
}

/// The role and visibility a re-stamped declaration carries: a data type keeps its
/// visibility, an interface declaration is public.
pub open spec fn restamped_visibility(d: DeclarationModel) -> Visibility {
    match d.role {
        DeclarationRole::DataType => d.visibility,
        _ => Visibility::Public,
    }
}

/// A declaration, named `identifier` in the target table.
pub open spec fn restamp_declaration_spec(src: Seq<Seq<char>>, dst: Seq<Seq<char>>, d: DeclarationModel, identifier: Identifier) -> Stamped<DeclarationModel> {
    match restamp_type_spec(src, dst, d.value, identifier) {
        Ok((v, t)) => Ok(
            (DeclarationModel { role: d.role, visibility: restamped_visibility(d), value: v }, t),
        ),
        Err(e) => Err(e),
    }
}

/// The target table after re-stamping a name, whether or not it resolves: its spelling
/// interned where it does, the table untouched where it does not.
pub open spec fn restamp_identifier_table(src: Seq<Seq<char>>, dst: Seq<Seq<char>>, id: Identifier) -> Seq<Seq<char>> {
    match spec_resolve(src, id) {
        Ok(s) => spec_intern(dst, s).0,
        Err(_) => dst,
    }
}

/// The target table after re-stamping a reference, whether or not it succeeds: the
/// spellings of the names before the first one that fails to resolve are interned, and
/// nothing interned is taken back.
pub open spec fn restamp_reference_table(src: Seq<Seq<char>>, dst: Seq<Seq<char>>, r: ReferenceModel) -> Seq<Seq<char>>
    decreases r,
{
    match r {
        ReferenceModel::Plain(id) => restamp_identifier_table(src, dst, id),
        ReferenceModel::SingleTypeApplication { argument, .. } => restamp_reference_table(src, dst, *argument),
        ReferenceModel::MultiTypeApplication { arguments, .. } => restamp_references_table(src, dst, arguments),
        _ => dst,
    }
}

/// The target table after re-stamping `s`'s references in order, up to and including the
/// first that fails.
pub open spec fn restamp_references_table(src: Seq<Seq<char>>, dst: Seq<Seq<char>>, s: Seq<ReferenceModel>) -> Seq<Seq<char>>
    decreases s,
{
    if s.len() == 0 {
        dst
    } else {
        match restamp_reference_spec(src, dst, s[0]) {
            Ok((_, d1)) => restamp_references_table(src, d1, s.drop_first()),
            Err(_) => restamp_reference_table(src, dst, s[0]),
        }
    }
}

/// The target table after re-stamping a field: its name, then, where that resolves, its
/// reference.
pub open spec fn restamp_field_table(src: Seq<Seq<char>>, dst: Seq<Seq<char>>, f: FieldModel) -> Seq<Seq<char>> {
    match restamp_identifier_spec(src, dst, f.identifier) {
        Ok((_, d1)) => restamp_reference_table(src, d1, f.reference),
        Err(_) => dst,
    }
}

pub open spec fn restamp_fields_table(src: Seq<Seq<char>>, dst: Seq<Seq<char>>, s: Seq<FieldModel>) -> Seq<Seq<char>>
    decreases s.len(),
{
    if s.len() == 0 {
        dst
    } else {
        match restamp_field_spec(src, dst, s[0]) {
            Ok((_, d1)) => restamp_fields_table(src, d1, s.drop_first()),
            Err(_) => restamp_field_table(src, dst, s[0]),
        }
    }
}

pub open spec fn restamp_payload_table(src: Seq<Seq<char>>, dst: Seq<Seq<char>>, p: Option<ReferenceModel>) -> Seq<Seq<char>> {
    match p {
        Some(r) => restamp_reference_table(src, dst, r),
        None => dst,
    }
}

/// The target table after re-stamping a variant: its name, then, where that resolves, its
/// payload.
pub open spec fn restamp_variant_table(src: Seq<Seq<char>>, dst: Seq<Seq<char>>, v: VariantModel) -> Seq<Seq<char>> {
    match restamp_identifier_spec(src, dst, v.identifier) {
        Ok((_, d1)) => restamp_payload_table(src, d1, v.payload),
        Err(_) => dst,
    }
}

pub open spec fn restamp_variants_table(src: Seq<Seq<char>>, dst: Seq<Seq<char>>, s: Seq<VariantModel>) -> Seq<Seq<char>>
    decreases s.len(),
{
    if s.len() == 0 {
        dst
    } else {
        match restamp_variant_spec(src, dst, s[0]) {
            Ok((_, d1)) => restamp_variants_table(src, d1, s.drop_first()),
            Err(_) => restamp_variant_table(src, dst, s[0]),
        }
    }
}

/// The target table after re-stamping a body, whether or not it succeeds.
pub open spec fn restamp_type_table(src: Seq<Seq<char>>, dst: Seq<Seq<char>>, value: TypeModel) -> Seq<Seq<char>> {
    match value {
        TypeModel::Newtype { reference, .. } => restamp_reference_table(src, dst, reference),
        TypeModel::Struct { fields, .. } => restamp_fields_table(src, dst, fields),
        TypeModel::Enumeration { variants, .. } => restamp_variants_table(src, dst, variants),
    }
}

/// `id1` read against `n1` and `id2` read against `n2` resolve, to one spelling.
pub open spec fn same_name(n1: Seq<Seq<char>>, id1: Identifier, n2: Seq<Seq<char>>, id2: Identifier) -> bool {
    &&& spec_resolve(n1, id1) is Ok
    &&& spec_resolve(n1, id1) == spec_resolve(n2, id2)
}

/// `r1` read against `n1` and `r2` read against `n2` are one reference: same shape,
/// same projections and values, and names that resolve to the same spellings.
pub open spec fn same_reference(n1: Seq<Seq<char>>, r1: ReferenceModel, n2: Seq<Seq<char>>, r2: ReferenceModel) -> bool
    decreases r1,
{
    match r1 {
        ReferenceModel::Plain(id1) => match r2 {
            ReferenceModel::Plain(id2) => same_name(n1, id1, n2, id2),
            _ => false,
        },
        ReferenceModel::SingleTypeApplication { projection: p1, argument: a1 } => match r2 {
            ReferenceModel::SingleTypeApplication { projection: p2, argument: a2 } => p1 == p2
                && same_reference(n1, *a1, n2, *a2),
            _ => false,
        },
        ReferenceModel::MultiTypeApplication { projection: p1, arguments: a1 } => match r2 {
            ReferenceModel::MultiTypeApplication { projection: p2, arguments: a2 } => p1 == p2
                && same_references(n1, a1, n2, a2),
            _ => false,
        },
        _ => r1 == r2,
    }
}

pub open spec fn same_references(n1: Seq<Seq<char>>, s1: Seq<ReferenceModel>, n2: Seq<Seq<char>>, s2: Seq<ReferenceModel>) -> bool
    decreases s1,
{
    &&& s1.len() == s2.len()
    &&& (s1.len() == 0 || (same_reference(n1, s1[0], n2, s2[0]) && same_references(
        n1,
        s1.drop_first(),
        n2,
        s2.drop_first(),
    )))
}

pub open spec fn same_field(n1: Seq<Seq<char>>, f1: FieldModel, n2: Seq<Seq<char>>, f2: FieldModel) -> bool {
    same_name(n1, f1.identifier, n2, f2.identifier) && same_reference(n1, f1.reference, n2, f2.reference)
}

pub open spec fn same_payload(n1: Seq<Seq<char>>, p1: Option<ReferenceModel>, n2: Seq<Seq<char>>, p2: Option<ReferenceModel>) -> bool {
    match p1 {
        Some(r1) => match p2 {
            Some(r2) => same_reference(n1, r1, n2, r2),
            None => false,
        },
        None => p2 is None,
    }
}

pub open spec fn same_variant(n1: Seq<Seq<char>>, v1: VariantModel, n2: Seq<Seq<char>>, v2: VariantModel) -> bool {
    same_name(n1, v1.identifier, n2, v2.identifier) && same_payload(n1, v1.payload, n2, v2.payload)
}

pub open spec fn same_fields(n1: Seq<Seq<char>>, s1: Seq<FieldModel>, n2: Seq<Seq<char>>, s2: Seq<FieldModel>) -> bool {
    &&& s1.len() == s2.len()
    &&& forall|i: int| 0 <= i < s1.len() ==> #[trigger] same_field(n1, s1[i], n2, s2[i])
}

pub open spec fn same_variants(n1: Seq<Seq<char>>, s1: Seq<VariantModel>, n2: Seq<Seq<char>>, s2: Seq<VariantModel>) -> bool {
    &&& s1.len() == s2.len()
    &&& forall|i: int| 0 <= i < s1.len() ==> #[trigger] same_variant(n1, s1[i], n2, s2[i])
}

/// Two bodies, each read against its own table, have the same structure: same kind, and
/// fields, variants and references that resolve to the same spellings, position by
/// position. The bodies' own names are not compared.
pub open spec fn same_body(n1: Seq<Seq<char>>, t1: TypeModel, n2: Seq<Seq<char>>, t2: TypeModel) -> bool {
    match t1 {
        TypeModel::Newtype { reference: r1, .. } => match t2 {
            TypeModel::Newtype { reference: r2, .. } => same_reference(n1, r1, n2, r2),
            _ => false,
        },
        TypeModel::Struct { fields: f1, .. } => match t2 {
            TypeModel::Struct { fields: f2, .. } => same_fields(n1, f1, n2, f2),
            _ => false,
        },
        TypeModel::Enumeration { variants: v1, .. } => match t2 {
            TypeModel::Enumeration { variants: v2, .. } => same_variants(n1, v1, n2, v2),
            _ => false,
        },
    }
}

/// Two bodies, each read against its own table, declare the same content: the same
/// structure, and own names that resolve to one spelling.
pub open spec fn same_type(n1: Seq<Seq<char>>, t1: TypeModel, n2: Seq<Seq<char>>, t2: TypeModel) -> bool {
    &&& same_name(n1, t1.identifier(), n2, t2.identifier())
    &&& same_body(n1, t1, n2, t2)
}

/// Two declarations, each read against its own table, declare the same content: role,
/// visibility, and bodies that resolve to the same spellings throughout.
pub open spec fn same_declaration(n1: Seq<Seq<char>>, d1: DeclarationModel, n2: Seq<Seq<char>>, d2: DeclarationModel) -> bool {
    &&& d1.role == d2.role
    &&& d1.visibility == d2.visibility
    &&& same_type(n1, d1.value, n2, d2.value)
}

/// Re-stamping looks at a name only through its spelling.
pub proof fn lemma_restamp_identifier_same(n1: Seq<Seq<char>>, id1: Identifier, n2: Seq<Seq<char>>, id2: Identifier, dst: Seq<Seq<char>>)
    requires
        same_name(n1, id1, n2, id2),
    ensures
        restamp_identifier_spec(n1, dst, id1) == restamp_identifier_spec(n2, dst, id2),
{
}

/// References with the same content re-stamp alike.
pub proof fn lemma_restamp_reference_same(n1: Seq<Seq<char>>, r1: ReferenceModel, n2: Seq<Seq<char>>, r2: ReferenceModel, dst: Seq<Seq<char>>)
    requires
        same_reference(n1, r1, n2, r2),
    ensures
        restamp_reference_spec(n1, dst, r1) == restamp_reference_spec(n2, dst, r2),
    decreases r1,
{
    match r1 {
        ReferenceModel::Plain(id1) => {
            if let ReferenceModel::Plain(id2) = r2 {
                lemma_restamp_identifier_same(n1, id1, n2, id2, dst);
            }
        },
        ReferenceModel::SingleTypeApplication { projection: p1, argument: a1 } => {
            if let ReferenceModel::SingleTypeApplication { projection: p2, argument: a2 } = r2 {
                lemma_restamp_reference_same(n1, *a1, n2, *a2, dst);
            }
        },
        ReferenceModel::MultiTypeApplication { projection: p1, arguments: a1 } => {
            if let ReferenceModel::MultiTypeApplication { projection: p2, arguments: a2 } = r2 {
                lemma_restamp_references_same(n1, a1, n2, a2, dst);
            }
        },
        _ => {},
    }
}

pub proof fn lemma_restamp_references_same(n1: Seq<Seq<char>>, s1: Seq<ReferenceModel>, n2: Seq<Seq<char>>, s2: Seq<ReferenceModel>, dst: Seq<Seq<char>>)
    requires
        same_references(n1, s1, n2, s2),
    ensures
        restamp_references_spec(n1, dst, s1) == restamp_references_spec(n2, dst, s2),
    decreases s1,
{
    if s1.len() > 0 {
        lemma_restamp_reference_same(n1, s1[0], n2, s2[0], dst);
        if let Ok((x, d1)) = restamp_reference_spec(n1, dst, s1[0]) {
            lemma_restamp_references_same(n1, s1.drop_first(), n2, s2.drop_first(), d1);
        }
    }
}

pub proof fn lemma_restamp_fields_same(n1: Seq<Seq<char>>, s1: Seq<FieldModel>, n2: Seq<Seq<char>>, s2: Seq<FieldModel>, dst: Seq<Seq<char>>)
    requires
        same_fields(n1, s1, n2, s2),
    ensures
        restamp_fields_spec(n1, dst, s1) == restamp_fields_spec(n2, dst, s2),
    decreases s1.len(),
{
    if s1.len() > 0 {
        assert(same_field(n1, s1[0], n2, s2[0]));
        lemma_restamp_identifier_same(n1, s1[0].identifier, n2, s2[0].identifier, dst);
        if let Ok((id, d1)) = restamp_identifier_spec(n1, dst, s1[0].identifier) {
            lemma_restamp_reference_same(n1, s1[0].reference, n2, s2[0].reference, d1);
            if let Ok((x, d2)) = restamp_field_spec(n1, dst, s1[0]) {
                assert forall|i: int| 0 <= i < s1.drop_first().len() implies #[trigger] same_field(
                    n1,
                    s1.drop_first()[i],
                    n2,
                    s2.drop_first()[i],
                ) by {
                    assert(same_field(n1, s1[i + 1], n2, s2[i + 1]));
                }
                lemma_restamp_fields_same(n1, s1.drop_first(), n2, s2.drop_first(), d2);
            }
        }
    }
}

pub proof fn lemma_restamp_variants_same(n1: Seq<Seq<char>>, s1: Seq<VariantModel>, n2: Seq<Seq<char>>, s2: Seq<VariantModel>, dst: Seq<Seq<char>>)
    requires
        same_variants(n1, s1, n2, s2),
    ensures
        restamp_variants_spec(n1, dst, s1) == restamp_variants_spec(n2, dst, s2),
    decreases s1.len(),
{
    if s1.len() > 0 {
        assert(same_variant(n1, s1[0], n2, s2[0]));
        lemma_restamp_identifier_same(n1, s1[0].identifier, n2, s2[0].identifier, dst);
        if let Ok((id, d1)) = restamp_identifier_spec(n1, dst, s1[0].identifier) {
            if let Some(r1) = s1[0].payload {
                lemma_restamp_reference_same(n1, r1, n2, s2[0].payload->Some_0, d1);
            }
            if let Ok((x, d2)) = restamp_variant_spec(n1, dst, s1[0]) {
                assert forall|i: int| 0 <= i < s1.drop_first().len() implies #[trigger] same_variant(
                    n1,
                    s1.drop_first()[i],
                    n2,
                    s2.drop_first()[i],
                ) by {
                    assert(same_variant(n1, s1[i + 1], n2, s2[i + 1]));
                }
                lemma_restamp_variants_same(n1, s1.drop_first(), n2, s2.drop_first(), d2);
            }
        }
    }
}

/// Declarations with the same content re-stamp alike, whichever tables they were read
/// against.
pub proof fn lemma_restamp_declaration_same(n1: Seq<Seq<char>>, d1: DeclarationModel, n2: Seq<Seq<char>>, d2: DeclarationModel, dst: Seq<Seq<char>>, identifier: Identifier)
    requires
        same_declaration(n1, d1, n2, d2),
    ensures
        restamp_declaration_spec(n1, dst, d1, identifier) == restamp_declaration_spec(n2, dst, d2, identifier),
{
    match d1.value {
        TypeModel::Newtype { reference: r1, .. } => {
            if let TypeModel::Newtype { reference: r2, .. } = d2.value {
                lemma_restamp_reference_same(n1, r1, n2, r2, dst);
            }
        },
        TypeModel::Struct { fields: f1, .. } => {
            if let TypeModel::Struct { fields: f2, .. } = d2.value {
                lemma_restamp_fields_same(n1, f1, n2, f2, dst);
            }
        },
        TypeModel::Enumeration { variants: v1, .. } => {
            if let TypeModel::Enumeration { variants: v2, .. } = d2.value {
                lemma_restamp_variants_same(n1, v1, n2, v2, dst);
            }
        },
    }
}

/// `b` holds `a`'s entries at `a`'s positions, and maybe more after them.
pub open spec fn extends(a: Seq<Seq<char>>, b: Seq<Seq<char>>) -> bool {
    b.len() >= a.len() && b.subrange(0, a.len() as int) == a
}

pub(crate) proof fn lemma_extends_trans(a: Seq<Seq<char>>, b: Seq<Seq<char>>, c: Seq<Seq<char>>)
    requires
        extends(a, b),
        extends(b, c),
    ensures
        extends(a, c),
{
    assert(c.subrange(0, a.len() as int) =~= b.subrange(0, a.len() as int));
}

pub(crate) proof fn lemma_extends_refl(a: Seq<Seq<char>>)
    ensures
        extends(a, a),
{
    assert(a.subrange(0, a.len() as int) =~= a);
}

proof fn lemma_grow_identifier(src: Seq<Seq<char>>, dst: Seq<Seq<char>>, id: Identifier)
    ensures
        restamp_identifier_spec(src, dst, id) matches Ok((m, d)) ==> extends(dst, d),
{
    if let Ok(s) = spec_resolve(src, id) {
        lemma_intern_grows(dst, s);
    }
}

proof fn lemma_grow_reference(src: Seq<Seq<char>>, dst: Seq<Seq<char>>, r: ReferenceModel)
    ensures
        restamp_reference_spec(src, dst, r) matches Ok((m, d)) ==> extends(dst, d),
    decreases r,
{
    lemma_extends_refl(dst);
    match r {
        ReferenceModel::Plain(id) => lemma_grow_identifier(src, dst, id),
        ReferenceModel::SingleTypeApplication { argument, .. } => lemma_grow_reference(src, dst, *argument),
        ReferenceModel::MultiTypeApplication { arguments, .. } => lemma_grow_references(src, dst, arguments),
        _ => {},
    }
}

proof fn lemma_grow_references(src: Seq<Seq<char>>, dst: Seq<Seq<char>>, s: Seq<ReferenceModel>)
    ensures
        restamp_references_spec(src, dst, s) matches Ok((m, d)) ==> extends(dst, d),
    decreases s,
{
    lemma_extends_refl(dst);
    if s.len() > 0 {
        lemma_grow_reference(src, dst, s[0]);
        if let Ok((x, d1)) = restamp_reference_spec(src, dst, s[0]) {
            lemma_grow_references(src, d1, s.drop_first());
            if let Ok((rest, d2)) = restamp_references_spec(src, d1, s.drop_first()) {
                lemma_extends_trans(dst, d1, d2);
            }
        }
    }
}

proof fn lemma_grow_payload(src: Seq<Seq<char>>, dst: Seq<Seq<char>>, p: Option<ReferenceModel>)
    ensures
        restamp_payload_spec(src, dst, p) matches Ok((m, d)) ==> extends(dst, d),
{
    lemma_extends_refl(dst);
    if let Some(r) = p {
        lemma_grow_reference(src, dst, r);
    }
}

proof fn lemma_grow_fields(src: Seq<Seq<char>>, dst: Seq<Seq<char>>, s: Seq<FieldModel>)
    ensures
        restamp_fields_spec(src, dst, s) matches Ok((m, d)) ==> extends(dst, d),
    decreases s.len(),
{
    lemma_extends_refl(dst);
    if s.len() > 0 {
        lemma_grow_identifier(src, dst, s[0].identifier);
        if let Ok((id, d0)) = restamp_identifier_spec(src, dst, s[0].identifier) {
            lemma_grow_reference(src, d0, s[0].reference);
            if let Ok((r, d1)) = restamp_reference_spec(src, d0, s[0].reference) {
                lemma_extends_trans(dst, d0, d1);
                lemma_grow_fields(src, d1, s.drop_first());
                if let Ok((rest, d2)) = restamp_fields_spec(src, d1, s.drop_first()) {
                    lemma_extends_trans(dst, d1, d2);
                }
            }
        }
    }
}

proof fn lemma_grow_variants(src: Seq<Seq<char>>, dst: Seq<Seq<char>>, s: Seq<VariantModel>)
    ensures
        restamp_variants_spec(src, dst, s) matches Ok((m, d)) ==> extends(dst, d),
    decreases s.len(),
{
    lemma_extends_refl(dst);
    if s.len() > 0 {
        lemma_grow_identifier(src, dst, s[0].identifier);
        if let Ok((id, d0)) = restamp_identifier_spec(src, dst, s[0].identifier) {
            lemma_grow_payload(src, d0, s[0].payload);
            if let Ok((p, d1)) = restamp_payload_spec(src, d0, s[0].payload) {
                lemma_extends_trans(dst, d0, d1);
                lemma_grow_variants(src, d1, s.drop_first());
                if let Ok((rest, d2)) = restamp_variants_spec(src, d1, s.drop_first()) {
                    lemma_extends_trans(dst, d1, d2);
                }
            }
        }
    }
}

/// Re-stamping only ever appends to the target table.
pub proof fn lemma_grow_declaration(src: Seq<Seq<char>>, dst: Seq<Seq<char>>, d: DeclarationModel, identifier: Identifier)
    ensures
        restamp_declaration_spec(src, dst, d, identifier) matches Ok((m, t)) ==> extends(dst, t),
{
    match d.value {
        TypeModel::Newtype { reference, .. } => lemma_grow_reference(src, dst, reference),
        TypeModel::Struct { fields, .. } => lemma_grow_fields(src, dst, fields),
        TypeModel::Enumeration { variants, .. } => lemma_grow_variants(src, dst, variants),
    }
}

pub(crate) proof fn lemma_same_name_extend(n1: Seq<Seq<char>>, id1: Identifier, n2: Seq<Seq<char>>, id2: Identifier, n3: Seq<Seq<char>>)
    requires
        same_name(n1, id1, n2, id2),
        extends(n2, n3),
    ensures
        same_name(n1, id1, n3, id2),
{
    assert(n3.subrange(0, n2.len() as int)[id2.index as int] == n3[id2.index as int]);
}

proof fn lemma_same_reference_extend(n1: Seq<Seq<char>>, r1: ReferenceModel, n2: Seq<Seq<char>>, r2: ReferenceModel, n3: Seq<Seq<char>>)
    requires
        same_reference(n1, r1, n2, r2),
        extends(n2, n3),
    ensures
        same_reference(n1, r1, n3, r2),
    decreases r1,
{
    match r1 {
        ReferenceModel::Plain(id1) => {
            if let ReferenceModel::Plain(id2) = r2 {
                lemma_same_name_extend(n1, id1, n2, id2, n3);
            }
        },
        ReferenceModel::SingleTypeApplication { argument: a1, .. } => {
            if let ReferenceModel::SingleTypeApplication { argument: a2, .. } = r2 {
                lemma_same_reference_extend(n1, *a1, n2, *a2, n3);
            }
        },
        ReferenceModel::MultiTypeApplication { arguments: a1, .. } => {
            if let ReferenceModel::MultiTypeApplication { arguments: a2, .. } = r2 {
                lemma_same_references_extend(n1, a1, n2, a2, n3);
            }
        },
        _ => {},
    }
}

proof fn lemma_same_references_extend(n1: Seq<Seq<char>>, s1: Seq<ReferenceModel>, n2: Seq<Seq<char>>, s2: Seq<ReferenceModel>, n3: Seq<Seq<char>>)
    requires
        same_references(n1, s1, n2, s2),
        extends(n2, n3),
    ensures
        same_references(n1, s1, n3, s2),
    decreases s1,
{
    if s1.len() > 0 {
        lemma_same_reference_extend(n1, s1[0], n2, s2[0], n3);
        lemma_same_references_extend(n1, s1.drop_first(), n2, s2.drop_first(), n3);
    }
}

proof fn lemma_same_payload_extend(n1: Seq<Seq<char>>, p1: Option<ReferenceModel>, n2: Seq<Seq<char>>, p2: Option<ReferenceModel>, n3: Seq<Seq<char>>)
    requires
        same_payload(n1, p1, n2, p2),
        extends(n2, n3),
    ensures
        same_payload(n1, p1, n3, p2),
{
    if let Some(r1) = p1 {
        lemma_same_reference_extend(n1, r1, n2, p2->Some_0, n3);
    }
}

proof fn lemma_same_fields_extend(n1: Seq<Seq<char>>, s1: Seq<FieldModel>, n2: Seq<Seq<char>>, s2: Seq<FieldModel>, n3: Seq<Seq<char>>)
    requires
        same_fields(n1, s1, n2, s2),
        extends(n2, n3),
    ensures
        same_fields(n1, s1, n3, s2),
{
    assert forall|i: int| 0 <= i < s1.len() implies #[trigger] same_field(n1, s1[i], n3, s2[i]) by {
        assert(same_field(n1, s1[i], n2, s2[i]));
        lemma_same_name_extend(n1, s1[i].identifier, n2, s2[i].identifier, n3);
        lemma_same_reference_extend(n1, s1[i].reference, n2, s2[i].reference, n3);
    }
}

proof fn lemma_same_variants_extend(n1: Seq<Seq<char>>, s1: Seq<VariantModel>, n2: Seq<Seq<char>>, s2: Seq<VariantModel>, n3: Seq<Seq<char>>)
    requires
        same_variants(n1, s1, n2, s2),
        extends(n2, n3),
    ensures
        same_variants(n1, s1, n3, s2),
{
    assert forall|i: int| 0 <= i < s1.len() implies #[trigger] same_variant(n1, s1[i], n3, s2[i]) by {
        assert(same_variant(n1, s1[i], n2, s2[i]));
        lemma_same_name_extend(n1, s1[i].identifier, n2, s2[i].identifier, n3);
        lemma_same_payload_extend(n1, s1[i].payload, n2, s2[i].payload, n3);
    }
}

/// Content read against `n2` reads the same against any table that extends `n2`.
pub proof fn lemma_same_type_extend(n1: Seq<Seq<char>>, t1: TypeModel, n2: Seq<Seq<char>>, t2: TypeModel, n3: Seq<Seq<char>>)
    requires
        same_type(n1, t1, n2, t2),
        extends(n2, n3),
    ensures
        same_type(n1, t1, n3, t2),
{
    lemma_same_name_extend(n1, t1.identifier(), n2, t2.identifier(), n3);
    match t1 {
        TypeModel::Newtype { reference: r1, .. } => {
            if let TypeModel::Newtype { reference: r2, .. } = t2 {
                lemma_same_reference_extend(n1, r1, n2, r2, n3);
            }
        },
        TypeModel::Struct { fields: f1, .. } => {
            if let TypeModel::Struct { fields: f2, .. } = t2 {
                lemma_same_fields_extend(n1, f1, n2, f2, n3);
            }
        },
        TypeModel::Enumeration { variants: v1, .. } => {
            if let TypeModel::Enumeration { variants: v2, .. } = t2 {
                lemma_same_variants_extend(n1, v1, n2, v2, n3);
            }
        },
    }
}

proof fn lemma_restamp_identifier_content(src: Seq<Seq<char>>, dst: Seq<Seq<char>>, id: Identifier)
    requires
        distinct_spellings(dst),
        restamp_identifier_spec(src, dst, id) is Ok,
        restamp_identifier_spec(src, dst, id)->Ok_0.1.len() <= usize::MAX,
    ensures
        ({
            let (m, d) = restamp_identifier_spec(src, dst, id)->Ok_0;
            &&& distinct_spellings(d)
            &&& extends(dst, d)
            &&& same_name(src, id, d, m)
        }),
{
    let s = spec_resolve(src, id)->Ok_0;
    lemma_intern(dst, s);
}

proof fn lemma_restamp_reference_content(src: Seq<Seq<char>>, dst: Seq<Seq<char>>, r: ReferenceModel)
    requires
        distinct_spellings(dst),
        restamp_reference_spec(src, dst, r) is Ok,
        restamp_reference_spec(src, dst, r)->Ok_0.1.len() <= usize::MAX,
    ensures
        ({
            let (m, d) = restamp_reference_spec(src, dst, r)->Ok_0;
            &&& distinct_spellings(d)
            &&& extends(dst, d)
            &&& same_reference(src, r, d, m)
        }),
    decreases r,
{
    lemma_extends_refl(dst);
    match r {
        ReferenceModel::Plain(id) => lemma_restamp_identifier_content(src, dst, id),
        ReferenceModel::SingleTypeApplication { argument, .. } => {
            lemma_restamp_reference_content(src, dst, *argument)
        },
        ReferenceModel::MultiTypeApplication { arguments, .. } => {
            lemma_restamp_references_content(src, dst, arguments)
        },
        _ => {},
    }
}

proof fn lemma_restamp_references_content(src: Seq<Seq<char>>, dst: Seq<Seq<char>>, s: Seq<ReferenceModel>)
    requires
        distinct_spellings(dst),
        restamp_references_spec(src, dst, s) is Ok,
        restamp_references_spec(src, dst, s)->Ok_0.1.len() <= usize::MAX,
    ensures
        ({
            let (m, d) = restamp_references_spec(src, dst, s)->Ok_0;
            &&& distinct_spellings(d)
            &&& extends(dst, d)
            &&& same_references(src, s, d, m)
        }),
    decreases s,
{
    lemma_extends_refl(dst);
    if s.len() > 0 {
        let (x, d1) = restamp_reference_spec(src, dst, s[0])->Ok_0;
        let (rest, d2) = restamp_references_spec(src, d1, s.drop_first())->Ok_0;
        lemma_grow_references(src, d1, s.drop_first());
        lemma_restamp_reference_content(src, dst, s[0]);
        lemma_restamp_references_content(src, d1, s.drop_first());
        lemma_extends_trans(dst, d1, d2);
        lemma_same_reference_extend(src, s[0], d1, x, d2);
        let all = seq![x] + rest;
        assert(all[0] == x);
        assert(all.drop_first() =~= rest);
    }
}

proof fn lemma_restamp_fields_content(src: Seq<Seq<char>>, dst: Seq<Seq<char>>, s: Seq<FieldModel>)
    requires
        distinct_spellings(dst),
        restamp_fields_spec(src, dst, s) is Ok,
        restamp_fields_spec(src, dst, s)->Ok_0.1.len() <= usize::MAX,
    ensures
        ({
            let (m, d) = restamp_fields_spec(src, dst, s)->Ok_0;
            &&& distinct_spellings(d)
            &&& extends(dst, d)
            &&& same_fields(src, s, d, m)
        }),
    decreases s.len(),
{
    lemma_extends_refl(dst);
    if s.len() > 0 {
        let (id, d0) = restamp_identifier_spec(src, dst, s[0].identifier)->Ok_0;
        let (r, d1) = restamp_reference_spec(src, d0, s[0].reference)->Ok_0;
        let (rest, d2) = restamp_fields_spec(src, d1, s.drop_first())->Ok_0;
        lemma_grow_fields(src, d1, s.drop_first());
        lemma_grow_reference(src, d0, s[0].reference);
        lemma_restamp_identifier_content(src, dst, s[0].identifier);
        lemma_restamp_reference_content(src, d0, s[0].reference);
        lemma_restamp_fields_content(src, d1, s.drop_first());
        lemma_extends_trans(d0, d1, d2);
        lemma_extends_trans(dst, d0, d2);
        lemma_same_name_extend(src, s[0].identifier, d0, id, d2);
        lemma_same_reference_extend(src, s[0].reference, d1, r, d2);
        let all = seq![FieldModel { identifier: id, reference: r }] + rest;
        assert forall|i: int| 0 <= i < s.len() implies #[trigger] same_field(src, s[i], d2, all[i]) by {
            if i > 0 {
                assert(all[i] == rest[i - 1]);
                assert(s[i] == s.drop_first()[i - 1]);
                assert(same_field(src, s.drop_first()[i - 1], d2, rest[i - 1]));
            }
        }
    }
}

proof fn lemma_restamp_variants_content(src: Seq<Seq<char>>, dst: Seq<Seq<char>>, s: Seq<VariantModel>)
    requires
        distinct_spellings(dst),
        restamp_variants_spec(src, dst, s) is Ok,
        restamp_variants_spec(src, dst, s)->Ok_0.1.len() <= usize::MAX,
    ensures
        ({
            let (m, d) = restamp_variants_spec(src, dst, s)->Ok_0;
            &&& distinct_spellings(d)
            &&& extends(dst, d)
            &&& same_variants(src, s, d, m)
        }),
    decreases s.len(),
{
    lemma_extends_refl(dst);
    if s.len() > 0 {
        let (id, d0) = restamp_identifier_spec(src, dst, s[0].identifier)->Ok_0;
        let (p, d1) = restamp_payload_spec(src, d0, s[0].payload)->Ok_0;
        let (rest, d2) = restamp_variants_spec(src, d1, s.drop_first())->Ok_0;
        lemma_grow_variants(src, d1, s.drop_first());
        lemma_grow_payload(src, d0, s[0].payload);
        lemma_restamp_identifier_content(src, dst, s[0].identifier);
        if let Some(r) = s[0].payload {
            lemma_restamp_reference_content(src, d0, r);
            lemma_same_reference_extend(src, r, d1, p->Some_0, d2);
        } else {
            lemma_extends_refl(d0);
        }
        lemma_restamp_variants_content(src, d1, s.drop_first());
        lemma_extends_trans(d0, d1, d2);
        lemma_extends_trans(dst, d0, d2);
        lemma_same_name_extend(src, s[0].identifier, d0, id, d2);
        let all = seq![VariantModel { identifier: id, payload: p }] + rest;
        assert forall|i: int| 0 <= i < s.len() implies #[trigger] same_variant(src, s[i], d2, all[i]) by {
            if i > 0 {
                assert(all[i] == rest[i - 1]);
                assert(s[i] == s.drop_first()[i - 1]);
                assert(same_variant(src, s.drop_first()[i - 1], d2, rest[i - 1]));
            }
        }
    }
}

/// A re-stamped declaration states the same content against the target table, under the
/// name `identifier`, as the declaration it came from does against the source table: same
/// role, the visibility a re-stamp gives it, and the same body. The target table only grows
/// and keeps its spellings distinct.
pub proof fn lemma_restamp_declaration_content(src: Seq<Seq<char>>, dst: Seq<Seq<char>>, d: DeclarationModel, identifier: Identifier)
    requires
        distinct_spellings(dst),
        same_name(src, d.value.identifier(), dst, identifier),
        restamp_declaration_spec(src, dst, d, identifier) is Ok,
        restamp_declaration_spec(src, dst, d, identifier)->Ok_0.1.len() <= usize::MAX,
    ensures
        ({
            let (m, t) = restamp_declaration_spec(src, dst, d, identifier)->Ok_0;
            &&& distinct_spellings(t)
            &&& extends(dst, t)
            &&& m.role == d.role
            &&& m.visibility == restamped_visibility(d)
            &&& same_type(src, d.value, t, m.value)
        }),
{
    let (m, t) = restamp_declaration_spec(src, dst, d, identifier)->Ok_0;
    match d.value {
        TypeModel::Newtype { reference, .. } => lemma_restamp_reference_content(src, dst, reference),
        TypeModel::Struct { fields, .. } => lemma_restamp_fields_content(src, dst, fields),
        TypeModel::Enumeration { variants, .. } => lemma_restamp_variants_content(src, dst, variants),
    }
    lemma_same_name_extend(src, d.value.identifier(), dst, identifier, t);
}

} // verus!
