//! Reading a structural fingerprint back: the fold is prefix-free, so equal fingerprints
//! come only from declarations of the same structure.

use vstd::prelude::*;

use crate::declaration::{DeclarationModel, FieldModel, ReferenceModel, TypeModel, VariantModel};
use crate::names::spec_resolve;
use crate::restamp::{same_body, same_declaration, same_field, same_fields, same_reference, same_references, same_variant, same_variants};
use crate::shape::{
    declared_key_spec,
    declared_shape_spec,
    fold_field_spec,
    fold_fields_spec,
    fold_reference_spec,
    fold_references_spec,
    fold_variant_spec,
    fold_variants_spec,
    le_bytes,
    role_tag,
    visibility_tag,
    HashInputModel,
};

verus! {

/// Every count that the fold of `r` writes fits the eight bytes it is written in.
pub open spec fn bounded_reference(r: ReferenceModel) -> bool
    decreases r,
{
    match r {
        ReferenceModel::SingleTypeApplication { argument, .. } => bounded_reference(*argument),
        ReferenceModel::MultiTypeApplication { arguments, .. } => arguments.len() <= u64::MAX
            && bounded_references(arguments),
        _ => true,
    }
}

pub open spec fn bounded_references(s: Seq<ReferenceModel>) -> bool
    decreases s,
{
    s.len() == 0 || (bounded_reference(s[0]) && bounded_references(s.drop_first()))
}

/// Every count that the fold of the fields `s` writes fits its eight bytes.
pub open spec fn bounded_fields(s: Seq<FieldModel>) -> bool {
    &&& s.len() <= u64::MAX
    &&& forall|i: int| 0 <= i < s.len() ==> #[trigger] bounded_reference(s[i].reference)
}

/// Every count that the fold of the variants `s` writes fits its eight bytes.
pub open spec fn bounded_variants(s: Seq<VariantModel>) -> bool {
    &&& s.len() <= u64::MAX
    &&& forall|i: int| 0 <= i < s.len() ==> (#[trigger] s[i].payload matches Some(r) ==> bounded_reference(r))
}

/// Every count that the fingerprint of `d` writes fits its eight bytes, as the lengths of a
/// declaration held in memory do.
pub open spec fn bounded_declaration(d: DeclarationModel) -> bool {
    match d.value {
        TypeModel::Newtype { reference, .. } => bounded_reference(reference),
        TypeModel::Struct { fields, .. } => bounded_fields(fields),
        TypeModel::Enumeration { variants, .. } => bounded_variants(variants),
    }
}

/// The tag that opens the fold of a reference of `r`'s kind.
pub open spec fn reference_tag(r: ReferenceModel) -> u8 {
    match r {
        ReferenceModel::String => 0,
        ReferenceModel::Integer => 1,
        ReferenceModel::Boolean => 2,
        ReferenceModel::Bytes => 3,
        ReferenceModel::Plain(_) => 4,
        ReferenceModel::SingleTypeApplication { .. } => 5,
        ReferenceModel::MultiTypeApplication { .. } => 6,
        ReferenceModel::ValueApplication { .. } => 7,
    }
}

/// The fold of a reference opens with raw bytes whose first byte is its kind's tag.
proof fn lemma_fold_opens_with_tag(names: Seq<Seq<char>>, r: ReferenceModel)
    requires
        fold_reference_spec(names, r) is Ok,
    ensures
        fold_reference_spec(names, r)->Ok_0.len() > 0,
        fold_reference_spec(names, r)->Ok_0[0] is Raw,
        fold_reference_spec(names, r)->Ok_0[0]->Raw_0.len() > 0,
        fold_reference_spec(names, r)->Ok_0[0]->Raw_0[0] == reference_tag(r),
{
}

/// The tag that opens the fold of a body of `t`'s kind.
pub open spec fn body_tag(t: TypeModel) -> u8 {
    match t {
        TypeModel::Newtype { .. } => 0,
        TypeModel::Struct { .. } => 1,
        TypeModel::Enumeration { .. } => 2,
    }
}

/// A fingerprint opens with role and visibility, then the body's tag.
proof fn lemma_shape_opens(names: Seq<Seq<char>>, d: DeclarationModel)
    requires
        declared_shape_spec(names, d) is Ok,
    ensures
        declared_shape_spec(names, d)->Ok_0.len() >= 2,
        declared_shape_spec(names, d)->Ok_0[0] == crate::shape::raw2(role_tag(d.role), visibility_tag(d.visibility)),
        declared_shape_spec(names, d)->Ok_0[1] == crate::shape::raw1(body_tag(d.value)),
        declared_shape_spec(names, d)->Ok_0[1]->Raw_0[0] == body_tag(d.value),
{
}

/// The fold of a variant holds its name, then 1 where it has a payload, else 0.
proof fn lemma_variant_opens(names: Seq<Seq<char>>, v: VariantModel)
    requires
        fold_variant_spec(names, v) is Ok,
    ensures
        fold_variant_spec(names, v)->Ok_0.len() >= 2,
        fold_variant_spec(names, v)->Ok_0[1] == crate::shape::raw1(if v.payload is Some { 1 } else { 0 }),
        fold_variant_spec(names, v)->Ok_0[1]->Raw_0[0] == (if v.payload is Some { 1u8 } else { 0u8 }),
{
}

/// The little-endian bytes of a `u64` determine it.
pub proof fn lemma_le_bytes_injective(a: u64, b: u64)
    requires
        le_bytes(a) == le_bytes(b),
    ensures
        a == b,
{
    assert(le_bytes(a)[0] == le_bytes(b)[0]);
    assert(le_bytes(a)[1] == le_bytes(b)[1]);
    assert(le_bytes(a)[2] == le_bytes(b)[2]);
    assert(le_bytes(a)[3] == le_bytes(b)[3]);
    assert(le_bytes(a)[4] == le_bytes(b)[4]);
    assert(le_bytes(a)[5] == le_bytes(b)[5]);
    assert(le_bytes(a)[6] == le_bytes(b)[6]);
    assert(le_bytes(a)[7] == le_bytes(b)[7]);
    assert(a == b) by (bit_vector)
        requires
            a as u8 == b as u8,
            (a >> 8u64) as u8 == (b >> 8u64) as u8,
            (a >> 16u64) as u8 == (b >> 16u64) as u8,
            (a >> 24u64) as u8 == (b >> 24u64) as u8,
            (a >> 32u64) as u8 == (b >> 32u64) as u8,
            (a >> 40u64) as u8 == (b >> 40u64) as u8,
            (a >> 48u64) as u8 == (b >> 48u64) as u8,
            (a >> 56u64) as u8 == (b >> 56u64) as u8,
    ;
}

/// The UTF-8 bytes of a spelling determine it.
pub proof fn lemma_spelling_bytes_injective(a: Seq<char>, b: Seq<char>)
    requires
        crate::shape::spelling_bytes(a) == crate::shape::spelling_bytes(b),
    ensures
        a == b,
{
    vstd::utf8::encode_utf8_decode_utf8(a);
    vstd::utf8::encode_utf8_decode_utf8(b);
}

/// Where `a + x == b + y` and `a` and `b` have one length, `a == b` and `x == y`.
proof fn lemma_split_equal(a: Seq<HashInputModel>, x: Seq<HashInputModel>, b: Seq<HashInputModel>, y: Seq<HashInputModel>)
    requires
        a + x == b + y,
        a.len() == b.len(),
    ensures
        a == b,
        x == y,
{
    assert(a =~= (a + x).take(a.len() as int));
    assert(b =~= (b + y).take(b.len() as int));
    assert(x =~= (a + x).skip(a.len() as int));
    assert(y =~= (b + y).skip(b.len() as int));
}

/// The fold of a reference is prefix-free and determines the reference's structure: where
/// the folds of two references, each read against its own name table, continue alike into
/// whatever follows them, the two folds are equal and the references are the same.
pub proof fn law_reference_fold_prefix_free(
    n1: Seq<Seq<char>>,
    r1: ReferenceModel,
    n2: Seq<Seq<char>>,
    r2: ReferenceModel,
    x: Seq<HashInputModel>,
    y: Seq<HashInputModel>,
)
    requires
        bounded_reference(r1),
        bounded_reference(r2),
        fold_reference_spec(n1, r1) is Ok,
        fold_reference_spec(n2, r2) is Ok,
        fold_reference_spec(n1, r1)->Ok_0 + x == fold_reference_spec(n2, r2)->Ok_0 + y,
    ensures
        fold_reference_spec(n1, r1) == fold_reference_spec(n2, r2),
        same_reference(n1, r1, n2, r2),
    decreases r1,
{
    let t1 = fold_reference_spec(n1, r1)->Ok_0;
    let t2 = fold_reference_spec(n2, r2)->Ok_0;
    lemma_fold_opens_with_tag(n1, r1);
    lemma_fold_opens_with_tag(n2, r2);
    assert((t1 + x)[0] == t1[0]);
    assert((t2 + y)[0] == t2[0]);
    assert(reference_tag(r1) == reference_tag(r2));
    match r1 {
        ReferenceModel::Plain(id1) => {
            if let ReferenceModel::Plain(id2) = r2 {
                assert((t1 + x)[1] == t1[1]);
                assert((t2 + y)[1] == t2[1]);
                let s1 = crate::names::spec_resolve(n1, id1)->Ok_0;
                let s2 = crate::names::spec_resolve(n2, id2)->Ok_0;
                lemma_spelling_bytes_injective(s1, s2);
                assert(t1 =~= t2);
            }
        },
        ReferenceModel::SingleTypeApplication { projection: p1, argument: a1 } => {
            if let ReferenceModel::SingleTypeApplication { projection: p2, argument: a2 } = r2 {
                let u1 = fold_reference_spec(n1, *a1)->Ok_0;
                let u2 = fold_reference_spec(n2, *a2)->Ok_0;
                assert(t1 + x =~= seq![t1[0]] + (u1 + x));
                assert(t2 + y =~= seq![t2[0]] + (u2 + y));
                lemma_split_equal(seq![t1[0]], u1 + x, seq![t2[0]], u2 + y);
                law_reference_fold_prefix_free(n1, *a1, n2, *a2, x, y);
            }
        },
        ReferenceModel::MultiTypeApplication { projection: p1, arguments: a1 } => {
            if let ReferenceModel::MultiTypeApplication { projection: p2, arguments: a2 } = r2 {
                let u1 = fold_references_spec(n1, a1)->Ok_0;
                let u2 = fold_references_spec(n2, a2)->Ok_0;
                let h1 = seq![t1[0], t1[1]];
                let h2 = seq![t2[0], t2[1]];
                assert(t1 + x =~= h1 + (u1 + x));
                assert(t2 + y =~= h2 + (u2 + y));
                lemma_split_equal(h1, u1 + x, h2, u2 + y);
                assert(h1[1] == h2[1]);
                lemma_le_bytes_injective(a1.len() as u64, a2.len() as u64);
                lemma_references_fold_prefix_free(n1, a1, n2, a2, x, y);
            }
        },
        ReferenceModel::ValueApplication { projection: p1, value: v1 } => {
            if let ReferenceModel::ValueApplication { projection: p2, value: v2 } = r2 {
                assert((t1 + x)[1] == t1[1]);
                assert((t2 + y)[1] == t2[1]);
                lemma_le_bytes_injective(v1, v2);
            }
        },
        _ => {},
    }
}

/// The folds of two equally long sequences of references, continuing alike, are equal and
/// the references are the same position by position.
pub proof fn lemma_references_fold_prefix_free(
    n1: Seq<Seq<char>>,
    s1: Seq<ReferenceModel>,
    n2: Seq<Seq<char>>,
    s2: Seq<ReferenceModel>,
    x: Seq<HashInputModel>,
    y: Seq<HashInputModel>,
)
    requires
        s1.len() == s2.len(),
        bounded_references(s1),
        bounded_references(s2),
        fold_references_spec(n1, s1) is Ok,
        fold_references_spec(n2, s2) is Ok,
        fold_references_spec(n1, s1)->Ok_0 + x == fold_references_spec(n2, s2)->Ok_0 + y,
    ensures
        fold_references_spec(n1, s1) == fold_references_spec(n2, s2),
        same_references(n1, s1, n2, s2),
    decreases s1,
{
    if s1.len() > 0 {
        let v1 = fold_reference_spec(n1, s1[0])->Ok_0;
        let v2 = fold_reference_spec(n2, s2[0])->Ok_0;
        let w1 = fold_references_spec(n1, s1.drop_first())->Ok_0;
        let w2 = fold_references_spec(n2, s2.drop_first())->Ok_0;
        assert((v1 + w1) + x =~= v1 + (w1 + x));
        assert((v2 + w2) + y =~= v2 + (w2 + y));
        law_reference_fold_prefix_free(n1, s1[0], n2, s2[0], w1 + x, w2 + y);
        lemma_split_equal(v1, w1 + x, v2, w2 + y);
        lemma_references_fold_prefix_free(n1, s1.drop_first(), n2, s2.drop_first(), x, y);
    }
}

/// The folds of two equally long sequences of fields, continuing alike, are equal and the
/// fields are the same position by position.
proof fn lemma_fields_fold_prefix_free(
    n1: Seq<Seq<char>>,
    s1: Seq<FieldModel>,
    n2: Seq<Seq<char>>,
    s2: Seq<FieldModel>,
    x: Seq<HashInputModel>,
    y: Seq<HashInputModel>,
)
    requires
        s1.len() == s2.len(),
        forall|i: int| 0 <= i < s1.len() ==> #[trigger] bounded_reference(s1[i].reference),
        forall|i: int| 0 <= i < s2.len() ==> #[trigger] bounded_reference(s2[i].reference),
        fold_fields_spec(n1, s1) is Ok,
        fold_fields_spec(n2, s2) is Ok,
        fold_fields_spec(n1, s1)->Ok_0 + x == fold_fields_spec(n2, s2)->Ok_0 + y,
    ensures
        fold_fields_spec(n1, s1) == fold_fields_spec(n2, s2),
        same_fields(n1, s1, n2, s2),
    decreases s1.len(),
{
    if s1.len() > 0 {
        let f1 = s1[0];
        let f2 = s2[0];
        assert(bounded_reference(s1[0].reference));
        assert(bounded_reference(s2[0].reference));
        let v1 = fold_reference_spec(n1, f1.reference)->Ok_0;
        let v2 = fold_reference_spec(n2, f2.reference)->Ok_0;
        let w1 = fold_fields_spec(n1, s1.drop_first())->Ok_0;
        let w2 = fold_fields_spec(n2, s2.drop_first())->Ok_0;
        let a1 = spec_resolve(n1, f1.identifier)->Ok_0;
        let a2 = spec_resolve(n2, f2.identifier)->Ok_0;
        let h1 = seq![HashInputModel::LengthPrefixed(crate::shape::spelling_bytes(a1))];
        let h2 = seq![HashInputModel::LengthPrefixed(crate::shape::spelling_bytes(a2))];
        assert(fold_fields_spec(n1, s1)->Ok_0 + x =~= h1 + (v1 + (w1 + x)));
        assert(fold_fields_spec(n2, s2)->Ok_0 + y =~= h2 + (v2 + (w2 + y)));
        lemma_split_equal(h1, v1 + (w1 + x), h2, v2 + (w2 + y));
        assert(h1[0] == h2[0]);
        lemma_spelling_bytes_injective(a1, a2);
        law_reference_fold_prefix_free(n1, f1.reference, n2, f2.reference, w1 + x, w2 + y);
        lemma_split_equal(v1, w1 + x, v2, w2 + y);
        assert forall|i: int| 0 <= i < s1.len() - 1 implies #[trigger] bounded_reference(s1.drop_first()[i].reference) by {
            assert(bounded_reference(s1[i + 1].reference));
        }
        assert forall|i: int| 0 <= i < s2.len() - 1 implies #[trigger] bounded_reference(s2.drop_first()[i].reference) by {
            assert(bounded_reference(s2[i + 1].reference));
        }
        lemma_fields_fold_prefix_free(n1, s1.drop_first(), n2, s2.drop_first(), x, y);
        assert forall|i: int| 0 <= i < s1.len() implies #[trigger] same_field(n1, s1[i], n2, s2[i]) by {
            if i > 0 {
                assert(same_field(n1, s1.drop_first()[i - 1], n2, s2.drop_first()[i - 1]));
            }
        }
    }
}

/// The folds of two equally long sequences of variants, continuing alike, are equal and
/// the variants are the same position by position.
proof fn lemma_variants_fold_prefix_free(
    n1: Seq<Seq<char>>,
    s1: Seq<VariantModel>,
    n2: Seq<Seq<char>>,
    s2: Seq<VariantModel>,
    x: Seq<HashInputModel>,
    y: Seq<HashInputModel>,
)
    requires
        s1.len() == s2.len(),
        forall|i: int| 0 <= i < s1.len() ==> (#[trigger] s1[i].payload matches Some(r) ==> bounded_reference(r)),
        forall|i: int| 0 <= i < s2.len() ==> (#[trigger] s2[i].payload matches Some(r) ==> bounded_reference(r)),
        fold_variants_spec(n1, s1) is Ok,
        fold_variants_spec(n2, s2) is Ok,
        fold_variants_spec(n1, s1)->Ok_0 + x == fold_variants_spec(n2, s2)->Ok_0 + y,
    ensures
        fold_variants_spec(n1, s1) == fold_variants_spec(n2, s2),
        same_variants(n1, s1, n2, s2),
    decreases s1.len(),
{
    if s1.len() > 0 {
        let g1 = s1[0];
        let g2 = s2[0];
        let w1 = fold_variants_spec(n1, s1.drop_first())->Ok_0;
        let w2 = fold_variants_spec(n2, s2.drop_first())->Ok_0;
        let p1 = fold_variant_spec(n1, g1)->Ok_0;
        let p2 = fold_variant_spec(n2, g2)->Ok_0;
        let a1 = spec_resolve(n1, g1.identifier)->Ok_0;
        let a2 = spec_resolve(n2, g2.identifier)->Ok_0;
        let h1 = seq![HashInputModel::LengthPrefixed(crate::shape::spelling_bytes(a1))];
        let h2 = seq![HashInputModel::LengthPrefixed(crate::shape::spelling_bytes(a2))];
        let b1 = p1.skip(1);
        let b2 = p2.skip(1);
        assert(p1 =~= h1 + b1);
        assert(p2 =~= h2 + b2);
        assert(fold_variants_spec(n1, s1)->Ok_0 + x =~= h1 + (b1 + (w1 + x)));
        assert(fold_variants_spec(n2, s2)->Ok_0 + y =~= h2 + (b2 + (w2 + y)));
        lemma_split_equal(h1, b1 + (w1 + x), h2, b2 + (w2 + y));
        assert(h1[0] == h2[0]);
        lemma_spelling_bytes_injective(a1, a2);
        assert((b1 + (w1 + x))[0] == b1[0]);
        assert((b2 + (w2 + y))[0] == b2[0]);
        lemma_variant_opens(n1, g1);
        lemma_variant_opens(n2, g2);
        assert(b1[0] == p1[1]);
        assert(b2[0] == p2[1]);
        assert(g1.payload is Some <==> g2.payload is Some);
        match g1.payload {
            Some(r1) => {
                if let Some(r2) = g2.payload {
                    assert(g1.payload matches Some(r) ==> bounded_reference(r));
                    assert(s2[0].payload matches Some(r) ==> bounded_reference(r));
                    let v1 = fold_reference_spec(n1, r1)->Ok_0;
                    let v2 = fold_reference_spec(n2, r2)->Ok_0;
                    assert(b1 =~= seq![b1[0]] + v1);
                    assert(b2 =~= seq![b2[0]] + v2);
                    assert(b1 + (w1 + x) =~= seq![b1[0]] + (v1 + (w1 + x)));
                    assert(b2 + (w2 + y) =~= seq![b2[0]] + (v2 + (w2 + y)));
                    lemma_split_equal(seq![b1[0]], v1 + (w1 + x), seq![b2[0]], v2 + (w2 + y));
                    law_reference_fold_prefix_free(n1, r1, n2, r2, w1 + x, w2 + y);
                    lemma_split_equal(v1, w1 + x, v2, w2 + y);
                }
            },
            None => {
                if g2.payload is None {
                    lemma_split_equal(b1, w1 + x, b2, w2 + y);
                }
            },
        }
        assert forall|i: int| 0 <= i < s1.len() - 1 implies (#[trigger] s1.drop_first()[i].payload matches Some(r)
            ==> bounded_reference(r)) by {
            assert(s1[i + 1].payload matches Some(r) ==> bounded_reference(r));
        }
        assert forall|i: int| 0 <= i < s2.len() - 1 implies (#[trigger] s2.drop_first()[i].payload matches Some(r)
            ==> bounded_reference(r)) by {
            assert(s2[i + 1].payload matches Some(r) ==> bounded_reference(r));
        }
        lemma_variants_fold_prefix_free(n1, s1.drop_first(), n2, s2.drop_first(), x, y);
        assert forall|i: int| 0 <= i < s1.len() implies #[trigger] same_variant(n1, s1[i], n2, s2[i]) by {
            if i > 0 {
                assert(same_variant(n1, s1.drop_first()[i - 1], n2, s2.drop_first()[i - 1]));
            }
        }
    }
}

/// The structural fingerprint determines the declared structure: where two declarations,
/// each read against its own name table, have fingerprints that resolve and are equal, they
/// have the same role, the same visibility and bodies of the same structure. Declarations
/// that differ in any of these get different fingerprints.
pub proof fn law_shape_determines_structure(n1: Seq<Seq<char>>, d1: DeclarationModel, n2: Seq<Seq<char>>, d2: DeclarationModel)
    requires
        bounded_declaration(d1),
        bounded_declaration(d2),
        declared_shape_spec(n1, d1) is Ok,
        declared_shape_spec(n1, d1) == declared_shape_spec(n2, d2),
    ensures
        d1.role == d2.role,
        d1.visibility == d2.visibility,
        same_body(n1, d1.value, n2, d2.value),
{
    let t1 = declared_shape_spec(n1, d1)->Ok_0;
    let t2 = declared_shape_spec(n2, d2)->Ok_0;
    let e = Seq::<HashInputModel>::empty();
    let b1 = t1.skip(1);
    let b2 = t2.skip(1);
    assert(t1 =~= seq![t1[0]] + b1);
    assert(t2 =~= seq![t2[0]] + b2);
    assert(t1[0] == t2[0]);
    assert(t1[0]->Raw_0[0] == role_tag(d1.role));
    assert(t2[0]->Raw_0[0] == role_tag(d2.role));
    assert(t1[0]->Raw_0[1] == visibility_tag(d1.visibility));
    assert(t2[0]->Raw_0[1] == visibility_tag(d2.visibility));
    assert(b1 == b2);
    assert(b1[0] == b2[0]);
    lemma_shape_opens(n1, d1);
    lemma_shape_opens(n2, d2);
    assert(b1[0] == t1[1]);
    assert(b2[0] == t2[1]);
    assert(body_tag(d1.value) == body_tag(d2.value));
    match d1.value {
        TypeModel::Newtype { reference: r1, .. } => {
            if let TypeModel::Newtype { reference: r2, .. } = d2.value {
                let v1 = fold_reference_spec(n1, r1)->Ok_0;
                let v2 = fold_reference_spec(n2, r2)->Ok_0;
                assert(b1 =~= seq![b1[0]] + v1);
                assert(b2 =~= seq![b2[0]] + v2);
                lemma_split_equal(seq![b1[0]], v1, seq![b2[0]], v2);
                assert(v1 + e =~= v1);
                assert(v2 + e =~= v2);
                law_reference_fold_prefix_free(n1, r1, n2, r2, e, e);
            }
        },
        TypeModel::Struct { fields: f1, .. } => {
            if let TypeModel::Struct { fields: f2, .. } = d2.value {
                let v1 = fold_fields_spec(n1, f1)->Ok_0;
                let v2 = fold_fields_spec(n2, f2)->Ok_0;
                let h1 = seq![b1[0], b1[1]];
                let h2 = seq![b2[0], b2[1]];
                assert(b1 =~= h1 + v1);
                assert(b2 =~= h2 + v2);
                lemma_split_equal(h1, v1, h2, v2);
                assert(h1[1] == h2[1]);
                lemma_le_bytes_injective(f1.len() as u64, f2.len() as u64);
                assert(v1 + e =~= v1);
                assert(v2 + e =~= v2);
                lemma_fields_fold_prefix_free(n1, f1, n2, f2, e, e);
            }
        },
        TypeModel::Enumeration { variants: g1, .. } => {
            if let TypeModel::Enumeration { variants: g2, .. } = d2.value {
                let v1 = fold_variants_spec(n1, g1)->Ok_0;
                let v2 = fold_variants_spec(n2, g2)->Ok_0;
                let h1 = seq![b1[0], b1[1]];
                let h2 = seq![b2[0], b2[1]];
                assert(b1 =~= h1 + v1);
                assert(b2 =~= h2 + v2);
                lemma_split_equal(h1, v1, h2, v2);
                assert(h1[1] == h2[1]);
                lemma_le_bytes_injective(g1.len() as u64, g2.len() as u64);
                assert(v1 + e =~= v1);
                assert(v2 + e =~= v2);
                lemma_variants_fold_prefix_free(n1, g1, n2, g2, e, e);
            }
        },
    }
}

/// A declared identity determines the declared content: where two declarations, each read
/// against its own name table, get equal keys and equal fingerprints, they have the same
/// content. With the law that the same content gives the same identity, the identity is
/// exactly the content, whatever the numbering of names.
pub proof fn law_identity_determines_content(n1: Seq<Seq<char>>, d1: DeclarationModel, n2: Seq<Seq<char>>, d2: DeclarationModel)
    requires
        bounded_declaration(d1),
        bounded_declaration(d2),
        declared_key_spec(n1, d1) is Ok,
        declared_key_spec(n1, d1) == declared_key_spec(n2, d2),
        declared_shape_spec(n1, d1) is Ok,
        declared_shape_spec(n1, d1) == declared_shape_spec(n2, d2),
    ensures
        same_declaration(n1, d1, n2, d2),
{
    law_shape_determines_structure(n1, d1, n2, d2);
    let a1 = spec_resolve(n1, d1.value.identifier())->Ok_0;
    let a2 = spec_resolve(n2, d2.value.identifier())->Ok_0;
    lemma_spelling_bytes_injective(a1, a2);
}

} // verus!
